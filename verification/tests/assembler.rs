use niri_toolbar::cache::{set_path, CacheMap};
use niri_toolbar::config::SortingMode;
use niri_toolbar::snapshot::{group_windows, SerializableState, WindowEntry};
use niri_toolbar::state::{Event, State, Window};

fn entry(id: u64, app: &str) -> WindowEntry {
    WindowEntry {
        id,
        app_id: app.to_string(),
        title: String::new(),
        icon_path: String::new(),
        is_focused: false,
    }
}

#[test]
fn workspaces_are_ordered_ascending_by_id() {
    let items = vec![(2u64, entry(1, "a")), (0u64, entry(2, "b")), (1u64, entry(3, "c"))];
    let groups = group_windows(items, &SortingMode::Default);
    let ids: Vec<u64> = groups.iter().map(|g| g.id).collect();
    assert_eq!(ids, vec![0, 1, 2]);
}

#[test]
fn default_mode_keeps_input_order_within_group() {
    let items = vec![
        (1u64, entry(5, "e")),
        (1u64, entry(3, "c")),
        (1u64, entry(4, "d")),
    ];
    let groups = group_windows(items, &SortingMode::Default);
    assert_eq!(groups.len(), 1);
    let ids: Vec<u64> = groups[0].windows.iter().map(|w| w.id).collect();
    assert_eq!(ids, vec![5, 3, 4]);
}

#[test]
fn alphabetical_mode_sorts_by_app_id() {
    let items = vec![
        (1u64, entry(1, "zeta")),
        (1u64, entry(2, "alpha")),
        (1u64, entry(3, "mu")),
    ];
    let groups = group_windows(items, &SortingMode::AZ);
    assert_eq!(groups.len(), 1);
    let apps: Vec<&str> = groups[0].windows.iter().map(|w| w.app_id.as_str()).collect();
    assert_eq!(apps, vec!["alpha", "mu", "zeta"]);
}

#[test]
fn id_mode_sorts_by_window_id() {
    let items = vec![
        (1u64, entry(9, "a")),
        (1u64, entry(2, "b")),
        (1u64, entry(5, "c")),
    ];
    let groups = group_windows(items, &SortingMode::Id);
    let ids: Vec<u64> = groups[0].windows.iter().map(|w| w.id).collect();
    assert_eq!(ids, vec![2, 5, 9]);
}

fn win(id: u64, app: &str, ws: u64) -> Window {
    Window {
        id,
        title: Some(format!("t{id}")),
        app_id: Some(app.to_string()),
        workspace_id: Some(ws),
        is_focused: false,
    }
}

fn cached_map(apps: &[&str]) -> CacheMap {
    let mut m = CacheMap::new();
    for a in apps {
        set_path(&mut m, a, &format!("/icons/{a}.png"));
    }
    m
}

#[test]
fn from_parts_groups_by_workspace_ascending() {
    let mut state = State::new();
    state.update_with_event(Event::WindowsChanged {
        windows: vec![win(1, "a", 2), win(2, "b", 0), win(3, "c", 1)],
    });
    let mut cache = cached_map(&["a", "b", "c"]);
    let snap = SerializableState::from_parts(
        &state,
        &16u16,
        &"hicolor".to_string(),
        &true,
        &SortingMode::Default,
        &mut cache,
        &false,
        "/tmp/icons",
        |_p: &str, _s: u16, _o: &str| false,
    );
    let ids: Vec<u64> = snap.workspaces.iter().map(|g| g.id).collect();
    assert_eq!(ids, vec![0, 1, 2]);
    assert_eq!(snap.workspaces[0].windows[0].id, 2);
    assert_eq!(snap.workspaces[1].windows[0].id, 3);
    assert_eq!(snap.workspaces[2].windows[0].id, 1);
}

#[test]
fn from_parts_collapses_groups_when_separation_off() {
    let mut state = State::new();
    state.update_with_event(Event::WindowsChanged {
        windows: vec![win(1, "a", 2), win(2, "b", 0), win(3, "c", 7)],
    });
    let mut cache = cached_map(&["a", "b", "c"]);
    let snap = SerializableState::from_parts(
        &state,
        &16u16,
        &"hicolor".to_string(),
        &false,
        &SortingMode::Default,
        &mut cache,
        &false,
        "/tmp/icons",
        |_p: &str, _s: u16, _o: &str| false,
    );
    assert_eq!(snap.workspaces.len(), 1);
    assert_eq!(snap.workspaces[0].id, 0);
    assert_eq!(snap.workspaces[0].windows.len(), 3);
}

#[test]
fn from_parts_sorts_alphabetically_when_asked() {
    let mut state = State::new();
    state.update_with_event(Event::WindowsChanged {
        windows: vec![win(1, "zeta", 1), win(2, "alpha", 1), win(3, "mu", 1)],
    });
    let mut cache = cached_map(&["zeta", "alpha", "mu"]);
    let snap = SerializableState::from_parts(
        &state,
        &16u16,
        &"hicolor".to_string(),
        &true,
        &SortingMode::AZ,
        &mut cache,
        &false,
        "/tmp/icons",
        |_p: &str, _s: u16, _o: &str| false,
    );
    let apps: Vec<&str> =
        snap.workspaces[0].windows.iter().map(|w| w.app_id.as_str()).collect();
    assert_eq!(apps, vec!["alpha", "mu", "zeta"]);
}

#[test]
fn from_parts_uses_cache_hit_without_resolution() {
    let mut state = State::new();
    state.update_with_event(Event::WindowsChanged {
        windows: vec![win(1, "firefox", 1)],
    });
    let mut cache = cached_map(&["firefox"]);
    cache.mark_saved();
    let snap = SerializableState::from_parts(
        &state,
        &16u16,
        &"hicolor".to_string(),
        &true,
        &SortingMode::Default,
        &mut cache,
        &false,
        "/tmp/icons",
        |_p: &str, _s: u16, _o: &str| panic!("normalization must not run on a cache hit"),
    );
    assert_eq!(snap.workspaces[0].windows[0].icon_path, "/icons/firefox.png");
    assert!(!cache.changed());
}

#[test]
fn from_parts_defaults_missing_app_id_and_title() {
    let mut state = State::new();
    state.update_with_event(Event::WindowsChanged {
        windows: vec![Window {
            id: 4,
            title: None,
            app_id: None,
            workspace_id: None,
            is_focused: true,
        }],
    });
    let mut cache = cached_map(&["application-default-icon"]);
    let snap = SerializableState::from_parts(
        &state,
        &16u16,
        &"hicolor".to_string(),
        &true,
        &SortingMode::Default,
        &mut cache,
        &false,
        "/tmp/icons",
        |_p: &str, _s: u16, _o: &str| false,
    );
    let w = &snap.workspaces[0].windows[0];
    assert_eq!(snap.workspaces[0].id, 0);
    assert_eq!(w.app_id, "unknown");
    assert_eq!(w.title, "");
    assert!(w.is_focused);
    assert_eq!(w.icon_path, "/icons/application-default-icon.png");
}
