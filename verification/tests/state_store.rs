use niri_toolbar::state::{Event, State, Window};

fn win(id: u64, app: &str, ws: u64, focused: bool) -> Window {
    Window {
        id,
        title: Some(format!("title-{id}")),
        app_id: Some(app.to_string()),
        workspace_id: Some(ws),
        is_focused: focused,
    }
}

#[test]
fn full_list_replace_adopts_list_verbatim() {
    let mut state = State::new();
    state.update_with_event(Event::WindowOpenedOrChanged { window: win(9, "old", 1, false) });
    let supplied = vec![win(3, "a", 1, false), win(1, "b", 2, true), win(2, "c", 1, false)];
    state.update_with_event(Event::WindowsChanged { windows: supplied });
    let ids: Vec<u64> = state.windows.iter().map(|w| w.id).collect();
    assert_eq!(ids, vec![3, 1, 2]);
    assert_eq!(state.windows[1].app_id.as_deref(), Some("b"));
    assert!(state.windows[1].is_focused);
}

#[test]
fn opened_focused_window_clears_other_focus() {
    let mut state = State::new();
    state.update_with_event(Event::WindowsChanged {
        windows: vec![win(1, "a", 1, true), win(2, "b", 1, false)],
    });
    state.update_with_event(Event::WindowOpenedOrChanged { window: win(3, "c", 2, true) });
    let focused: Vec<u64> = state.windows.iter().filter(|w| w.is_focused).map(|w| w.id).collect();
    assert_eq!(focused, vec![3]);
    assert_eq!(state.windows.len(), 3);
}

#[test]
fn opened_existing_id_overwrites_in_place() {
    let mut state = State::new();
    state.update_with_event(Event::WindowsChanged {
        windows: vec![win(1, "a", 1, false), win(2, "b", 1, false)],
    });
    state.update_with_event(Event::WindowOpenedOrChanged { window: win(1, "a2", 3, false) });
    assert_eq!(state.windows.len(), 2);
    assert_eq!(state.windows[0].app_id.as_deref(), Some("a2"));
    assert_eq!(state.windows[0].workspace_id, Some(3));
}

#[test]
fn window_closed_twice_is_idempotent() {
    let mut state = State::new();
    state.update_with_event(Event::WindowsChanged {
        windows: vec![win(1, "a", 1, false), win(2, "b", 1, false), win(3, "c", 1, false)],
    });
    state.update_with_event(Event::WindowClosed { id: 2 });
    let after_first: Vec<u64> = state.windows.iter().map(|w| w.id).collect();
    assert_eq!(after_first, vec![1, 3]);
    state.update_with_event(Event::WindowClosed { id: 2 });
    let after_second: Vec<u64> = state.windows.iter().map(|w| w.id).collect();
    assert_eq!(after_first, after_second);
}

#[test]
fn focus_changed_moves_focus() {
    let mut state = State::new();
    state.update_with_event(Event::WindowsChanged {
        windows: vec![win(1, "a", 1, true), win(2, "b", 1, false)],
    });
    state.update_with_event(Event::WindowFocusChanged { id: Some(2) });
    let focused: Vec<u64> = state.windows.iter().filter(|w| w.is_focused).map(|w| w.id).collect();
    assert_eq!(focused, vec![2]);
}

#[test]
fn focus_changed_to_unknown_id_leaves_none_focused() {
    let mut state = State::new();
    state.update_with_event(Event::WindowsChanged {
        windows: vec![win(1, "a", 1, true), win(2, "b", 1, false)],
    });
    state.update_with_event(Event::WindowFocusChanged { id: Some(77) });
    assert_eq!(state.windows.iter().filter(|w| w.is_focused).count(), 0);
}

#[test]
fn focus_changed_none_clears_all() {
    let mut state = State::new();
    state.update_with_event(Event::WindowsChanged {
        windows: vec![win(1, "a", 1, true)],
    });
    state.update_with_event(Event::WindowFocusChanged { id: None });
    assert_eq!(state.windows.iter().filter(|w| w.is_focused).count(), 0);
}

#[test]
fn at_most_one_focused_after_every_event() {
    let mut state = State::new();
    let events = vec![
        Event::WindowsChanged { windows: vec![win(1, "a", 1, true), win(2, "b", 2, false)] },
        Event::WindowOpenedOrChanged { window: win(3, "c", 1, true) },
        Event::WindowOpenedOrChanged { window: win(2, "b2", 2, false) },
        Event::WindowFocusChanged { id: Some(1) },
        Event::WindowClosed { id: 1 },
        Event::Ignored,
        Event::WindowFocusChanged { id: None },
        Event::WindowOpenedOrChanged { window: win(4, "d", 3, true) },
    ];
    for e in events {
        state.update_with_event(e);
        assert!(state.windows.iter().filter(|w| w.is_focused).count() <= 1);
    }
}

#[test]
fn ignored_event_changes_nothing() {
    let mut state = State::new();
    state.update_with_event(Event::WindowsChanged {
        windows: vec![win(1, "a", 1, true)],
    });
    state.update_with_event(Event::Ignored);
    assert_eq!(state.windows.len(), 1);
    assert_eq!(state.windows[0].id, 1);
    assert!(state.windows[0].is_focused);
}
