use niri_toolbar::cache::{decide_valid, get_valid, load_history, save_history, set_path, CacheMap};

#[test]
fn set_path_inserts_and_overwrites() {
    let mut m = CacheMap::new();
    assert_eq!(m.len(), 0);
    set_path(&mut m, "firefox", "/a.png");
    set_path(&mut m, "kitty", "/b.png");
    assert_eq!(m.len(), 2);
    set_path(&mut m, "firefox", "/c.png");
    assert_eq!(m.len(), 2);
    assert_eq!(get_valid(&m, "firefox", false).as_deref(), Some("/c.png"));
    assert_eq!(get_valid(&m, "kitty", false).as_deref(), Some("/b.png"));
}

#[test]
fn get_valid_missing_key_is_none() {
    let m = CacheMap::new();
    assert!(get_valid(&m, "absent", false).is_none());
    assert!(get_valid(&m, "absent", true).is_none());
}

#[test]
fn stale_entry_is_a_miss_only_when_validity_checked() {
    let mut m = CacheMap::new();
    set_path(&mut m, "firefox", "/tmp/missing.png");
    // The checked lookup treats a path that no longer exists as a miss.
    assert!(get_valid(&m, "firefox", true).is_none());
    // The unchecked lookup hands the stored path back unchanged.
    assert_eq!(get_valid(&m, "firefox", false).as_deref(), Some("/tmp/missing.png"));
}

#[test]
fn validity_decision_on_explicit_answers() {
    // A stale entry (stored, check on, file gone) is a miss; otherwise the
    // stored path stands.
    assert_eq!(decide_valid(Some("/p.png".to_string()), true, false), None);
    assert_eq!(decide_valid(Some("/p.png".to_string()), true, true).as_deref(), Some("/p.png"));
    assert_eq!(decide_valid(Some("/p.png".to_string()), false, false).as_deref(), Some("/p.png"));
    assert_eq!(decide_valid(None, true, true), None);
    assert_eq!(decide_valid(None, false, false), None);
}

#[test]
fn dirty_flag_tracks_changes() {
    let mut m = CacheMap::new();
    assert!(!m.changed());
    set_path(&mut m, "a", "/p");
    assert!(m.changed());
    m.mark_saved();
    assert!(!m.changed());
}

#[test]
fn save_load_round_trip_plain() {
    let mut m = CacheMap::new();
    set_path(&mut m, "firefox", "/usr/share/icons/firefox.png");
    set_path(&mut m, "org.gnome.Calculator", "/usr/share/icons/calc.png");
    let text = save_history(&m);
    let back = load_history(Some(text.as_str()));
    assert_eq!(back.len(), 2);
    assert_eq!(
        get_valid(&back, "firefox", false).as_deref(),
        Some("/usr/share/icons/firefox.png")
    );
    assert_eq!(
        get_valid(&back, "org.gnome.Calculator", false).as_deref(),
        Some("/usr/share/icons/calc.png")
    );
    assert!(!back.changed());
}

#[test]
fn save_load_round_trip_with_delimiters_in_values() {
    let mut m = CacheMap::new();
    set_path(&mut m, "odd\tkey", "path\nwith\nnewlines");
    set_path(&mut m, "back\\slash", "quote\"and\ttab");
    set_path(&mut m, "", "/empty-key.png");
    let text = save_history(&m);
    let back = load_history(Some(text.as_str()));
    assert_eq!(back.len(), 3);
    assert_eq!(get_valid(&back, "odd\tkey", false).as_deref(), Some("path\nwith\nnewlines"));
    assert_eq!(get_valid(&back, "back\\slash", false).as_deref(), Some("quote\"and\ttab"));
    assert_eq!(get_valid(&back, "", false).as_deref(), Some("/empty-key.png"));
}

#[test]
fn load_missing_or_corrupt_gives_empty() {
    assert_eq!(load_history(None).len(), 0);
    assert_eq!(load_history(Some("no tab separator here")).len(), 0);
    assert_eq!(load_history(Some("dangling\\\tescape\\q\n")).len(), 0);
    assert_eq!(load_history(Some("unterminated\tline-without-newline")).len(), 0);
}

#[test]
fn load_empty_document_gives_empty_map() {
    let m = load_history(Some(""));
    assert_eq!(m.len(), 0);
    let saved = save_history(&m);
    assert_eq!(saved, "");
}

#[test]
fn later_duplicate_key_in_document_wins() {
    let text = "app\t/first.png\napp\t/second.png\n";
    let m = load_history(Some(text));
    assert_eq!(m.len(), 1);
    assert_eq!(get_valid(&m, "app", false).as_deref(), Some("/second.png"));
}
