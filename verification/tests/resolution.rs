use niri_toolbar::icons::{desktop_icon_names, resolution_keys, resolve_attempts};
use niri_toolbar::text::{decimal_string, prefix_before, str_le, suffix_after_last};

#[test]
fn fallback_chain_takes_first_non_empty_attempt() {
    // The first four themed attempts (verbatim, lower-cased, post-dot,
    // pre-star keys) come back empty; the standalone attempt answers.
    let attempts = vec![
        String::new(),
        String::new(),
        String::new(),
        String::new(),
        "/standalone/app.png".to_string(),
        "/desktop/entry.png".to_string(),
        "/generic/exec.png".to_string(),
    ];
    assert_eq!(resolve_attempts(&attempts), "/standalone/app.png");
}

#[test]
fn fallback_chain_first_attempt_short_circuits() {
    let attempts = vec!["/direct.png".to_string(), "/later.png".to_string()];
    assert_eq!(resolve_attempts(&attempts), "/direct.png");
}

#[test]
fn fallback_chain_all_empty_gives_empty() {
    let attempts = vec![String::new(), String::new()];
    assert_eq!(resolve_attempts(&attempts), "");
    assert_eq!(resolve_attempts(&Vec::new()), "");
}

#[test]
fn reverse_domain_id_keys() {
    let keys = resolution_keys("org.Example.App");
    assert_eq!(
        keys,
        vec![
            "org.Example.App".to_string(),
            "org.example.app".to_string(),
            "app".to_string(),
            "org.example.app".to_string(),
        ]
    );
    assert_eq!(suffix_after_last("no-dots", '.'), "no-dots");
    assert_eq!(suffix_after_last("trailing.", '.'), "");
}

#[test]
fn wildcard_id_resolution_keys() {
    let keys = resolution_keys("Steam_App_123*");
    assert_eq!(keys[1], "steam_app_123*");
    assert_eq!(keys[3], "steam_app_123");
}

#[test]
fn wildcard_id_keys() {
    assert_eq!(prefix_before("steam_app_*", '*'), "steam_app_");
    assert_eq!(prefix_before("plain", '*'), "plain");
    assert_eq!(prefix_before("*leading", '*'), "");
}

#[test]
fn desktop_icon_names_picks_matching_entries_in_order() {
    let entries = vec![
        (Some("Firefox".to_string()), "firefox-icon".to_string()),
        (None, "nameless-icon".to_string()),
        (Some("Files".to_string()), "files-icon".to_string()),
        (Some("Firefox".to_string()), "firefox-alt".to_string()),
    ];
    let names = desktop_icon_names(&entries, "Firefox");
    assert_eq!(names, vec!["firefox-icon".to_string(), "firefox-alt".to_string()]);
    assert!(desktop_icon_names(&entries, "Missing").is_empty());
}

#[test]
fn string_order_is_lexicographic() {
    assert!(str_le("alpha", "mu"));
    assert!(!str_le("zeta", "mu"));
    assert!(str_le("abc", "abc"));
    assert!(str_le("ab", "abc"));
    assert!(!str_le("abc", "ab"));
    assert!(str_le("", "a"));
}

#[test]
fn decimal_formatting() {
    assert_eq!(decimal_string(0), "0");
    assert_eq!(decimal_string(42), "42");
    assert_eq!(decimal_string(65535), "65535");
    assert_eq!(decimal_string(u64::MAX), "18446744073709551615");
}
