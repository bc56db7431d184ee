use niri_toolbar::snapshot::{SerializableState, WindowEntry, Workspace};

fn sample() -> SerializableState {
    SerializableState {
        workspaces: vec![
            Workspace {
                id: 0,
                windows: vec![WindowEntry {
                    id: 7,
                    app_id: "firefox".to_string(),
                    title: "Mozilla \"Firefox\"".to_string(),
                    icon_path: "/icons/firefox.png".to_string(),
                    is_focused: true,
                }],
            },
            Workspace {
                id: 3,
                windows: vec![
                    WindowEntry {
                        id: 1,
                        app_id: "kitty".to_string(),
                        title: String::new(),
                        icon_path: String::new(),
                        is_focused: false,
                    },
                    WindowEntry {
                        id: 2,
                        app_id: "unknown".to_string(),
                        title: "tab\tand\nnewline".to_string(),
                        icon_path: "/a\\b.png".to_string(),
                        is_focused: false,
                    },
                ],
            },
        ],
    }
}

#[test]
fn to_json_exact_text() {
    let snap = SerializableState {
        workspaces: vec![Workspace {
            id: 1,
            windows: vec![WindowEntry {
                id: 42,
                app_id: "kitty".to_string(),
                title: "term".to_string(),
                icon_path: "/k.png".to_string(),
                is_focused: false,
            }],
        }],
    };
    assert_eq!(
        snap.to_json(),
        "{\"workspaces\":[{\"id\":1,\"windows\":[{\"id\":42,\"app_id\":\"kitty\",\"title\":\"term\",\"icon_path\":\"/k.png\",\"is_focused\":false}]}]}"
    );
}

#[test]
fn to_json_is_valid_json_with_escapes() {
    let text = sample().to_json();
    let v: serde_json::Value = serde_json::from_str(&text).expect("emitted text must be JSON");
    let workspaces = v.get("workspaces").unwrap().as_array().unwrap();
    assert_eq!(workspaces.len(), 2);
    assert_eq!(workspaces[0]["id"], 0);
    assert_eq!(workspaces[0]["windows"][0]["title"], "Mozilla \"Firefox\"");
    assert_eq!(workspaces[0]["windows"][0]["is_focused"], true);
    assert_eq!(workspaces[1]["windows"][1]["title"], "tab\tand\nnewline");
    assert_eq!(workspaces[1]["windows"][1]["icon_path"], "/a\\b.png");
}

#[test]
fn to_json_empty_snapshot() {
    let snap = SerializableState { workspaces: Vec::new() };
    assert_eq!(snap.to_json(), "{\"workspaces\":[]}");
}

#[test]
fn to_json_control_characters_use_unicode_escapes() {
    let snap = SerializableState {
        workspaces: vec![Workspace {
            id: 0,
            windows: vec![WindowEntry {
                id: 1,
                app_id: "a".to_string(),
                title: "bell\u{0007}".to_string(),
                icon_path: String::new(),
                is_focused: false,
            }],
        }],
    };
    let text = snap.to_json();
    assert!(text.contains("bell\\u0007"));
    let v: serde_json::Value = serde_json::from_str(&text).unwrap();
    assert_eq!(v["workspaces"][0]["windows"][0]["title"], "bell\u{0007}");
}
