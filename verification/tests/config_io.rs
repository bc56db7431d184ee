use niri_toolbar::config::{
    default_config, encode_config, load_or_create_config, parse_config, SortingMode,
};

#[test]
fn default_round_trips_through_encoder_and_parser() {
    let d = default_config();
    let text = encode_config(&d);
    let back = parse_config(text.as_str()).expect("the written default must parse");
    assert_eq!(back.general.icon_theme, "Papirus-Dark");
    assert_eq!(back.general.icon_size, 16);
    assert!(back.general.seperate_workspaces);
    assert_eq!(back.general.sorting_mode, SortingMode::Default);
    assert!(back.general.check_cache_validity);
}

#[test]
fn encoded_default_has_expected_shape() {
    let text = encode_config(&default_config());
    assert_eq!(
        text,
        "[general]\nicon_theme = \"Papirus-Dark\"\nicon_size = 16\nseperate_workspaces = true\nsorting_mode = \"Default\"\ncheck_cache_validity = true\n"
    );
}

#[test]
fn parses_options_in_any_order_and_skips_unknown_keys() {
    let text = "[general]\ncheck_cache_validity = false\nsorting_mode = \"AZ\"\nextra_key = \"ignored\"\nicon_size = 24\n\nicon_theme = \"Adwaita\"\nseperate_workspaces = false\n";
    let c = parse_config(text).expect("document must parse");
    assert_eq!(c.general.icon_theme, "Adwaita");
    assert_eq!(c.general.icon_size, 24);
    assert!(!c.general.seperate_workspaces);
    assert_eq!(c.general.sorting_mode, SortingMode::AZ);
    assert!(!c.general.check_cache_validity);
}

#[test]
fn parses_id_sorting_mode() {
    let text = "icon_theme = \"T\"\nicon_size = 1\nseperate_workspaces = true\nsorting_mode = \"Id\"\ncheck_cache_validity = true\n";
    let c = parse_config(text).expect("document must parse");
    assert_eq!(c.general.sorting_mode, SortingMode::Id);
}

#[test]
fn rejects_missing_option() {
    let text = "icon_theme = \"T\"\nicon_size = 16\nseperate_workspaces = true\nsorting_mode = \"Default\"\n";
    assert!(parse_config(text).is_none());
}

#[test]
fn rejects_duplicate_option() {
    let text = "icon_theme = \"T\"\nicon_theme = \"U\"\nicon_size = 16\nseperate_workspaces = true\nsorting_mode = \"Default\"\ncheck_cache_validity = true\n";
    assert!(parse_config(text).is_none());
}

#[test]
fn rejects_bad_values() {
    let base = |size: &str, mode: &str| {
        format!(
            "icon_theme = \"T\"\nicon_size = {size}\nseperate_workspaces = true\nsorting_mode = {mode}\ncheck_cache_validity = true\n"
        )
    };
    assert!(parse_config(&base("16", "\"Default\"")).is_some());
    assert!(parse_config(&base("0x10", "\"Default\"")).is_none());
    assert!(parse_config(&base("70000", "\"Default\"")).is_none());
    assert!(parse_config(&base("123456", "\"Default\"")).is_none());
    assert!(parse_config(&base("", "\"Default\"")).is_none());
    assert!(parse_config(&base("16", "\"Random\"")).is_none());
    assert!(parse_config(&base("16", "Default")).is_none());
}

#[test]
fn boundary_size_values() {
    let base = |size: &str| {
        format!(
            "icon_theme = \"T\"\nicon_size = {size}\nseperate_workspaces = true\nsorting_mode = \"Default\"\ncheck_cache_validity = true\n"
        )
    };
    assert_eq!(parse_config(&base("65535")).unwrap().general.icon_size, 65535);
    assert!(parse_config(&base("65536")).is_none());
    assert_eq!(parse_config(&base("0")).unwrap().general.icon_size, 0);
}

#[test]
fn load_or_create_falls_back_to_default() {
    let missing = load_or_create_config(None);
    assert_eq!(missing.general.icon_theme, "Papirus-Dark");
    assert_eq!(missing.general.icon_size, 16);
    let garbage = load_or_create_config(Some("not a config"));
    assert_eq!(garbage.general.icon_theme, "Papirus-Dark");
    let good = load_or_create_config(Some(
        "icon_theme = \"X\"\nicon_size = 32\nseperate_workspaces = false\nsorting_mode = \"Id\"\ncheck_cache_validity = false\n",
    ));
    assert_eq!(good.general.icon_theme, "X");
    assert_eq!(good.general.icon_size, 32);
}

#[test]
fn tolerates_comments_spacing_and_crlf() {
    let text = "# a comment\r\n[general]\r\nicon_theme=\"T\"\r\n  icon_size   =  24\nseperate_workspaces =false\nsorting_mode= \"AZ\"\n   # another note\ncheck_cache_validity = true\r\n";
    let c = parse_config(text).expect("lenient forms must parse");
    assert_eq!(c.general.icon_theme, "T");
    assert_eq!(c.general.icon_size, 24);
    assert!(!c.general.seperate_workspaces);
    assert_eq!(c.general.sorting_mode, SortingMode::AZ);
    assert!(c.general.check_cache_validity);
}

#[test]
fn blank_padded_lines_and_missing_final_newline() {
    let text = "   \nicon_theme = \"T\"\nicon_size = 1\nseperate_workspaces = true\nsorting_mode = \"Id\"\ncheck_cache_validity = false";
    let c = parse_config(text).expect("document must parse");
    assert!(!c.general.check_cache_validity);
    assert_eq!(c.general.sorting_mode, SortingMode::Id);
}

#[test]
fn theme_names_with_escapes_round_trip() {
    let mut c = default_config();
    c.general.icon_theme = "we\\ird\"theme\n".to_string();
    let text = encode_config(&c);
    let back = parse_config(text.as_str()).expect("escaped theme must parse");
    assert_eq!(back.general.icon_theme, "we\\ird\"theme\n");
}
