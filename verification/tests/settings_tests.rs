use refforge::settings::Settings;

#[test]
fn default_settings_match_documented_values() {
    let s = Settings::default();
    assert_eq!(s.version, 1);
    assert_eq!(s.db_path, None);
    assert_eq!(s.theme, "system".to_string());
}

#[test]
fn load_without_file_returns_defaults() {
    let r = Settings::load_from_content(None).unwrap();
    assert_eq!(r.version, 1);
    assert_eq!(r.db_path, None);
    assert_eq!(r.theme, "system".to_string());
}

#[test]
fn save_then_load_returns_equal_value() {
    let s = Settings { version: 3, db_path: Some("/tmp/lib.db".to_string()), theme: "dark".to_string() };
    let text = s.to_json();
    let r = Settings::load_from_content(Some(&text)).unwrap();
    assert_eq!(r.version, 3);
    assert_eq!(r.db_path, Some("/tmp/lib.db".to_string()));
    assert_eq!(r.theme, "dark".to_string());
}

#[test]
fn save_then_load_with_no_db_path() {
    let s = Settings { version: 1, db_path: None, theme: "light".to_string() };
    let text = s.to_json();
    let r = Settings::load_from_content(Some(&text)).unwrap();
    assert_eq!(r.version, 1);
    assert_eq!(r.db_path, None);
    assert_eq!(r.theme, "light".to_string());
}

#[test]
fn malformed_content_is_a_parse_error() {
    let r = Settings::load_from_content(Some("not json at all"));
    assert_eq!(r.unwrap_err(), "Failed to parse settings file".to_string());
}

#[test]
fn version_zero_is_migrated_up_to_one() {
    let r = Settings::load_from_content(Some("{\"version\":0}")).unwrap();
    assert_eq!(r.version, 1);
    assert_eq!(r.db_path, None);
    assert_eq!(r.theme, "system".to_string());
}

#[test]
fn missing_fields_take_defaults() {
    let r = Settings::load_from_content(Some("{\"theme\":\"dark\"}")).unwrap();
    assert_eq!(r.version, 1);
    assert_eq!(r.db_path, None);
    assert_eq!(r.theme, "dark".to_string());
}

#[test]
fn unknown_fields_are_ignored() {
    let text = "{\"version\":2,\"extra\":true,\"other\":null,\"n\":-1.5e3,\"s\":\"x\",\"theme\":\"light\"}";
    let r = Settings::load_from_content(Some(text)).unwrap();
    assert_eq!(r.version, 2);
    assert_eq!(r.theme, "light".to_string());
}

#[test]
fn whitespace_and_key_order_are_free() {
    let text = " {\n  \"theme\" : \"dark\" ,\n  \"version\" : 5\n}\n";
    let r = Settings::load_from_content(Some(text)).unwrap();
    assert_eq!(r.version, 5);
    assert_eq!(r.db_path, None);
    assert_eq!(r.theme, "dark".to_string());
}

#[test]
fn theme_with_escapes_round_trips() {
    let s = Settings {
        version: 9,
        db_path: Some("C:\\data\\lib.db".to_string()),
        theme: "a\"b\\c\nd\te\r\u{1}f".to_string(),
    };
    let text = s.to_json();
    let r = Settings::load_from_content(Some(&text)).unwrap();
    assert_eq!(r.version, 9);
    assert_eq!(r.db_path, Some("C:\\data\\lib.db".to_string()));
    assert_eq!(r.theme, "a\"b\\c\nd\te\r\u{1}f".to_string());
}

#[test]
fn non_ascii_theme_round_trips() {
    let s = Settings { version: 2, db_path: None, theme: "systém ☃".to_string() };
    let text = s.to_json();
    let r = Settings::load_from_content(Some(&text)).unwrap();
    assert_eq!(r.theme, "systém ☃".to_string());
}

#[test]
fn unknown_fields_with_composite_values_are_ignored() {
    let text = "{\"x\":{},\"version\":2,\"y\":[1,2,3],\"theme\":\"dark\"}";
    let r = Settings::load_from_content(Some(text)).unwrap();
    assert_eq!(r.version, 2);
    assert_eq!(r.db_path, None);
    assert_eq!(r.theme, "dark".to_string());
}

#[test]
fn deeply_nested_unknown_values_are_ignored() {
    let text = "{\"x\":{\"a\":[1,{\"b\":\"}]\"},[]]},\"version\":4}";
    let r = Settings::load_from_content(Some(text)).unwrap();
    assert_eq!(r.version, 4);
    assert_eq!(r.theme, "system".to_string());
}

#[test]
fn unterminated_composite_value_is_a_parse_error() {
    let r = Settings::load_from_content(Some("{\"x\":{\"a\":[}"));
    assert!(r.is_err());
}
