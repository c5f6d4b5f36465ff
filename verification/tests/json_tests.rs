use refforge::json::parse_settings;
use refforge::settings::Settings;

#[test]
fn serialization_is_deterministic_and_canonical() {
    let s = Settings::default();
    assert_eq!(s.to_json(), "{\"version\":1,\"db_path\":null,\"theme\":\"system\"}".to_string());
    let s2 = Settings { version: 42, db_path: Some("/a/b.db".to_string()), theme: "dark".to_string() };
    assert_eq!(s2.to_json(), "{\"version\":42,\"db_path\":\"/a/b.db\",\"theme\":\"dark\"}".to_string());
}

#[test]
fn empty_object_parses_to_defaults() {
    let r = parse_settings("{}").unwrap();
    assert_eq!(r.version, 1);
    assert_eq!(r.db_path, None);
    assert_eq!(r.theme, "system".to_string());
}

#[test]
fn version_at_u32_max_is_accepted() {
    let r = parse_settings("{\"version\":4294967295}").unwrap();
    assert_eq!(r.version, 4294967295);
}

#[test]
fn version_above_u32_max_is_rejected() {
    assert!(parse_settings("{\"version\":4294967296}").is_none());
}

#[test]
fn unicode_escapes_are_decoded() {
    let r = parse_settings("{\"theme\":\"\\u0041\\u00e9\\u0009\"}").unwrap();
    assert_eq!(r.theme, "A\u{e9}\t".to_string());
}

#[test]
fn surrogate_escape_is_rejected() {
    assert!(parse_settings("{\"theme\":\"\\uD800\"}").is_none());
}

#[test]
fn trailing_comma_is_rejected() {
    assert!(parse_settings("{\"version\":1,}").is_none());
}

#[test]
fn trailing_garbage_is_rejected() {
    assert!(parse_settings("{\"version\":1} x").is_none());
}

#[test]
fn unterminated_string_is_rejected() {
    assert!(parse_settings("{\"theme\":\"abc}").is_none());
}

#[test]
fn duplicate_key_keeps_the_last_value() {
    let r = parse_settings("{\"version\":1,\"version\":7}").unwrap();
    assert_eq!(r.version, 7);
}

#[test]
fn serde_json_reads_what_the_codec_writes() {
    let s = Settings { version: 6, db_path: Some("/x/y.db".to_string()), theme: "dark\n\"q\"".to_string() };
    let v: serde_json::Value = serde_json::from_str(&s.to_json()).unwrap();
    assert_eq!(v.get("version").unwrap().as_u64().unwrap(), 6);
    assert_eq!(v.get("db_path").unwrap().as_str().unwrap(), "/x/y.db");
    assert_eq!(v.get("theme").unwrap().as_str().unwrap(), "dark\n\"q\"");
}

#[test]
fn the_codec_reads_what_serde_json_writes() {
    let mut map = serde_json::Map::new();
    map.insert("version".to_string(), serde_json::Value::from(11u32));
    map.insert("db_path".to_string(), serde_json::Value::String("/d/e.db".to_string()));
    map.insert("theme".to_string(), serde_json::Value::String("ligh\u{1F9}t".to_string()));
    let text = serde_json::to_string_pretty(&serde_json::Value::Object(map)).unwrap();
    let r = parse_settings(&text).unwrap();
    assert_eq!(r.version, 11);
    assert_eq!(r.db_path, Some("/d/e.db".to_string()));
    assert_eq!(r.theme, "ligh\u{1F9}t".to_string());
}
