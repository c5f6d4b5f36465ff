use refforge::paths::{config_path_in, db_connection_string, default_db_path_in};
use refforge::settings::Settings;

#[test]
fn explicit_path_resolves_verbatim_with_scheme() {
    let cs = db_connection_string(&Some("/x/y.db".to_string()), "/ignored");
    assert_eq!(cs, "sqlite:/x/y.db".to_string());
}

#[test]
fn default_path_lies_under_the_data_directory() {
    let cs = db_connection_string(&None, "/home/u/.local/share");
    assert_eq!(cs, "sqlite:/home/u/.local/share/RefForge/refforge.db".to_string());
}

#[test]
fn settings_with_explicit_path_resolve_to_it() {
    let s = Settings { version: 1, db_path: Some("/d/lib.db".to_string()), theme: "system".to_string() };
    assert_eq!(s.get_db_path().unwrap(), "sqlite:/d/lib.db".to_string());
}

#[test]
fn settings_without_explicit_path_resolve_to_the_platform_default() {
    let s = Settings::default();
    match s.get_db_path() {
        Ok(cs) => {
            assert!(cs.starts_with("sqlite:"));
            assert!(cs.ends_with("/RefForge/refforge.db"));
        },
        Err(e) => {
            assert_eq!(e, "Failed to get data directory".to_string());
        },
    }
}

#[test]
fn config_file_location_is_fixed_below_its_directory() {
    assert_eq!(config_path_in("/home/u/.config"), "/home/u/.config/RefForge/settings.json".to_string());
    assert_eq!(default_db_path_in("/home/u/.local/share"), "/home/u/.local/share/RefForge/refforge.db".to_string());
}

#[test]
fn platform_locations_end_in_the_fixed_relative_paths() {
    match Settings::get_config_path() {
        Ok(p) => assert!(p.ends_with("/RefForge/settings.json")),
        Err(e) => assert_eq!(e, "Failed to get config directory".to_string()),
    }
    match Settings::get_default_db_path() {
        Ok(p) => assert!(p.ends_with("/RefForge/refforge.db")),
        Err(e) => assert_eq!(e, "Failed to get data directory".to_string()),
    }
}
