use refforge::backup::{
    backup_dest_path, backup_dir_in, backup_file_name, backup_outcome, backup_precheck,
    file_name_of, timestamp_from_secs,
};

#[test]
fn empty_path_fails_the_backup_precheck() {
    let r = backup_precheck("", false).unwrap();
    assert!(!r.success);
    assert_eq!(r.backup_path, None);
    assert!(r.message.contains("empty"));
}

#[test]
fn missing_source_fails_the_backup_precheck() {
    let r = backup_precheck("/gone/lib.db", false).unwrap();
    assert!(!r.success);
    assert_eq!(r.backup_path, None);
    assert!(r.message.contains("does not exist"));
    assert!(r.message.contains("/gone/lib.db"));
}

#[test]
fn existing_source_passes_the_backup_precheck() {
    assert!(backup_precheck("/here/lib.db", true).is_none());
}

#[test]
fn epoch_zero_is_the_first_instant() {
    let t = timestamp_from_secs(0);
    assert_eq!((t.year, t.month, t.day, t.hour, t.minute, t.second), (1970, 1, 1, 0, 0, 0));
}

#[test]
fn a_known_instant_converts_exactly() {
    let t = timestamp_from_secs(1_000_000_000);
    assert_eq!((t.year, t.month, t.day), (2001, 9, 9));
    assert_eq!((t.hour, t.minute, t.second), (1, 46, 40));
}

#[test]
fn leap_day_is_handled() {
    let t = timestamp_from_secs(951_782_400);
    assert_eq!((t.year, t.month, t.day, t.hour, t.minute, t.second), (2000, 2, 29, 0, 0, 0));
}

#[test]
fn backup_name_matches_the_pattern() {
    let t = timestamp_from_secs(0);
    let name = backup_file_name("refforge.db", &t);
    assert_eq!(name, "refforge.db_19700101_000000.bak".to_string());
}

#[test]
fn file_name_is_taken_after_the_last_separator() {
    assert_eq!(file_name_of("/a/b/c.db"), "c.db".to_string());
    assert_eq!(file_name_of("c.db"), "c.db".to_string());
    assert_eq!(file_name_of("C:\\data\\lib.db"), "lib.db".to_string());
    assert_eq!(file_name_of("/ends/with/"), "".to_string());
}

#[test]
fn destination_path_combines_directory_name_and_timestamp() {
    let t = timestamp_from_secs(1_000_000_000);
    let dest = backup_dest_path("/data/RefForge/backups", "/data/RefForge/refforge.db", &t);
    assert_eq!(dest, "/data/RefForge/backups/refforge.db_20010909_014640.bak".to_string());
}

#[test]
fn backup_directory_lies_under_the_data_directory() {
    assert_eq!(backup_dir_in("/data"), "/data/RefForge/backups".to_string());
}

#[test]
fn successful_copy_reports_the_destination() {
    let r = backup_outcome("/b/x_19700101_000000.bak".to_string(), None);
    assert!(r.success);
    assert_eq!(r.backup_path, Some("/b/x_19700101_000000.bak".to_string()));
    assert_eq!(r.message, "Backup created successfully".to_string());
}

#[test]
fn failed_copy_reports_the_error_and_no_path() {
    let r = backup_outcome("/b/x.bak".to_string(), Some("permission denied"));
    assert!(!r.success);
    assert_eq!(r.backup_path, None);
    assert_eq!(r.message, "Failed to copy database file: permission denied".to_string());
}
