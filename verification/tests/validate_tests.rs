use refforge::validate::{check_db_header, validate_content, validate_precheck};

fn minimal_db_header(page_size_hi: u8, page_size_lo: u8) -> Vec<u8> {
    let magic = b"SQLite format 3\0";
    let mut bytes = Vec::new();
    bytes.extend_from_slice(magic);
    bytes.push(page_size_hi);
    bytes.push(page_size_lo);
    while bytes.len() < 100 {
        bytes.push(0);
    }
    bytes
}

#[test]
fn empty_path_is_invalid_without_io() {
    let r = validate_precheck("", false).unwrap();
    assert!(!r.valid);
    assert!(r.message.contains("empty"));
    let r2 = validate_precheck("", true).unwrap();
    assert!(!r2.valid);
    assert_eq!(r2.message, "Database path is empty".to_string());
}

#[test]
fn missing_file_is_invalid_and_named() {
    let r = validate_precheck("/no/such/file.db", false).unwrap();
    assert!(!r.valid);
    assert!(r.message.contains("does not exist"));
    assert!(r.message.contains("/no/such/file.db"));
}

#[test]
fn existing_file_passes_the_precheck() {
    assert!(validate_precheck("/some/file.db", true).is_none());
}

#[test]
fn fresh_minimal_database_is_valid() {
    let bytes = minimal_db_header(0x10, 0x00);
    let r = validate_content(&bytes);
    assert!(r.valid);
    assert_eq!(r.message, "Database is valid".to_string());
}

#[test]
fn empty_file_is_a_valid_empty_database() {
    assert!(check_db_header(&Vec::new()));
}

#[test]
fn page_size_one_means_the_largest_page() {
    assert!(check_db_header(&minimal_db_header(0x00, 0x01)));
}

#[test]
fn wrong_magic_is_invalid() {
    let mut bytes = minimal_db_header(0x10, 0x00);
    bytes[0] = b'X';
    let r = validate_content(&bytes);
    assert!(!r.valid);
    assert!(r.message.contains("not a valid SQLite database"));
}

#[test]
fn truncated_header_is_invalid() {
    let bytes = vec![0x53u8, 0x51, 0x4c];
    assert!(!check_db_header(&bytes));
}

#[test]
fn bad_page_size_is_invalid() {
    assert!(!check_db_header(&minimal_db_header(0x01, 0x2c)));
}
