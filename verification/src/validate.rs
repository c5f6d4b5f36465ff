//! Database file validation: the empty-path and missing-file prechecks, and
//! a lightweight diagnostic on the file's header bytes, reading only the
//! format magic and an internal metadata counter, never user data.

use vstd::prelude::*;
use vstd::string::StringExecFns;

verus! {

/// Result of one validation call: never an error, always a verdict.
pub struct ValidationResult {
    pub valid: bool,
    pub message: String,
}

pub open spec fn empty_path_msg() -> Seq<char> {
    "Database path is empty"@
}

pub open spec fn not_exist_msg(path: Seq<char>) -> Seq<char> {
    "Database file does not exist: "@ + path
}

pub open spec fn valid_db_msg() -> Seq<char> {
    "Database is valid"@
}

pub open spec fn invalid_db_msg() -> Seq<char> {
    "Database file is not a valid SQLite database"@
}

/// Steps one and two of validation: an empty path and a missing file are
/// rejected before any file contents are touched; `None` means the caller
/// should go on and inspect the file itself.
pub fn validate_precheck(path: &str, exists: bool) -> (r: Option<ValidationResult>)
    ensures
        path@.len() == 0 ==> (r matches Some(v) && !v.valid && v.message@ == empty_path_msg()),
        path@.len() > 0 && !exists ==> (r matches Some(v) && !v.valid && v.message@
            == not_exist_msg(path@)),
        path@.len() > 0 && exists ==> r is None,
{
    if path.is_empty() {
        Some(
            ValidationResult { valid: false, message: String::from_str("Database path is empty") },
        )
    } else if !exists {
        let mut m = String::from_str("Database file does not exist: ");
        m.append(path);
        Some(ValidationResult { valid: false, message: m })
    } else {
        None
    }
}

/// The sixteen magic bytes that open every non-empty SQLite database file.
pub open spec fn sqlite_magic() -> Seq<u8> {
    seq![
        0x53u8,
        0x51u8,
        0x4cu8,
        0x69u8,
        0x74u8,
        0x65u8,
        0x20u8,
        0x66u8,
        0x6fu8,
        0x72u8,
        0x6du8,
        0x61u8,
        0x74u8,
        0x20u8,
        0x33u8,
        0x00u8,
    ]
}

/// The page sizes the format allows: powers of two from 512 to 32768, or the
/// value 1 standing for 65536.
pub open spec fn valid_page_size(n: int) -> bool {
    n == 1 || n == 512 || n == 1024 || n == 2048 || n == 4096 || n == 8192 || n == 16384 || n
        == 32768
}

/// What the diagnostic accepts: an empty file is a valid (empty) database;
/// anything else must carry a full header with the magic and a well-formed
/// page-size counter.
pub open spec fn db_header_valid(b: Seq<u8>) -> bool {
    b.len() == 0 || (b.len() >= 100 && b.subrange(0, 16) == sqlite_magic() && valid_page_size(
        b[16] as int * 256 + b[17] as int,
    ))
}

fn magic_bytes() -> (r: Vec<u8>)
    ensures
        r@ == sqlite_magic(),
{
    let mut m: Vec<u8> = Vec::new();
    m.push(0x53);
    m.push(0x51);
    m.push(0x4c);
    m.push(0x69);
    m.push(0x74);
    m.push(0x65);
    m.push(0x20);
    m.push(0x66);
    m.push(0x6f);
    m.push(0x72);
    m.push(0x6d);
    m.push(0x61);
    m.push(0x74);
    m.push(0x20);
    m.push(0x33);
    m.push(0x00);
    proof {
        assert(m@ =~= sqlite_magic());
    }
    m
}

/// Step three of validation, on the first bytes of the file (up to one
/// hundred of them): the header diagnostic.
pub fn check_db_header(head: &Vec<u8>) -> (r: bool)
    ensures
        r == db_header_valid(head@),
{
    if head.len() == 0 {
        return true;
    }
    if head.len() < 100 {
        return false;
    }
    let magic = magic_bytes();
    let mut i: usize = 0;
    while i < 16
        invariant
            0 <= i <= 16,
            head@.len() >= 100,
            magic@ == sqlite_magic(),
            forall|k: int| 0 <= k < i ==> head@[k] == magic@[k],
        decreases 16 - i,
    {
        if head[i] != magic[i] {
            proof {
                if db_header_valid(head@) {
                    assert(head@.subrange(0, 16)[i as int] == head@[i as int]);
                }
            }
            return false;
        }
        i = i + 1;
    }
    proof {
        assert(head@.subrange(0, 16) =~= sqlite_magic());
    }
    let ps: u32 = (head[16] as u32) * 256 + (head[17] as u32);
    ps == 1 || ps == 512 || ps == 1024 || ps == 2048 || ps == 4096 || ps == 8192 || ps == 16384
        || ps == 32768
}

/// The verdict on a file's header bytes, as a result object.
pub fn validate_content(head: &Vec<u8>) -> (r: ValidationResult)
    ensures
        r.valid == db_header_valid(head@),
        db_header_valid(head@) ==> r.message@ == valid_db_msg(),
        !db_header_valid(head@) ==> r.message@ == invalid_db_msg(),
{
    if check_db_header(head) {
        ValidationResult { valid: true, message: String::from_str("Database is valid") }
    } else {
        ValidationResult {
            valid: false,
            message: String::from_str("Database file is not a valid SQLite database"),
        }
    }
}

} // verus!
