//! Backup support: the prechecks mirroring the validator, the UTC timestamp
//! derived from an epoch second count, and the timestamped destination name
//! for a backup copy. The backup is additive only: nothing here deletes or
//! rotates anything.

use vstd::prelude::*;
use vstd::string::StringExecFns;
use vstd::arithmetic::div_mod::lemma_fundamental_div_mod;
use crate::text::{digit_char, digit_to_char, chars_to_string, push_str_chars};
use crate::validate::{empty_path_msg, not_exist_msg};

verus! {

/// Result of one backup call: never an error, always an outcome.
pub struct BackupResult {
    pub success: bool,
    pub backup_path: Option<String>,
    pub message: String,
}

/// Steps one and two of a backup: an empty path and a missing source file
/// short-circuit to a failed outcome with no filesystem mutation; `None`
/// means the caller may go on and copy.
pub fn backup_precheck(path: &str, exists: bool) -> (r: Option<BackupResult>)
    ensures
        path@.len() == 0 ==> (r matches Some(b) && !b.success && b.backup_path is None
            && b.message@ == empty_path_msg()),
        path@.len() > 0 && !exists ==> (r matches Some(b) && !b.success && b.backup_path is None
            && b.message@ == not_exist_msg(path@)),
        path@.len() > 0 && exists ==> r is None,
{
    if path.is_empty() {
        Some(
            BackupResult {
                success: false,
                backup_path: None,
                message: String::from_str("Database path is empty"),
            },
        )
    } else if !exists {
        let mut m = String::from_str("Database file does not exist: ");
        m.append(path);
        Some(BackupResult { success: false, backup_path: None, message: m })
    } else {
        None
    }
}

// ------------------------------------------------------------------
// Civil time from an epoch second count
// ------------------------------------------------------------------
pub open spec fn is_leap(y: int) -> bool {
    y % 4 == 0 && (y % 100 != 0 || y % 400 == 0)
}

pub open spec fn days_in_year(y: int) -> int {
    if is_leap(y) {
        366
    } else {
        365
    }
}

pub open spec fn days_in_month(y: int, m: int) -> int {
    if m == 2 {
        if is_leap(y) {
            29
        } else {
            28
        }
    } else if m == 4 || m == 6 || m == 9 || m == 11 {
        30
    } else {
        31
    }
}

/// Days from the epoch date up to the first day of year `y`.
pub open spec fn days_before_year(y: int) -> int
    decreases y,
{
    if y <= 1970 {
        0
    } else {
        days_before_year(y - 1) + days_in_year(y - 1)
    }
}

/// Days from the first of January up to the first day of month `m`.
pub open spec fn days_before_month(y: int, m: int) -> int
    decreases m,
{
    if m <= 1 {
        0
    } else {
        days_before_month(y, m - 1) + days_in_month(y, m - 1)
    }
}

/// The day number of a civil date, counted from the epoch date.
pub open spec fn days_from_civil(y: int, m: int, d: int) -> int {
    days_before_year(y) + days_before_month(y, m) + (d - 1)
}

/// A broken-down UTC instant.
pub struct Timestamp {
    pub year: u32,
    pub month: u32,
    pub day: u32,
    pub hour: u32,
    pub minute: u32,
    pub second: u32,
}

pub open spec fn ts_wf(t: Timestamp) -> bool {
    &&& 1970 <= t.year < 10000
    &&& 1 <= t.month <= 12
    &&& 1 <= t.day <= days_in_month(t.year as int, t.month as int)
    &&& t.hour < 24
    &&& t.minute < 60
    &&& t.second < 60
}

/// The instant a timestamp denotes, in seconds from the epoch.
pub open spec fn ts_epoch_secs(t: Timestamp) -> int {
    days_from_civil(t.year as int, t.month as int, t.day as int) * 86400 + t.hour * 3600
        + t.minute * 60 + t.second
}

/// Second counts below this bound stay within four-digit years.
pub const MAX_TIMESTAMP_SECS: u64 = 2930950 * 86400;

proof fn lemma_dby_lower(y: int)
    requires
        y >= 1970,
    ensures
        days_before_year(y) >= (y - 1970) * 365,
    decreases y,
{
    if y > 1970 {
        lemma_dby_lower(y - 1);
    }
}

proof fn lemma_dbm_full(y: int)
    ensures
        days_before_month(y, 13) == days_in_year(y),
{
    assert(days_before_month(y, 1) == 0);
    assert(days_before_month(y, 2) == days_before_month(y, 1) + days_in_month(y, 1));
    assert(days_before_month(y, 3) == days_before_month(y, 2) + days_in_month(y, 2));
    assert(days_before_month(y, 4) == days_before_month(y, 3) + 31);
    assert(days_before_month(y, 5) == days_before_month(y, 4) + 30);
    assert(days_before_month(y, 6) == days_before_month(y, 5) + 31);
    assert(days_before_month(y, 7) == days_before_month(y, 6) + 30);
    assert(days_before_month(y, 8) == days_before_month(y, 7) + 31);
    assert(days_before_month(y, 9) == days_before_month(y, 8) + 31);
    assert(days_before_month(y, 10) == days_before_month(y, 9) + 30);
    assert(days_before_month(y, 11) == days_before_month(y, 10) + 31);
    assert(days_before_month(y, 12) == days_before_month(y, 11) + 30);
    assert(days_before_month(y, 13) == days_before_month(y, 12) + 31);
}

fn is_leap_exec(y: u32) -> (r: bool)
    ensures
        r == is_leap(y as int),
{
    y % 4 == 0 && (y % 100 != 0 || y % 400 == 0)
}

fn days_in_year_exec(y: u32) -> (r: u64)
    ensures
        r == days_in_year(y as int),
{
    if is_leap_exec(y) {
        366
    } else {
        365
    }
}

fn days_in_month_exec(y: u32, m: u32) -> (r: u64)
    ensures
        r == days_in_month(y as int, m as int),
{
    if m == 2 {
        if is_leap_exec(y) {
            29
        } else {
            28
        }
    } else if m == 4 || m == 6 || m == 9 || m == 11 {
        30
    } else {
        31
    }
}

/// Convert a second count to the UTC instant it denotes.
pub fn timestamp_from_secs(secs: u64) -> (t: Timestamp)
    requires
        secs < MAX_TIMESTAMP_SECS,
    ensures
        ts_wf(t),
        ts_epoch_secs(t) == secs as int,
{
    let days: u64 = secs / 86400;
    let rem: u64 = secs % 86400;
    proof {
        lemma_fundamental_div_mod(secs as int, 86400);
        assert(days < 2930950) by (nonlinear_arith)
            requires
                secs < 2930950u64 * 86400,
                days == secs as int / 86400,
        ;
    }
    let hour: u32 = (rem / 3600) as u32;
    let m3: u64 = rem % 3600;
    let minute: u32 = (m3 / 60) as u32;
    let second: u32 = (m3 % 60) as u32;
    proof {
        lemma_fundamental_div_mod(rem as int, 3600);
        lemma_fundamental_div_mod(m3 as int, 60);
        assert(hour < 24) by (nonlinear_arith)
            requires
                rem < 86400,
                hour == rem as int / 3600,
        ;
        assert(rem as int == hour * 3600 + minute * 60 + second);
    }
    let mut y: u32 = 1970;
    let mut dleft: u64 = days;
    while dleft >= days_in_year_exec(y)
        invariant
            1970 <= y,
            y < 10000,
            days < 2930950,
            days_before_year(y as int) + dleft == days,
        decreases dleft,
    {
        let diy = days_in_year_exec(y);
        proof {
            assert(days_before_year(y as int + 1) == days_before_year(y as int) + days_in_year(
                y as int,
            ));
            lemma_dby_lower(y as int + 1);
            assert((y as int + 1 - 1970) * 365 <= days_before_year(y as int + 1));
            assert(days_before_year(y as int + 1) <= days);
            assert((y as int + 1 - 1970) * 365 < 2930950);
            assert(y as int + 1 < 10000) by (nonlinear_arith)
                requires
                    (y as int + 1 - 1970) * 365 < 2930950,
            ;
        }
        dleft = dleft - diy;
        y = y + 1;
    }
    let ghost year_rem = dleft as int;
    proof {
        assert(dleft < days_in_year(y as int));
    }
    let mut mo: u32 = 1;
    while dleft >= days_in_month_exec(y, mo)
        invariant
            1 <= mo <= 13,
            y < 10000,
            days_before_month(y as int, mo as int) + dleft == year_rem,
            year_rem < days_in_year(y as int),
        decreases dleft,
    {
        let dim = days_in_month_exec(y, mo);
        proof {
            assert(days_before_month(y as int, mo as int + 1) == days_before_month(
                y as int,
                mo as int,
            ) + days_in_month(y as int, mo as int));
            if mo >= 12 {
                lemma_dbm_full(y as int);
                if mo == 12 {
                    assert(days_before_month(y as int, 13) <= year_rem);
                } else {
                    assert(days_before_month(y as int, 13) <= days_before_month(y as int, mo as int));
                }
                assert(false);
            }
        }
        dleft = dleft - dim;
        mo = mo + 1;
    }
    proof {
        assert(dleft < days_in_month(y as int, mo as int));
        if mo == 13 {
            lemma_dbm_full(y as int);
            assert(false);
        }
    }
    let day: u32 = (dleft + 1) as u32;
    let t = Timestamp { year: y, month: mo, day, hour, minute, second };
    proof {
        assert(days_from_civil(y as int, mo as int, day as int) == days);
        assert(ts_epoch_secs(t) == days * 86400 + rem) by (nonlinear_arith)
            requires
                ts_epoch_secs(t) == days_from_civil(t.year as int, t.month as int, t.day as int)
                    * 86400 + t.hour * 3600 + t.minute * 60 + t.second,
                days_from_civil(t.year as int, t.month as int, t.day as int) == days,
                rem as int == t.hour * 3600 + t.minute * 60 + t.second,
        ;
        assert(secs as int == days * 86400 + rem);
    }
    t
}

// ------------------------------------------------------------------
// The backup destination name
// ------------------------------------------------------------------
pub open spec fn pad2(n: int) -> Seq<char> {
    seq![digit_char((n / 10) % 10), digit_char(n % 10)]
}

pub open spec fn pad4(n: int) -> Seq<char> {
    seq![
        digit_char((n / 1000) % 10),
        digit_char((n / 100) % 10),
        digit_char((n / 10) % 10),
        digit_char(n % 10),
    ]
}

/// The timestamp text `YYYYMMDD_HHMMSS`.
pub open spec fn ts_text(t: Timestamp) -> Seq<char> {
    pad4(t.year as int) + pad2(t.month as int) + pad2(t.day as int) + seq!['_'] + pad2(
        t.hour as int,
    ) + pad2(t.minute as int) + pad2(t.second as int)
}

fn push_pad2(out: &mut Vec<char>, n: u32)
    requires
        n < 100,
    ensures
        final(out)@ == old(out)@ + pad2(n as int),
{
    out.push(digit_to_char(((n / 10) % 10) as u8));
    out.push(digit_to_char((n % 10) as u8));
    proof {
        assert(old(out)@ + pad2(n as int) =~= old(out)@.push(
            digit_char((n as int / 10) % 10),
        ).push(digit_char(n as int % 10)));
    }
}

fn push_pad4(out: &mut Vec<char>, n: u32)
    requires
        n < 10000,
    ensures
        final(out)@ == old(out)@ + pad4(n as int),
{
    out.push(digit_to_char(((n / 1000) % 10) as u8));
    out.push(digit_to_char(((n / 100) % 10) as u8));
    out.push(digit_to_char(((n / 10) % 10) as u8));
    out.push(digit_to_char((n % 10) as u8));
    proof {
        assert(old(out)@ + pad4(n as int) =~= old(out)@.push(
            digit_char((n as int / 1000) % 10),
        ).push(digit_char((n as int / 100) % 10)).push(digit_char((n as int / 10) % 10)).push(
            digit_char(n as int % 10),
        ));
    }
}

/// The backup file name: `<source-name>_<YYYYMMDD_HHMMSS>.bak`.
pub open spec fn backup_name_spec(name: Seq<char>, t: Timestamp) -> Seq<char> {
    name + seq!['_'] + ts_text(t) + ".bak"@
}

pub fn backup_file_name(source_name: &str, t: &Timestamp) -> (r: String)
    requires
        ts_wf(*t),
    ensures
        r@ == backup_name_spec(source_name@, *t),
{
    let mut out: Vec<char> = Vec::new();
    push_str_chars(&mut out, source_name);
    out.push('_');
    push_pad4(&mut out, t.year);
    push_pad2(&mut out, t.month);
    push_pad2(&mut out, t.day);
    out.push('_');
    push_pad2(&mut out, t.hour);
    push_pad2(&mut out, t.minute);
    push_pad2(&mut out, t.second);
    push_str_chars(&mut out, ".bak");
    let r = chars_to_string(&out);
    proof {
        assert(r@ =~= backup_name_spec(source_name@, *t));
    }
    r
}

pub open spec fn is_sep(c: char) -> bool {
    c == '/' || c == '\\'
}

/// The file-name component of a path: what stands after the last separator.
pub open spec fn file_name_spec(p: Seq<char>) -> Seq<char>
    decreases p.len(),
{
    if p.len() == 0 {
        p
    } else if is_sep(p.last()) {
        Seq::empty()
    } else {
        file_name_spec(p.drop_last()).push(p.last())
    }
}

proof fn lemma_file_name_suffix(p: Seq<char>, j: int)
    requires
        0 <= j <= p.len(),
        forall|k: int| j <= k < p.len() ==> !is_sep(p[k]),
        j == 0 || is_sep(p[j - 1]),
    ensures
        file_name_spec(p) == p.subrange(j, p.len() as int),
    decreases p.len(),
{
    if p.len() == j {
        if j == 0 {
            assert(p.subrange(0, 0) =~= p);
        } else {
            assert(is_sep(p.last()));
            assert(p.subrange(j, p.len() as int) =~= Seq::<char>::empty());
        }
    } else {
        assert(!is_sep(p.last()));
        assert(forall|k: int| j <= k < p.drop_last().len() ==> p.drop_last()[k] == p[k]);
        if j > 0 {
            assert(p.drop_last()[j - 1] == p[j - 1]);
        }
        lemma_file_name_suffix(p.drop_last(), j);
        assert(p.drop_last().subrange(j, p.drop_last().len() as int).push(p.last()) =~= p.subrange(
            j,
            p.len() as int,
        ));
    }
}

fn is_sep_char(c: char) -> (r: bool)
    ensures
        r == is_sep(c),
{
    c == '/' || c == '\\'
}

/// The file name of a path, after the last path separator.
pub fn file_name_of(path: &str) -> (r: String)
    ensures
        r@ == file_name_spec(path@),
{
    let v = crate::text::str_to_chars(path);
    let mut j: usize = v.len();
    while j > 0 && !is_sep_char(v[j - 1])
        invariant
            0 <= j <= v@.len(),
            v@ == path@,
            forall|k: int| j <= k < v@.len() ==> !is_sep(v@[k]),
        decreases j,
    {
        j = j - 1;
    }
    let mut out: Vec<char> = Vec::new();
    let mut i: usize = j;
    while i < v.len()
        invariant
            j <= i <= v@.len(),
            out@ == v@.subrange(j as int, i as int),
        decreases v@.len() - i,
    {
        out.push(v[i]);
        proof {
            assert(v@.subrange(j as int, i + 1) =~= v@.subrange(j as int, i as int).push(
                v@[i as int],
            ));
        }
        i = i + 1;
    }
    proof {
        lemma_file_name_suffix(v@, j as int);
    }
    chars_to_string(&out)
}

/// The application's backups directory below a given data directory.
pub open spec fn backup_rel_dir() -> Seq<char> {
    "/RefForge/backups"@
}

pub fn backup_dir_in(dir: &str) -> (r: String)
    ensures
        r@ == dir@ + backup_rel_dir(),
{
    let mut s = String::from_str(dir);
    s.append("/RefForge/backups");
    s
}

/// The full destination path for a backup of `source_path` taken at `t`:
/// the backups directory, a separator, and the timestamped file name.
pub fn backup_dest_path(backup_dir: &str, source_path: &str, t: &Timestamp) -> (r: String)
    requires
        ts_wf(*t),
    ensures
        r@ == backup_dir@ + seq!['/'] + backup_name_spec(file_name_spec(source_path@), *t),
{
    let name = file_name_of(source_path);
    let bn = backup_file_name(name.as_str(), t);
    let mut s = String::from_str(backup_dir);
    s.append("/");
    s.append(bn.as_str());
    proof {
        reveal_strlit("/");
        assert(("/"@) =~= seq!['/']);
        assert(s@ =~= backup_dir@ + seq!['/'] + backup_name_spec(file_name_spec(source_path@), *t));
    }
    s
}

pub open spec fn backup_ok_msg() -> Seq<char> {
    "Backup created successfully"@
}

pub open spec fn copy_fail_msg(e: Seq<char>) -> Seq<char> {
    "Failed to copy database file: "@ + e
}

/// The outcome of the copy step, as a result object: a successful copy
/// reports the destination it wrote; a failed one carries the error text and
/// no path.
pub fn backup_outcome(dest: String, copy_error: Option<&str>) -> (r: BackupResult)
    ensures
        match copy_error {
            None => r.success && (r.backup_path matches Some(bp) && bp@ == dest@) && r.message@
                == backup_ok_msg(),
            Some(e) => !r.success && r.backup_path is None && r.message@ == copy_fail_msg(e@),
        },
{
    match copy_error {
        None => BackupResult {
            success: true,
            backup_path: Some(dest),
            message: String::from_str("Backup created successfully"),
        },
        Some(e) => {
            let mut m = String::from_str("Failed to copy database file: ");
            m.append(e);
            BackupResult { success: false, backup_path: None, message: m }
        },
    }
}

} // verus!
