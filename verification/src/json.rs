//! Deterministic JSON codec for the settings file: an exact serializer and a
//! parser for the settings object, with the round-trip law proved.

use vstd::prelude::*;
use crate::settings::{Settings, SettingsView, default_view};
use crate::text::{
    digit_char, is_digit, digit_val, hex_char, is_hex, hex_val, digit_to_char, hex_to_char,
    char_to_digit, char_to_hex, str_to_chars, chars_to_string, char_from_u32, chars_eq_str,
};

verus! {

// ------------------------------------------------------------------
// Serializer specification
// ------------------------------------------------------------------
/// How one character is written inside a JSON string: quotes and backslashes
/// are escaped, common control characters get their short escapes, the other
/// control characters a `\u00XX` escape, and everything else stands as is.
pub open spec fn esc_char(c: char) -> Seq<char> {
    if c == '"' {
        seq!['\\', '"']
    } else if c == '\\' {
        seq!['\\', '\\']
    } else if c == '\n' {
        seq!['\\', 'n']
    } else if c == '\t' {
        seq!['\\', 't']
    } else if c == '\r' {
        seq!['\\', 'r']
    } else if (c as u32) < 0x20 {
        seq![
            '\\',
            'u',
            '0',
            '0',
            hex_char(((c as u32) / 16) as int),
            hex_char(((c as u32) % 16) as int),
        ]
    } else {
        seq![c]
    }
}

pub open spec fn esc_str(s: Seq<char>) -> Seq<char>
    decreases s.len(),
{
    if s.len() == 0 {
        Seq::empty()
    } else {
        esc_char(s[0]) + esc_str(s.drop_first())
    }
}

/// A quoted, escaped JSON string.
pub open spec fn json_string(s: Seq<char>) -> Seq<char> {
    seq!['"'] + esc_str(s) + seq!['"']
}

/// The decimal digits of a non-negative number, most significant first.
pub open spec fn dec_spec(n: int) -> Seq<char>
    decreases n,
{
    if n < 10 {
        seq![digit_char(n)]
    } else {
        dec_spec(n / 10) + seq![digit_char(n % 10)]
    }
}

pub open spec fn null_lit() -> Seq<char> {
    seq!['n', 'u', 'l', 'l']
}

pub open spec fn true_lit() -> Seq<char> {
    seq!['t', 'r', 'u', 'e']
}

pub open spec fn false_lit() -> Seq<char> {
    seq!['f', 'a', 'l', 's', 'e']
}

/// The serialized settings object: one JSON object with the keys in a fixed
/// order, no inner whitespace.
pub open spec fn ser_settings(v: SettingsView) -> Seq<char> {
    seq!['{'] + json_string("version"@) + seq![':'] + dec_spec(v.version as int) + seq![',']
        + json_string("db_path"@) + seq![':'] + (match v.db_path {
        Some(p) => json_string(p),
        None => null_lit(),
    }) + seq![','] + json_string("theme"@) + seq![':'] + json_string(v.theme) + seq!['}']
}

// ------------------------------------------------------------------
// Serializer implementation
// ------------------------------------------------------------------
proof fn lemma_esc_str_append(a: Seq<char>, b: Seq<char>)
    ensures
        esc_str(a + b) == esc_str(a) + esc_str(b),
    decreases a.len(),
{
    if a.len() == 0 {
        assert(a + b =~= b);
        assert(esc_str(a) + esc_str(b) =~= esc_str(b));
    } else {
        assert((a + b).drop_first() =~= a.drop_first() + b);
        lemma_esc_str_append(a.drop_first(), b);
        assert(esc_char(a[0]) + (esc_str(a.drop_first()) + esc_str(b)) =~= (esc_char(a[0])
            + esc_str(a.drop_first())) + esc_str(b));
        assert((a + b)[0] == a[0]);
    }
}

fn push_dec(out: &mut Vec<char>, n: u32)
    ensures
        final(out)@ == old(out)@ + dec_spec(n as int),
    decreases n,
{
    if n >= 10 {
        push_dec(out, n / 10);
        out.push(digit_to_char((n % 10) as u8));
        proof {
            assert(old(out)@ + dec_spec(n as int) =~= (old(out)@ + dec_spec(n as int / 10)).push(
                digit_char(n as int % 10),
            ));
        }
    } else {
        out.push(digit_to_char(n as u8));
        proof {
            assert(old(out)@ + dec_spec(n as int) =~= old(out)@.push(digit_char(n as int)));
        }
    }
}

fn push_esc_char(out: &mut Vec<char>, c: char)
    ensures
        final(out)@ == old(out)@ + esc_char(c),
{
    if c == '"' {
        out.push('\\');
        out.push('"');
        proof {
            assert(old(out)@ + esc_char(c) =~= old(out)@.push('\\').push('"'));
        }
    } else if c == '\\' {
        out.push('\\');
        out.push('\\');
        proof {
            assert(old(out)@ + esc_char(c) =~= old(out)@.push('\\').push('\\'));
        }
    } else if c == '\n' {
        out.push('\\');
        out.push('n');
        proof {
            assert(old(out)@ + esc_char(c) =~= old(out)@.push('\\').push('n'));
        }
    } else if c == '\t' {
        out.push('\\');
        out.push('t');
        proof {
            assert(old(out)@ + esc_char(c) =~= old(out)@.push('\\').push('t'));
        }
    } else if c == '\r' {
        out.push('\\');
        out.push('r');
        proof {
            assert(old(out)@ + esc_char(c) =~= old(out)@.push('\\').push('r'));
        }
    } else if (c as u32) < 0x20 {
        let n = c as u32;
        out.push('\\');
        out.push('u');
        out.push('0');
        out.push('0');
        out.push(hex_to_char((n / 16) as u8));
        out.push(hex_to_char((n % 16) as u8));
        proof {
            assert(old(out)@ + esc_char(c) =~= old(out)@.push('\\').push('u').push('0').push(
                '0',
            ).push(hex_char((n / 16) as int)).push(hex_char((n % 16) as int)));
        }
    } else {
        out.push(c);
        proof {
            assert(old(out)@ + esc_char(c) =~= old(out)@.push(c));
        }
    }
}

fn push_json_string(out: &mut Vec<char>, s: &str)
    ensures
        final(out)@ == old(out)@ + json_string(s@),
{
    let v = str_to_chars(s);
    out.push('"');
    let mut i: usize = 0;
    while i < v.len()
        invariant
            i <= v.len(),
            v@ == s@,
            out@ == old(out)@.push('"') + esc_str(v@.take(i as int)),
        decreases v.len() - i,
    {
        proof {
            assert(v@.take(i + 1) =~= v@.take(i as int) + seq![v@[i as int]]);
            lemma_esc_str_append(v@.take(i as int), seq![v@[i as int]]);
            assert(esc_str(seq![v@[i as int]]) =~= esc_char(v@[i as int]) + esc_str(
                seq![v@[i as int]].drop_first(),
            ));
            assert(seq![v@[i as int]].drop_first() =~= Seq::<char>::empty());
            assert(esc_char(v@[i as int]) + Seq::<char>::empty() =~= esc_char(v@[i as int]));
        }
        push_esc_char(out, v[i]);
        proof {
            assert(out@ =~= old(out)@.push('"') + esc_str(v@.take(i + 1)));
        }
        i = i + 1;
    }
    out.push('"');
    proof {
        assert(v@.take(v@.len() as int) =~= v@);
        assert(out@ =~= old(out)@ + json_string(s@));
    }
}

fn push_null(out: &mut Vec<char>)
    ensures
        final(out)@ == old(out)@ + null_lit(),
{
    out.push('n');
    out.push('u');
    out.push('l');
    out.push('l');
    proof {
        assert(old(out)@ + null_lit() =~= old(out)@.push('n').push('u').push('l').push('l'));
    }
}

impl Settings {
    /// Serialize this settings value to its canonical JSON text: stable key
    /// order, no inner whitespace, deterministic for a given value.
    pub fn to_json(&self) -> (r: String)
        ensures
            r@ == ser_settings(self@),
    {
        let mut out: Vec<char> = Vec::new();
        out.push('{');
        push_json_string(&mut out, "version");
        out.push(':');
        push_dec(&mut out, self.version);
        out.push(',');
        push_json_string(&mut out, "db_path");
        out.push(':');
        match &self.db_path {
            Some(p) => push_json_string(&mut out, p.as_str()),
            None => push_null(&mut out),
        }
        out.push(',');
        push_json_string(&mut out, "theme");
        out.push(':');
        push_json_string(&mut out, self.theme.as_str());
        out.push('}');
        let r = chars_to_string(&out);
        proof {
            assert(r@ =~= ser_settings(self@));
        }
        r
    }
}

// ------------------------------------------------------------------
// Parser specification
// ------------------------------------------------------------------
pub open spec fn is_ws(c: char) -> bool {
    c == ' ' || c == '\t' || c == '\n' || c == '\r'
}

/// The remainder of `s` after its leading whitespace.
pub open spec fn skip_ws(s: Seq<char>) -> Seq<char>
    decreases s.len(),
{
    if s.len() > 0 && is_ws(s[0]) {
        skip_ws(s.drop_first())
    } else {
        s
    }
}

pub open spec fn cons_parsed(c: char, r: Option<(Seq<char>, Seq<char>)>) -> Option<
    (Seq<char>, Seq<char>),
> {
    match r {
        Some((t, rest)) => Some((seq![c] + t, rest)),
        None => None,
    }
}

pub open spec fn is_scalar_int(n: int) -> bool {
    (0 <= n < 0xD800) || (0xE000 <= n <= 0x10FFFF)
}

/// The body of a JSON string, read after its opening quote: the decoded
/// content and the remainder after the closing quote.
pub open spec fn parse_str_body(s: Seq<char>) -> Option<(Seq<char>, Seq<char>)>
    decreases s.len(),
{
    if s.len() == 0 {
        None
    } else if s[0] == '"' {
        Some((Seq::empty(), s.drop_first()))
    } else if s[0] == '\\' {
        if s.len() < 2 {
            None
        } else {
            let e = s[1];
            if e == '"' {
                cons_parsed('"', parse_str_body(s.skip(2)))
            } else if e == '\\' {
                cons_parsed('\\', parse_str_body(s.skip(2)))
            } else if e == '/' {
                cons_parsed('/', parse_str_body(s.skip(2)))
            } else if e == 'n' {
                cons_parsed('\n', parse_str_body(s.skip(2)))
            } else if e == 't' {
                cons_parsed('\t', parse_str_body(s.skip(2)))
            } else if e == 'r' {
                cons_parsed('\r', parse_str_body(s.skip(2)))
            } else if e == 'b' {
                cons_parsed('\u{8}', parse_str_body(s.skip(2)))
            } else if e == 'f' {
                cons_parsed('\u{c}', parse_str_body(s.skip(2)))
            } else if e == 'u' {
                if s.len() < 6 {
                    None
                } else if is_hex(s[2]) && is_hex(s[3]) && is_hex(s[4]) && is_hex(s[5]) {
                    let code = hex_val(s[2]) * 4096 + hex_val(s[3]) * 256 + hex_val(s[4]) * 16
                        + hex_val(s[5]);
                    if is_scalar_int(code) {
                        cons_parsed(code as char, parse_str_body(s.skip(6)))
                    } else {
                        None
                    }
                } else {
                    None
                }
            } else {
                None
            }
        }
    } else if (s[0] as u32) < 0x20 {
        None
    } else {
        cons_parsed(s[0], parse_str_body(s.drop_first()))
    }
}

/// A quoted JSON string read from the front of `s`.
pub open spec fn parse_string(s: Seq<char>) -> Option<(Seq<char>, Seq<char>)> {
    if s.len() > 0 && s[0] == '"' {
        parse_str_body(s.drop_first())
    } else {
        None
    }
}

pub open spec fn count_digits(s: Seq<char>) -> int
    decreases s.len(),
{
    if s.len() > 0 && is_digit(s[0]) {
        1 + count_digits(s.drop_first())
    } else {
        0
    }
}

/// The value of a sequence of decimal digits, most significant first.
pub open spec fn dec_val(d: Seq<char>) -> int
    decreases d.len(),
{
    if d.len() == 0 {
        0
    } else {
        dec_val(d.drop_last()) * 10 + digit_val(d.last())
    }
}

/// An unsigned number read from the front of `s`, rejected when it does not
/// fit in a `u32`.
pub open spec fn parse_u32(s: Seq<char>) -> Option<(u32, Seq<char>)> {
    let k = count_digits(s);
    if k == 0 {
        None
    } else {
        let v = dec_val(s.take(k));
        if v > u32::MAX as int {
            None
        } else {
            Some((v as u32, s.skip(k)))
        }
    }
}

pub open spec fn starts_with_lit(s: Seq<char>, lit: Seq<char>) -> bool {
    s.len() >= lit.len() && s.take(lit.len() as int) == lit
}

pub open spec fn is_num_char(c: char) -> bool {
    is_digit(c) || c == '-' || c == '+' || c == '.' || c == 'e' || c == 'E'
}

pub open spec fn count_num_chars(s: Seq<char>) -> int
    decreases s.len(),
{
    if s.len() > 0 && is_num_char(s[0]) {
        1 + count_num_chars(s.drop_first())
    } else {
        0
    }
}

/// Skip one scalar JSON value: a string, a literal, or a number token.
pub open spec fn skip_scalar(s: Seq<char>) -> Option<Seq<char>> {
    if s.len() == 0 {
        None
    } else if s[0] == '"' {
        match parse_string(s) {
            Some((t, r)) => Some(r),
            None => None,
        }
    } else if starts_with_lit(s, null_lit()) {
        Some(s.skip(4))
    } else if starts_with_lit(s, true_lit()) {
        Some(s.skip(4))
    } else if starts_with_lit(s, false_lit()) {
        Some(s.skip(5))
    } else if is_num_char(s[0]) {
        Some(s.skip(count_num_chars(s)))
    } else {
        None
    }
}

/// Skip to the end of a composite value already entered: consume characters,
/// strings taken atomically, until the bracket depth returns to zero. The
/// value is ignored, so only string structure and depth are checked, not the
/// full grammar.
pub open spec fn skip_composite(s: Seq<char>, depth: int) -> Option<Seq<char>>
    decreases s.len(),
    via skip_composite_dec
{
    if depth == 0 {
        Some(s)
    } else if s.len() == 0 {
        None
    } else if s[0] == '"' {
        match parse_string(s) {
            Some((t, r)) => skip_composite(r, depth),
            None => None,
        }
    } else if s[0] == '{' || s[0] == '[' {
        skip_composite(s.drop_first(), depth + 1)
    } else if s[0] == '}' || s[0] == ']' {
        skip_composite(s.drop_first(), depth - 1)
    } else {
        skip_composite(s.drop_first(), depth)
    }
}

#[via_fn]
proof fn skip_composite_dec(s: Seq<char>, depth: int) {
    lemma_parse_string_len(s);
}

/// Skip one JSON value of any shape: the value of an unknown key, which
/// load ignores rather than failing on.
pub open spec fn skip_value(s: Seq<char>) -> Option<Seq<char>> {
    if s.len() == 0 {
        None
    } else if s[0] == '{' || s[0] == '[' {
        skip_composite(s.drop_first(), 1)
    } else {
        skip_scalar(s)
    }
}

/// One `"key": value` member read from the front of `s`, folded into the
/// settings gathered so far. Known keys update their field; the value of an
/// unknown key is skipped.
pub open spec fn parse_pair(s: Seq<char>, m: SettingsView) -> Option<(SettingsView, Seq<char>)> {
    match parse_string(s) {
        None => None,
        Some((key, r1)) => {
            let r2 = skip_ws(r1);
            if r2.len() == 0 || r2[0] != ':' {
                None
            } else {
                let r3 = skip_ws(r2.drop_first());
                if key == "version"@ {
                    match parse_u32(r3) {
                        Some((n, r4)) => Some(
                            (SettingsView { version: n, db_path: m.db_path, theme: m.theme }, r4),
                        ),
                        None => None,
                    }
                } else if key == "db_path"@ {
                    if starts_with_lit(r3, null_lit()) {
                        Some(
                            (
                                SettingsView { version: m.version, db_path: None, theme: m.theme },
                                r3.skip(4),
                            ),
                        )
                    } else {
                        match parse_string(r3) {
                            Some((p, r4)) => Some(
                                (
                                    SettingsView {
                                        version: m.version,
                                        db_path: Some(p),
                                        theme: m.theme,
                                    },
                                    r4,
                                ),
                            ),
                            None => None,
                        }
                    }
                } else if key == "theme"@ {
                    match parse_string(r3) {
                        Some((t, r4)) => Some(
                            (
                                SettingsView { version: m.version, db_path: m.db_path, theme: t },
                                r4,
                            ),
                        ),
                        None => None,
                    }
                } else {
                    match skip_value(r3) {
                        Some(r4) => Some((m, r4)),
                        None => None,
                    }
                }
            }
        },
    }
}

// ------------------------------------------------------------------
// Length facts needed for termination and the member loop
// ------------------------------------------------------------------
pub proof fn lemma_skip_ws_len(s: Seq<char>)
    ensures
        skip_ws(s).len() <= s.len(),
    decreases s.len(),
{
    if s.len() > 0 && is_ws(s[0]) {
        lemma_skip_ws_len(s.drop_first());
    }
}

pub proof fn lemma_parse_str_body_len(s: Seq<char>)
    ensures
        parse_str_body(s) matches Some((t, rest)) ==> rest.len() < s.len(),
    decreases s.len(),
{
    if s.len() == 0 {
    } else if s[0] == '"' {
    } else if s[0] == '\\' {
        if s.len() >= 2 {
            lemma_parse_str_body_len(s.skip(2));
            if s.len() >= 6 {
                lemma_parse_str_body_len(s.skip(6));
            }
        }
    } else {
        lemma_parse_str_body_len(s.drop_first());
    }
}

pub proof fn lemma_parse_string_len(s: Seq<char>)
    ensures
        parse_string(s) matches Some((t, rest)) ==> rest.len() < s.len(),
{
    if s.len() > 0 && s[0] == '"' {
        lemma_parse_str_body_len(s.drop_first());
    }
}

pub proof fn lemma_count_digits_le(s: Seq<char>)
    ensures
        0 <= count_digits(s) <= s.len(),
    decreases s.len(),
{
    if s.len() > 0 && is_digit(s[0]) {
        lemma_count_digits_le(s.drop_first());
    }
}

pub proof fn lemma_count_num_chars_le(s: Seq<char>)
    ensures
        0 <= count_num_chars(s) <= s.len(),
    decreases s.len(),
{
    if s.len() > 0 && is_num_char(s[0]) {
        lemma_count_num_chars_le(s.drop_first());
    }
}

pub proof fn lemma_skip_scalar_len(s: Seq<char>)
    ensures
        skip_scalar(s) matches Some(rest) ==> rest.len() < s.len(),
{
    lemma_parse_string_len(s);
    lemma_count_num_chars_le(s);
    if s.len() > 0 && is_num_char(s[0]) {
        lemma_count_num_chars_le(s.drop_first());
    }
}

pub proof fn lemma_skip_composite_len(s: Seq<char>, depth: int)
    ensures
        skip_composite(s, depth) matches Some(rest) ==> rest.len() <= s.len(),
    decreases s.len(),
{
    if depth == 0 {
    } else if s.len() == 0 {
    } else if s[0] == '"' {
        lemma_parse_string_len(s);
        match parse_string(s) {
            Some((t, r)) => {
                lemma_skip_composite_len(r, depth);
            },
            None => {},
        }
    } else if s[0] == '{' || s[0] == '[' {
        lemma_skip_composite_len(s.drop_first(), depth + 1);
    } else if s[0] == '}' || s[0] == ']' {
        lemma_skip_composite_len(s.drop_first(), depth - 1);
    } else {
        lemma_skip_composite_len(s.drop_first(), depth);
    }
}

pub proof fn lemma_skip_value_len(s: Seq<char>)
    ensures
        skip_value(s) matches Some(rest) ==> rest.len() < s.len(),
{
    lemma_skip_scalar_len(s);
    if s.len() > 0 && (s[0] == '{' || s[0] == '[') {
        lemma_skip_composite_len(s.drop_first(), 1);
    }
}

pub proof fn lemma_parse_pair_len(s: Seq<char>, m: SettingsView)
    ensures
        parse_pair(s, m) matches Some((m2, rest)) ==> rest.len() < s.len(),
{
    lemma_parse_string_len(s);
    match parse_string(s) {
        Some((key, r1)) => {
            lemma_skip_ws_len(r1);
            let r2 = skip_ws(r1);
            if r2.len() > 0 && r2[0] == ':' {
                lemma_skip_ws_len(r2.drop_first());
                let r3 = skip_ws(r2.drop_first());
                lemma_count_digits_le(r3);
                lemma_parse_string_len(r3);
                lemma_skip_value_len(r3);
            }
        },
        None => {},
    }
}

/// The members of the settings object, read after its opening brace (or
/// after a comma when `can_close` is false: JSON allows no trailing comma).
pub open spec fn parse_members(s: Seq<char>, m: SettingsView, can_close: bool) -> Option<
    (SettingsView, Seq<char>),
>
    decreases s.len(),
    via parse_members_dec
{
    let r = skip_ws(s);
    if r.len() == 0 {
        None
    } else if can_close && r[0] == '}' {
        Some((m, r.drop_first()))
    } else {
        match parse_pair(r, m) {
            None => None,
            Some((m2, r2)) => {
                let r3 = skip_ws(r2);
                if r3.len() == 0 {
                    None
                } else if r3[0] == ',' {
                    parse_members(r3.drop_first(), m2, false)
                } else if r3[0] == '}' {
                    Some((m2, r3.drop_first()))
                } else {
                    None
                }
            },
        }
    }
}

#[via_fn]
proof fn parse_members_dec(s: Seq<char>, m: SettingsView, can_close: bool) {
    lemma_skip_ws_len(s);
    let r = skip_ws(s);
    lemma_parse_pair_len(r, m);
    match parse_pair(r, m) {
        Some((m2, r2)) => {
            lemma_skip_ws_len(r2);
        },
        None => {},
    }
}

/// The whole settings document: optional whitespace, one object, optional
/// whitespace, end of input. Fields that the object leaves out keep their
/// defaults; an unknown key is ignored.
pub open spec fn parse_settings_spec(s: Seq<char>) -> Option<SettingsView> {
    let r = skip_ws(s);
    if r.len() == 0 || r[0] != '{' {
        None
    } else {
        match parse_members(r.drop_first(), default_view(), true) {
            Some((m, rest)) => if skip_ws(rest).len() == 0 {
                Some(m)
            } else {
                None
            },
            None => None,
        }
    }
}

// ------------------------------------------------------------------
// Parser implementation
// ------------------------------------------------------------------
fn is_ws_char(c: char) -> (r: bool)
    ensures
        r == is_ws(c),
{
    c == ' ' || c == '\t' || c == '\n' || c == '\r'
}

/// Advance past whitespace, mirroring `skip_ws` on the suffix at `start`.
fn skip_ws_at(v: &Vec<char>, start: usize) -> (j: usize)
    requires
        start <= v.len(),
    ensures
        start <= j <= v@.len(),
        v@.skip(j as int) == skip_ws(v@.skip(start as int)),
{
    let mut i: usize = start;
    while i < v.len() && is_ws_char(v[i])
        invariant
            start <= i <= v@.len(),
            skip_ws(v@.skip(start as int)) == skip_ws(v@.skip(i as int)),
        decreases v@.len() - i,
    {
        proof {
            assert(v@.skip(i as int)[0] == v@[i as int]);
            assert(v@.skip(i as int).drop_first() =~= v@.skip(i + 1));
        }
        i = i + 1;
    }
    proof {
        if i < v@.len() {
            assert(v@.skip(i as int)[0] == v@[i as int]);
        }
        assert(skip_ws(v@.skip(i as int)) == v@.skip(i as int));
    }
    i
}

/// The loop invariant of `scan_str_body`: what the whole body parse returns,
/// given what remains to be parsed and what is already decoded.
pub open spec fn body_inv(
    orig: Option<(Seq<char>, Seq<char>)>,
    acc: Seq<char>,
    cur: Option<(Seq<char>, Seq<char>)>,
) -> bool {
    match cur {
        Some((t, rest)) => orig == Some((acc + t, rest)),
        None => orig is None,
    }
}

proof fn lemma_body_inv_step(
    orig: Option<(Seq<char>, Seq<char>)>,
    acc: Seq<char>,
    c: char,
    next: Option<(Seq<char>, Seq<char>)>,
)
    requires
        body_inv(orig, acc, cons_parsed(c, next)),
    ensures
        body_inv(orig, acc.push(c), next),
{
    match next {
        Some((t, rest)) => {
            assert(acc + (seq![c] + t) =~= acc.push(c) + t);
        },
        None => {},
    }
}

/// Decode a JSON string body starting after the opening quote at `start`.
fn scan_str_body(v: &Vec<char>, start: usize) -> (r: Option<(Vec<char>, usize)>)
    requires
        start <= v.len(),
    ensures
        match r {
            Some((t, j)) => start <= j <= v@.len() && parse_str_body(v@.skip(start as int))
                == Some((t@, v@.skip(j as int))),
            None => parse_str_body(v@.skip(start as int)) is None,
        },
{
    let mut acc: Vec<char> = Vec::new();
    let mut i: usize = start;
    loop
        invariant
            start <= i <= v@.len(),
            body_inv(
                parse_str_body(v@.skip(start as int)),
                acc@,
                parse_str_body(v@.skip(i as int)),
            ),
        decreases v@.len() - i,
    {
        if i == v.len() {
            return None;
        }
        let c = v[i];
        proof {
            assert(v@.skip(i as int)[0] == v@[i as int]);
            assert(v@.skip(i as int).drop_first() =~= v@.skip(i + 1));
        }
        if c == '"' {
            proof {
                assert(parse_str_body(v@.skip(i as int)) == Some(
                    (Seq::<char>::empty(), v@.skip(i + 1)),
                ));
                assert(acc@ + Seq::<char>::empty() =~= acc@);
            }
            return Some((acc, i + 1));
        } else if c == '\\' {
            if i + 1 == v.len() {
                proof {
                    assert(v@.skip(i as int).len() < 2);
                }
                return None;
            }
            let e = v[i + 1];
            proof {
                assert(v@.skip(i as int)[1] == v@[i + 1]);
                assert(v@.skip(i as int).skip(2) =~= v@.skip(i + 2));
            }
            if e == 'u' {
                if v.len() - i < 6 {
                    proof {
                        assert(v@.skip(i as int).len() < 6);
                    }
                    return None;
                }
                proof {
                    assert(v@.skip(i as int)[2] == v@[i + 2]);
                    assert(v@.skip(i as int)[3] == v@[i + 3]);
                    assert(v@.skip(i as int)[4] == v@[i + 4]);
                    assert(v@.skip(i as int)[5] == v@[i + 5]);
                    assert(v@.skip(i as int).skip(6) =~= v@.skip(i + 6));
                }
                let h2 = v[i + 2];
                let h3 = v[i + 3];
                let h4 = v[i + 4];
                let h5 = v[i + 5];
                if !(is_hex_char(h2) && is_hex_char(h3) && is_hex_char(h4) && is_hex_char(h5)) {
                    return None;
                }
                let code: u32 = (char_to_hex(h2) as u32) * 4096 + (char_to_hex(h3) as u32) * 256
                    + (char_to_hex(h4) as u32) * 16 + (char_to_hex(h5) as u32);
                let ghost code_int = hex_val(v@[i + 2]) * 4096 + hex_val(v@[i + 3]) * 256 + hex_val(
                    v@[i + 4],
                ) * 16 + hex_val(v@[i + 5]);
                proof {
                    assert(code as int == code_int);
                }
                if !(code < 0xD800 || code >= 0xE000) {
                    proof {
                        assert(!is_scalar_int(code_int));
                    }
                    return None;
                }
                proof {
                    assert(is_scalar_int(code_int));
                }
                let decoded = match char_from_u32(code) {
                    Some(d) => d,
                    None => {
                        proof {
                            assert(false);
                        }
                        '0'
                    },
                };
                proof {
                    assert(decoded as u32 == code);
                    vstd::utf8::char_u32_cast(decoded, code);
                    assert((code_int as char) == decoded);
                    lemma_body_inv_step(
                        parse_str_body(v@.skip(start as int)),
                        acc@,
                        decoded,
                        parse_str_body(v@.skip(i + 6)),
                    );
                }
                acc.push(decoded);
                i = i + 6;
            } else {
                let decoded: Option<char> = match e {
                    '"' => Some('"'),
                    '\\' => Some('\\'),
                    '/' => Some('/'),
                    'n' => Some('\n'),
                    't' => Some('\t'),
                    'r' => Some('\r'),
                    'b' => Some('\u{8}'),
                    'f' => Some('\u{c}'),
                    _ => None,
                };
                match decoded {
                    Some(d) => {
                        proof {
                            assert(parse_str_body(v@.skip(i as int)) == cons_parsed(
                                d,
                                parse_str_body(v@.skip(i + 2)),
                            ));
                            lemma_body_inv_step(
                                parse_str_body(v@.skip(start as int)),
                                acc@,
                                d,
                                parse_str_body(v@.skip(i + 2)),
                            );
                        }
                        acc.push(d);
                        i = i + 2;
                    },
                    None => {
                        return None;
                    },
                }
            }
        } else if (c as u32) < 0x20 {
            return None;
        } else {
            proof {
                lemma_body_inv_step(
                    parse_str_body(v@.skip(start as int)),
                    acc@,
                    c,
                    parse_str_body(v@.skip(i + 1)),
                );
            }
            acc.push(c);
            i = i + 1;
        }
    }
}

fn is_hex_char(c: char) -> (r: bool)
    ensures
        r == is_hex(c),
{
    (c >= '0' && c <= '9') || (c >= 'a' && c <= 'f') || (c >= 'A' && c <= 'F')
}

/// Read a quoted JSON string starting at `start`.
fn parse_string_at(v: &Vec<char>, start: usize) -> (r: Option<(Vec<char>, usize)>)
    requires
        start <= v.len(),
    ensures
        match r {
            Some((t, j)) => start <= j <= v@.len() && parse_string(v@.skip(start as int)) == Some(
                (t@, v@.skip(j as int)),
            ),
            None => parse_string(v@.skip(start as int)) is None,
        },
{
    if start == v.len() || v[start] != '"' {
        proof {
            if start < v@.len() {
                assert(v@.skip(start as int)[0] == v@[start as int]);
            }
        }
        return None;
    }
    proof {
        assert(v@.skip(start as int)[0] == v@[start as int]);
        assert(v@.skip(start as int).drop_first() =~= v@.skip(start + 1));
    }
    scan_str_body(v, start + 1)
}

// ------------------------------------------------------------------
// Number parsing
// ------------------------------------------------------------------
fn is_digit_char(c: char) -> (r: bool)
    ensures
        r == is_digit(c),
{
    c >= '0' && c <= '9'
}

fn is_num_char_exec(c: char) -> (r: bool)
    ensures
        r == is_num_char(c),
{
    is_digit_char(c) || c == '-' || c == '+' || c == '.' || c == 'e' || c == 'E'
}

/// Every character counted by `count_digits` is a digit.
proof fn lemma_count_digits_digits(s: Seq<char>)
    ensures
        0 <= count_digits(s) <= s.len(),
        forall|k: int| 0 <= k < count_digits(s) ==> is_digit(s[k]),
    decreases s.len(),
{
    if s.len() > 0 && is_digit(s[0]) {
        lemma_count_digits_digits(s.drop_first());
        assert forall|k: int| 0 <= k < count_digits(s) implies is_digit(s[k]) by {
            if k > 0 {
                assert(s.drop_first()[k - 1] == s[k]);
            }
        }
    }
}

proof fn lemma_dec_val_nonneg(d: Seq<char>)
    requires
        forall|k: int| 0 <= k < d.len() ==> is_digit(d[k]),
    ensures
        dec_val(d) >= 0,
    decreases d.len(),
{
    if d.len() > 0 {
        assert(forall|k: int| 0 <= k < d.drop_last().len() ==> is_digit(d.drop_last()[k]));
        lemma_dec_val_nonneg(d.drop_last());
        assert(is_digit(d.last()));
    }
}

/// The value of a digit string only grows as more digits are read.
proof fn lemma_dec_val_prefix_le(d: Seq<char>, l: int)
    requires
        0 <= l <= d.len(),
        forall|k: int| 0 <= k < d.len() ==> is_digit(d[k]),
    ensures
        dec_val(d.take(l)) <= dec_val(d),
    decreases d.len() - l,
{
    if l == d.len() {
        assert(d.take(l) =~= d);
    } else {
        assert(d.drop_last().take(l) =~= d.take(l));
        assert(forall|k: int| 0 <= k < d.drop_last().len() ==> is_digit(d.drop_last()[k]));
        lemma_dec_val_prefix_le(d.drop_last(), l);
        lemma_dec_val_nonneg(d.drop_last());
        assert(is_digit(d.last()));
        assert(dec_val(d) == dec_val(d.drop_last()) * 10 + digit_val(d.last()));
        assert(dec_val(d.drop_last()) * 10 >= dec_val(d.drop_last()));
    }
}

/// Read an unsigned decimal number at `start`, mirroring `parse_u32`.
fn parse_u32_at(v: &Vec<char>, start: usize) -> (r: Option<(u32, usize)>)
    requires
        start <= v.len(),
    ensures
        match r {
            Some((n, j)) => start <= j <= v@.len() && parse_u32(v@.skip(start as int)) == Some(
                (n, v@.skip(j as int)),
            ),
            None => parse_u32(v@.skip(start as int)) is None,
        },
{
    let ghost s = v@.skip(start as int);
    // First find where the digits end.
    let mut j: usize = start;
    while j < v.len() && is_digit_char(v[j])
        invariant
            start <= j <= v@.len(),
            count_digits(v@.skip(start as int)) == (j - start) + count_digits(v@.skip(j as int)),
        decreases v@.len() - j,
    {
        proof {
            assert(v@.skip(j as int)[0] == v@[j as int]);
            assert(v@.skip(j as int).drop_first() =~= v@.skip(j + 1));
        }
        j = j + 1;
    }
    proof {
        if j < v@.len() {
            assert(v@.skip(j as int)[0] == v@[j as int]);
        }
        assert(count_digits(v@.skip(j as int)) == 0);
        assert(count_digits(s) == j - start);
    }
    if j == start {
        return None;
    }
    let ghost k = count_digits(s);
    let ghost digs = s.take(k);
    proof {
        lemma_count_digits_digits(s);
        assert forall|t: int| 0 <= t < digs.len() implies is_digit(digs[t]) by {
            assert(digs[t] == s[t]);
        }
    }
    // Then accumulate the value, rejecting overflow.
    let mut acc: u32 = 0;
    let mut i: usize = start;
    while i < j
        invariant
            start <= i <= j <= v@.len(),
            k == j - start,
            digs == s.take(k),
            s == v@.skip(start as int),
            forall|t: int| 0 <= t < digs.len() ==> is_digit(digs[t]),
            k == count_digits(s),
            acc as int == dec_val(digs.take(i - start)),
        decreases j - i,
    {
        let c = v[i];
        proof {
            assert(digs[i - start] == v@[i as int]);
            assert(digs.take(i - start + 1).drop_last() =~= digs.take(i - start));
            assert(digs.take(i - start + 1).last() == v@[i as int]);
        }
        let d = char_to_digit(c);
        if acc > 429496729 || (acc == 429496729 && d > 5) {
            proof {
                assert(dec_val(digs.take(i - start + 1)) > u32::MAX as int);
                lemma_dec_val_prefix_le(digs, i - start + 1);
                assert(digs.take(digs.len() as int) =~= digs);
                assert(dec_val(digs) > u32::MAX as int);
            }
            return None;
        }
        acc = acc * 10 + (d as u32);
        i = i + 1;
    }
    proof {
        assert(digs.take(k) =~= digs);
        assert(acc as int == dec_val(s.take(k)));
        assert(v@.skip(j as int) =~= s.skip(k));
    }
    Some((acc, j))
}

// ------------------------------------------------------------------
// Skipping the scalar value of an unknown key
// ------------------------------------------------------------------
fn starts_with_at(v: &Vec<char>, start: usize, pat: &Vec<char>) -> (r: bool)
    requires
        start <= v.len(),
    ensures
        r == starts_with_lit(v@.skip(start as int), pat@),
{
    if v.len() - start < pat.len() {
        return false;
    }
    let mut i: usize = 0;
    while i < pat.len()
        invariant
            0 <= i <= pat@.len(),
            start + pat@.len() <= v@.len(),
            v@.len() <= usize::MAX,
            forall|t: int| 0 <= t < i ==> v@.skip(start as int)[t] == pat@[t],
        decreases pat@.len() - i,
    {
        proof {
            assert(start + i < v@.len());
        }
        if v[start + i] != pat[i] {
            proof {
                assert(v@.skip(start as int)[i as int] == v@[start + i]);
                if starts_with_lit(v@.skip(start as int), pat@) {
                    assert(v@.skip(start as int).take(pat@.len() as int)[i as int] == pat@[i as int]);
                }
            }
            return false;
        }
        proof {
            assert(v@.skip(start as int)[i as int] == v@[start + i]);
        }
        i = i + 1;
    }
    proof {
        assert(v@.skip(start as int).take(pat@.len() as int) =~= pat@);
    }
    true
}

fn null_chars() -> (r: Vec<char>)
    ensures
        r@ == null_lit(),
{
    let mut p: Vec<char> = Vec::new();
    p.push('n');
    p.push('u');
    p.push('l');
    p.push('l');
    proof {
        assert(p@ =~= null_lit());
    }
    p
}

fn true_chars() -> (r: Vec<char>)
    ensures
        r@ == true_lit(),
{
    let mut p: Vec<char> = Vec::new();
    p.push('t');
    p.push('r');
    p.push('u');
    p.push('e');
    proof {
        assert(p@ =~= true_lit());
    }
    p
}

fn false_chars() -> (r: Vec<char>)
    ensures
        r@ == false_lit(),
{
    let mut p: Vec<char> = Vec::new();
    p.push('f');
    p.push('a');
    p.push('l');
    p.push('s');
    p.push('e');
    proof {
        assert(p@ =~= false_lit());
    }
    p
}

/// Skip one scalar JSON value at `start`, mirroring `skip_scalar`.
fn skip_scalar_at(v: &Vec<char>, start: usize) -> (r: Option<usize>)
    requires
        start <= v.len(),
    ensures
        match r {
            Some(j) => start <= j <= v@.len() && skip_scalar(v@.skip(start as int)) == Some(
                v@.skip(j as int),
            ),
            None => skip_scalar(v@.skip(start as int)) is None,
        },
{
    let ghost s = v@.skip(start as int);
    if start == v.len() {
        return None;
    }
    proof {
        assert(s[0] == v@[start as int]);
    }
    let c = v[start];
    if c == '"' {
        match parse_string_at(v, start) {
            Some((t, j)) => {
                return Some(j);
            },
            None => {
                return None;
            },
        }
    }
    if starts_with_at(v, start, &null_chars()) {
        proof {
            assert(s.skip(4) =~= v@.skip(start + 4));
        }
        return Some(start + 4);
    }
    if starts_with_at(v, start, &true_chars()) {
        proof {
            assert(s.skip(4) =~= v@.skip(start + 4));
        }
        return Some(start + 4);
    }
    if starts_with_at(v, start, &false_chars()) {
        proof {
            assert(s.skip(5) =~= v@.skip(start + 5));
        }
        return Some(start + 5);
    }
    if is_num_char_exec(c) {
        let mut j: usize = start;
        while j < v.len() && is_num_char_exec(v[j])
            invariant
                start <= j <= v@.len(),
                count_num_chars(v@.skip(start as int)) == (j - start) + count_num_chars(
                    v@.skip(j as int),
                ),
            decreases v@.len() - j,
        {
            proof {
                assert(v@.skip(j as int)[0] == v@[j as int]);
                assert(v@.skip(j as int).drop_first() =~= v@.skip(j + 1));
            }
            j = j + 1;
        }
        proof {
            if j < v@.len() {
                assert(v@.skip(j as int)[0] == v@[j as int]);
            }
            assert(count_num_chars(v@.skip(j as int)) == 0);
            assert(s.skip(count_num_chars(s)) =~= v@.skip(j as int));
        }
        return Some(j);
    }
    None
}

/// Skip one JSON value of any shape at `start`, mirroring `skip_value`.
fn skip_value_at(v: &Vec<char>, start: usize) -> (r: Option<usize>)
    requires
        start <= v.len(),
    ensures
        match r {
            Some(j) => start <= j <= v@.len() && skip_value(v@.skip(start as int)) == Some(
                v@.skip(j as int),
            ),
            None => skip_value(v@.skip(start as int)) is None,
        },
{
    if start == v.len() {
        return None;
    }
    proof {
        assert(v@.skip(start as int)[0] == v@[start as int]);
    }
    let c = v[start];
    if !(c == '{' || c == '[') {
        return skip_scalar_at(v, start);
    }
    proof {
        assert(v@.skip(start as int).drop_first() =~= v@.skip(start + 1));
    }
    let mut i: usize = start + 1;
    let mut depth: usize = 1;
    loop
        invariant
            start + 1 <= i <= v@.len(),
            1 <= depth <= i - start,
            skip_value(v@.skip(start as int)) == skip_composite(v@.skip(start + 1), 1),
            skip_composite(v@.skip(start + 1), 1) == skip_composite(v@.skip(i as int), depth as int),
        decreases v@.len() - i,
    {
        if i == v.len() {
            return None;
        }
        proof {
            assert(v@.skip(i as int)[0] == v@[i as int]);
            assert(v@.skip(i as int).drop_first() =~= v@.skip(i + 1));
        }
        let ci = v[i];
        if ci == '"' {
            match parse_string_at(v, i) {
                Some((t, j)) => {
                    proof {
                        lemma_parse_string_len(v@.skip(i as int));
                        assert(v@.skip(j as int).len() < v@.skip(i as int).len());
                    }
                    i = j;
                },
                None => {
                    return None;
                },
            }
        } else if ci == '{' || ci == '[' {
            depth = depth + 1;
            i = i + 1;
        } else if ci == '}' || ci == ']' {
            depth = depth - 1;
            i = i + 1;
            if depth == 0 {
                proof {
                    assert(skip_composite(v@.skip(i as int), 0) == Some(v@.skip(i as int)));
                }
                return Some(i);
            }
        } else {
            i = i + 1;
        }
    }
}

// ------------------------------------------------------------------
// Members and the whole document
// ------------------------------------------------------------------
/// Read one `"key": value` member at `start`, mirroring `parse_pair`.
fn parse_pair_at(v: &Vec<char>, start: usize, m: Settings) -> (r: Option<(Settings, usize)>)
    requires
        start <= v.len(),
    ensures
        match r {
            Some((sm, j)) => start <= j <= v@.len() && parse_pair(v@.skip(start as int), m@)
                == Some((sm@, v@.skip(j as int))),
            None => parse_pair(v@.skip(start as int), m@) is None,
        },
{
    let ghost s = v@.skip(start as int);
    let key_j = match parse_string_at(v, start) {
        Some(kj) => kj,
        None => {
            return None;
        },
    };
    let key = key_j.0;
    let j1 = key_j.1;
    let j2 = skip_ws_at(v, j1);
    if j2 == v.len() || v[j2] != ':' {
        proof {
            if j2 < v@.len() {
                assert(v@.skip(j2 as int)[0] == v@[j2 as int]);
            }
        }
        return None;
    }
    proof {
        assert(v@.skip(j2 as int)[0] == v@[j2 as int]);
        assert(v@.skip(j2 as int).drop_first() =~= v@.skip(j2 + 1));
    }
    let j3 = skip_ws_at(v, j2 + 1);
    let ghost r3 = v@.skip(j3 as int);
    if chars_eq_str(&key, "version") {
        match parse_u32_at(v, j3) {
            Some((n, j4)) => {
                let sm = Settings { version: n, db_path: m.db_path, theme: m.theme };
                proof {
                    assert(sm@ =~= (SettingsView {
                        version: n,
                        db_path: m@.db_path,
                        theme: m@.theme,
                    }));
                }
                Some((sm, j4))
            },
            None => None,
        }
    } else if chars_eq_str(&key, "db_path") {
        if starts_with_at(v, j3, &null_chars()) {
            proof {
                assert(r3.skip(4) =~= v@.skip(j3 + 4));
            }
            let sm = Settings { version: m.version, db_path: None, theme: m.theme };
            proof {
                assert(sm@ =~= (SettingsView {
                    version: m@.version,
                    db_path: None,
                    theme: m@.theme,
                }));
            }
            Some((sm, j3 + 4))
        } else {
            match parse_string_at(v, j3) {
                Some((p, j4)) => {
                    let ps = chars_to_string(&p);
                    let sm = Settings { version: m.version, db_path: Some(ps), theme: m.theme };
                    proof {
                        assert(sm@ =~= (SettingsView {
                            version: m@.version,
                            db_path: Some(p@),
                            theme: m@.theme,
                        }));
                    }
                    Some((sm, j4))
                },
                None => None,
            }
        }
    } else if chars_eq_str(&key, "theme") {
        match parse_string_at(v, j3) {
            Some((t, j4)) => {
                let ts = chars_to_string(&t);
                let sm = Settings { version: m.version, db_path: m.db_path, theme: ts };
                proof {
                    assert(sm@ =~= (SettingsView {
                        version: m@.version,
                        db_path: m@.db_path,
                        theme: t@,
                    }));
                }
                Some((sm, j4))
            },
            None => None,
        }
    } else {
        match skip_value_at(v, j3) {
            Some(j4) => Some((m, j4)),
            None => None,
        }
    }
}

/// Parse the canonical settings document, mirroring `parse_settings_spec`:
/// None exactly on text that the settings grammar refuses.
pub fn parse_settings(text: &str) -> (r: Option<Settings>)
    ensures
        match parse_settings_spec(text@) {
            Some(m) => r matches Some(st) && st@ == m,
            None => r is None,
        },
{
    let v = str_to_chars(text);
    proof {
        assert(v@.skip(0) =~= v@);
    }
    let i0 = skip_ws_at(&v, 0);
    if i0 == v.len() || v[i0] != '{' {
        proof {
            if i0 < v@.len() {
                assert(v@.skip(i0 as int)[0] == v@[i0 as int]);
            }
        }
        return None;
    }
    proof {
        assert(v@.skip(i0 as int)[0] == v@[i0 as int]);
        assert(v@.skip(i0 as int).drop_first() =~= v@.skip(i0 + 1));
    }
    let ghost start_members = v@.skip(i0 + 1);
    let mut m = Settings::default();
    let mut i: usize = i0 + 1;
    let mut can_close = true;
    loop
        invariant
            i <= v@.len(),
            v@ == text@,
            parse_members(start_members, default_view(), true) == parse_members(
                v@.skip(i as int),
                m@,
                can_close,
            ),
            parse_settings_spec(text@) == (match parse_members(
                start_members,
                default_view(),
                true,
            ) {
                Some((mm, rest)) => if skip_ws(rest).len() == 0 {
                    Some(mm)
                } else {
                    None
                },
                None => None,
            }),
        decreases v@.len() - i,
    {
        let j = skip_ws_at(&v, i);
        let ghost rr = v@.skip(j as int);
        proof {
            lemma_skip_ws_len(v@.skip(i as int));
        }
        if j == v.len() {
            return None;
        }
        proof {
            assert(rr[0] == v@[j as int]);
            assert(rr.drop_first() =~= v@.skip(j + 1));
        }
        if can_close && v[j] == '}' {
            let rest_j = skip_ws_at(&v, j + 1);
            if rest_j == v.len() {
                proof {
                    assert(skip_ws(v@.skip(j + 1)).len() == 0);
                }
                return Some(m);
            } else {
                proof {
                    assert(skip_ws(v@.skip(j + 1)).len() > 0);
                }
                return None;
            }
        }
        let m2_j2 = match parse_pair_at(&v, j, m) {
            Some(x) => x,
            None => {
                return None;
            },
        };
        let m2 = m2_j2.0;
        let j2 = m2_j2.1;
        proof {
            lemma_parse_pair_len(rr, m2_j2.0@);
        }
        let j3 = skip_ws_at(&v, j2);
        let ghost r3 = v@.skip(j3 as int);
        proof {
            lemma_skip_ws_len(v@.skip(j2 as int));
        }
        if j3 == v.len() {
            return None;
        }
        proof {
            assert(r3[0] == v@[j3 as int]);
            assert(r3.drop_first() =~= v@.skip(j3 + 1));
        }
        if v[j3] == ',' {
            m = m2;
            i = j3 + 1;
            can_close = false;
        } else if v[j3] == '}' {
            let rest_j = skip_ws_at(&v, j3 + 1);
            if rest_j == v.len() {
                proof {
                    assert(skip_ws(v@.skip(j3 + 1)).len() == 0);
                }
                return Some(m2);
            } else {
                proof {
                    assert(skip_ws(v@.skip(j3 + 1)).len() > 0);
                }
                return None;
            }
        } else {
            return None;
        }
    }
}

// ------------------------------------------------------------------
// The round-trip law: parsing a serialized settings value gives it back
// ------------------------------------------------------------------
proof fn lemma_hex_char_props(d: int)
    requires
        0 <= d < 16,
    ensures
        is_hex(hex_char(d)),
        hex_val(hex_char(d)) == d,
{
}

proof fn lemma_digit_char_props(d: int)
    requires
        0 <= d < 10,
    ensures
        is_digit(digit_char(d)),
        digit_val(digit_char(d)) == d,
{
}

/// Decoding a string body undoes escaping: the body parser, fed the escaped
/// text, the closing quote and anything after it, returns the original text.
proof fn lemma_parse_str_body_of_escaped(t: Seq<char>, rest: Seq<char>)
    ensures
        parse_str_body(esc_str(t) + seq!['"'] + rest) == Some((t, rest)),
    decreases t.len(),
{
    let s = esc_str(t) + seq!['"'] + rest;
    if t.len() == 0 {
        assert(s =~= seq!['"'] + rest);
        assert(s[0] == '"');
        assert(s.drop_first() =~= rest);
        assert(parse_str_body(s) == Some((Seq::<char>::empty(), rest)));
        assert(t =~= Seq::<char>::empty());
    } else {
        let c = t[0];
        let tail = t.drop_first();
        let inner = esc_str(tail) + seq!['"'] + rest;
        lemma_parse_str_body_of_escaped(tail, rest);
        assert(s =~= esc_char(c) + inner);
        assert(seq![c] + tail =~= t);
        if c == '"' {
            assert(s =~= seq!['\\', '"'] + inner);
            assert(s[0] == '\\' && s[1] == '"' && s.len() >= 2);
            assert(s.skip(2) =~= inner);
            assert(parse_str_body(s) == cons_parsed('"', parse_str_body(inner)));
        } else if c == '\\' {
            assert(s =~= seq!['\\', '\\'] + inner);
            assert(s[0] == '\\' && s[1] == '\\' && s.len() >= 2);
            assert(s.skip(2) =~= inner);
            assert(parse_str_body(s) == cons_parsed('\\', parse_str_body(inner)));
        } else if c == '\n' {
            assert(s =~= seq!['\\', 'n'] + inner);
            assert(s[0] == '\\' && s[1] == 'n' && s.len() >= 2);
            assert(s.skip(2) =~= inner);
            assert(parse_str_body(s) == cons_parsed('\n', parse_str_body(inner)));
        } else if c == '\t' {
            assert(s =~= seq!['\\', 't'] + inner);
            assert(s[0] == '\\' && s[1] == 't' && s.len() >= 2);
            assert(s.skip(2) =~= inner);
            assert(parse_str_body(s) == cons_parsed('\t', parse_str_body(inner)));
        } else if c == '\r' {
            assert(s =~= seq!['\\', 'r'] + inner);
            assert(s[0] == '\\' && s[1] == 'r' && s.len() >= 2);
            assert(s.skip(2) =~= inner);
            assert(parse_str_body(s) == cons_parsed('\r', parse_str_body(inner)));
        } else if (c as u32) < 0x20 {
            let hi = ((c as u32) / 16) as int;
            let lo = ((c as u32) % 16) as int;
            assert(s =~= seq!['\\', 'u', '0', '0', hex_char(hi), hex_char(lo)] + inner);
            assert(s[0] == '\\' && s[1] == 'u' && s.len() >= 6);
            assert(s[2] == '0' && s[3] == '0' && s[4] == hex_char(hi) && s[5] == hex_char(lo));
            lemma_hex_char_props(hi);
            lemma_hex_char_props(lo);
            assert(is_hex('0') && hex_val('0') == 0);
            let code = hex_val(s[2]) * 4096 + hex_val(s[3]) * 256 + hex_val(s[4]) * 16 + hex_val(
                s[5],
            );
            assert(code == hi * 16 + lo);
            vstd::arithmetic::div_mod::lemma_fundamental_div_mod(c as u32 as int, 16);
            assert(code == c as u32);
            assert(is_scalar_int(code));
            vstd::utf8::char_u32_cast(c, c as u32);
            assert((code as char) == c);
            assert(s.skip(6) =~= inner);
            assert(parse_str_body(s) == cons_parsed(c, parse_str_body(inner)));
        } else {
            assert(esc_char(c) =~= seq![c]);
            assert(s =~= seq![c] + inner);
            assert(s[0] == c);
            assert(s[0] != '"' && s[0] != '\\' && !((s[0] as u32) < 0x20));
            assert(s.drop_first() =~= inner);
            assert(parse_str_body(s) == cons_parsed(c, parse_str_body(inner)));
        }
    }
}

/// A quoted, escaped string followed by anything parses back to the
/// original string.
proof fn lemma_parse_string_of_json_string(t: Seq<char>, rest: Seq<char>)
    ensures
        parse_string(json_string(t) + rest) == Some((t, rest)),
{
    let s = json_string(t) + rest;
    assert(s =~= seq!['"'] + (esc_str(t) + seq!['"'] + rest));
    assert(s[0] == '"');
    assert(s.len() > 0);
    assert(s.drop_first() =~= esc_str(t) + seq!['"'] + rest);
    lemma_parse_str_body_of_escaped(t, rest);
}

proof fn lemma_dec_spec_digits(n: int)
    requires
        n >= 0,
    ensures
        dec_spec(n).len() >= 1,
        forall|k: int| 0 <= k < dec_spec(n).len() ==> is_digit(dec_spec(n)[k]),
    decreases n,
{
    if n < 10 {
        lemma_digit_char_props(n);
    } else {
        lemma_dec_spec_digits(n / 10);
        lemma_digit_char_props(n % 10);
        assert forall|k: int| 0 <= k < dec_spec(n).len() implies is_digit(dec_spec(n)[k]) by {
            if k < dec_spec(n / 10).len() {
                assert(dec_spec(n)[k] == dec_spec(n / 10)[k]);
            } else {
                assert(dec_spec(n)[k] == digit_char(n % 10));
            }
        }
    }
}

proof fn lemma_count_digits_concat(d: Seq<char>, rest: Seq<char>)
    requires
        forall|k: int| 0 <= k < d.len() ==> is_digit(d[k]),
        rest.len() == 0 || !is_digit(rest[0]),
    ensures
        count_digits(d + rest) == d.len(),
    decreases d.len(),
{
    if d.len() == 0 {
        assert(d + rest =~= rest);
    } else {
        assert((d + rest)[0] == d[0]);
        assert((d + rest).drop_first() =~= d.drop_first() + rest);
        assert(forall|k: int| 0 <= k < d.drop_first().len() ==> is_digit(d.drop_first()[k]));
        lemma_count_digits_concat(d.drop_first(), rest);
    }
}

proof fn lemma_dec_val_of_dec_spec(n: int)
    requires
        n >= 0,
    ensures
        dec_val(dec_spec(n)) == n,
    decreases n,
{
    if n < 10 {
        lemma_digit_char_props(n);
        assert(dec_spec(n).drop_last() =~= Seq::<char>::empty());
        assert(dec_spec(n).last() == digit_char(n));
        assert(dec_val(dec_spec(n)) == dec_val(Seq::<char>::empty()) * 10 + digit_val(
            digit_char(n),
        ));
        assert(dec_val(Seq::<char>::empty()) == 0);
    } else {
        lemma_dec_val_of_dec_spec(n / 10);
        lemma_digit_char_props(n % 10);
        assert(dec_spec(n).drop_last() =~= dec_spec(n / 10));
        assert(dec_spec(n).last() == digit_char(n % 10));
        vstd::arithmetic::div_mod::lemma_fundamental_div_mod(n, 10);
    }
}

/// A serialized number followed by a non-digit parses back to its value.
proof fn lemma_parse_u32_of_dec(n: int, rest: Seq<char>)
    requires
        0 <= n <= u32::MAX as int,
        rest.len() == 0 || !is_digit(rest[0]),
    ensures
        parse_u32(dec_spec(n) + rest) == Some((n as u32, rest)),
{
    let d = dec_spec(n);
    let s = d + rest;
    lemma_dec_spec_digits(n);
    lemma_count_digits_concat(d, rest);
    assert(count_digits(s) == d.len());
    assert(s.take(d.len() as int) =~= d);
    lemma_dec_val_of_dec_spec(n);
    assert(s.skip(d.len() as int) =~= rest);
}

/// Reading the "version" member from the front of the input.
proof fn lemma_pair_version(n: int, rest: Seq<char>, m: SettingsView)
    requires
        0 <= n <= u32::MAX as int,
        rest.len() > 0,
        !is_digit(rest[0]),
    ensures
        parse_pair(json_string("version"@) + seq![':'] + dec_spec(n) + rest, m) == Some(
            (SettingsView { version: n as u32, db_path: m.db_path, theme: m.theme }, rest),
        ),
{
    let s = json_string("version"@) + seq![':'] + dec_spec(n) + rest;
    let rest1 = seq![':'] + dec_spec(n) + rest;
    assert(s =~= json_string("version"@) + rest1);
    lemma_parse_string_of_json_string("version"@, rest1);
    assert(rest1[0] == ':');
    assert(!is_ws(rest1[0]));
    assert(skip_ws(rest1) == rest1);
    let r3 = dec_spec(n) + rest;
    assert(rest1.drop_first() =~= r3);
    lemma_dec_spec_digits(n);
    assert(r3[0] == dec_spec(n)[0]);
    assert(is_digit(r3[0]));
    assert(!is_ws(r3[0]));
    assert(skip_ws(r3) == r3);
    lemma_parse_u32_of_dec(n, rest);
}

/// Reading the "db_path" member: either a string or null.
proof fn lemma_pair_db_path(p: Option<Seq<char>>, rest: Seq<char>, m: SettingsView)
    requires
        rest.len() > 0,
    ensures
        parse_pair(
            json_string("db_path"@) + seq![':'] + (match p {
                Some(q) => json_string(q),
                None => null_lit(),
            }) + rest,
            m,
        ) == Some((SettingsView { version: m.version, db_path: p, theme: m.theme }, rest)),
{
    reveal_strlit("version");
    reveal_strlit("db_path");
    let pv = match p {
        Some(q) => json_string(q),
        None => null_lit(),
    };
    let s = json_string("db_path"@) + seq![':'] + pv + rest;
    let rest1 = seq![':'] + pv + rest;
    assert(s =~= json_string("db_path"@) + rest1);
    lemma_parse_string_of_json_string("db_path"@, rest1);
    assert(("db_path"@)[0] == 'd' && ("version"@)[0] == 'v');
    assert("db_path"@ != "version"@);
    assert(rest1[0] == ':');
    assert(!is_ws(rest1[0]));
    assert(skip_ws(rest1) == rest1);
    let r3 = pv + rest;
    assert(rest1.drop_first() =~= r3);
    match p {
        Some(q) => {
            assert(r3[0] == pv[0]);
            assert(pv[0] == '"');
            assert(!is_ws(r3[0]));
            assert(skip_ws(r3) == r3);
            if starts_with_lit(r3, null_lit()) {
                assert(r3.take(4)[0] == r3[0]);
                assert(false);
            }
            lemma_parse_string_of_json_string(q, rest);
        },
        None => {
            assert(r3[0] == 'n');
            assert(!is_ws(r3[0]));
            assert(skip_ws(r3) == r3);
            assert(r3.take(4) =~= null_lit());
            assert(starts_with_lit(r3, null_lit()));
            assert(r3.skip(4) =~= rest);
        },
    }
}

/// Reading the "theme" member.
proof fn lemma_pair_theme(t: Seq<char>, rest: Seq<char>, m: SettingsView)
    ensures
        parse_pair(json_string("theme"@) + seq![':'] + json_string(t) + rest, m) == Some(
            (SettingsView { version: m.version, db_path: m.db_path, theme: t }, rest),
        ),
{
    reveal_strlit("version");
    reveal_strlit("db_path");
    reveal_strlit("theme");
    let s = json_string("theme"@) + seq![':'] + json_string(t) + rest;
    let rest1 = seq![':'] + json_string(t) + rest;
    assert(s =~= json_string("theme"@) + rest1);
    lemma_parse_string_of_json_string("theme"@, rest1);
    assert(("theme"@).len() == 5 && ("version"@).len() == 7 && ("db_path"@).len() == 7);
    assert("theme"@ != "version"@ && "theme"@ != "db_path"@);
    assert(rest1[0] == ':');
    assert(!is_ws(rest1[0]));
    assert(skip_ws(rest1) == rest1);
    let r3 = json_string(t) + rest;
    assert(rest1.drop_first() =~= r3);
    lemma_parse_string_of_json_string(t, rest);
}

/// The round-trip law: parsing the canonical serialization of any settings
/// value yields exactly that value.
#[verifier::rlimit(100)]
pub proof fn lemma_settings_roundtrip(m: SettingsView)
    ensures
        parse_settings_spec(ser_settings(m)) == Some(m),
{
    let kv = json_string("version"@);
    let kd = json_string("db_path"@);
    let kt = json_string("theme"@);
    let d = dec_spec(m.version as int);
    let pv = match m.db_path {
        Some(p) => json_string(p),
        None => null_lit(),
    };
    let tv = json_string(m.theme);
    let s = ser_settings(m);

    // Peel the opening brace.
    let tail3 = kt + seq![':'] + tv + seq!['}'];
    let tail2 = kd + seq![':'] + pv + (seq![','] + tail3);
    let tail1 = kv + seq![':'] + d + (seq![','] + tail2);
    assert(s =~= seq!['{'] + tail1);
    assert(s[0] == '{');
    assert(!is_ws(s[0]));
    assert(skip_ws(s) == s);
    assert(s.drop_first() =~= tail1);

    // First member.
    assert(tail1[0] == '"');
    assert(!is_ws(tail1[0]));
    assert(skip_ws(tail1) == tail1);
    assert(tail1[0] != '}');
    let restA = seq![','] + tail2;
    assert(restA[0] == ',');
    lemma_pair_version(m.version as int, restA, default_view());
    let m1 = SettingsView {
        version: m.version,
        db_path: default_view().db_path,
        theme: default_view().theme,
    };
    assert(parse_pair(tail1, default_view()) == Some((m1, restA)));
    assert(!is_ws(restA[0]));
    assert(skip_ws(restA) == restA);
    assert(restA.drop_first() =~= tail2);

    // Second member.
    assert(tail2[0] == '"');
    assert(!is_ws(tail2[0]));
    assert(skip_ws(tail2) == tail2);
    assert(tail2[0] != '}');
    let restB = seq![','] + tail3;
    assert(restB[0] == ',');
    lemma_pair_db_path(m.db_path, restB, m1);
    let m2 = SettingsView { version: m.version, db_path: m.db_path, theme: m1.theme };
    assert(parse_pair(tail2, m1) == Some((m2, restB)));
    assert(!is_ws(restB[0]));
    assert(skip_ws(restB) == restB);
    assert(restB.drop_first() =~= tail3);

    // Third member.
    assert(tail3[0] == '"');
    assert(!is_ws(tail3[0]));
    assert(skip_ws(tail3) == tail3);
    assert(tail3[0] != '}');
    let restC = seq!['}'];
    assert(tail3 =~= kt + seq![':'] + tv + restC);
    lemma_pair_theme(m.theme, restC, m2);
    let m3 = SettingsView { version: m.version, db_path: m.db_path, theme: m.theme };
    assert(parse_pair(tail3, m2) == Some((m3, restC)));

    // Closing brace and end of input.
    assert(restC[0] == '}');
    assert(!is_ws(restC[0]));
    assert(skip_ws(restC) == restC);
    assert(restC.drop_first() =~= Seq::<char>::empty());
    assert(parse_members(tail3, m2, false) == Some((m3, Seq::<char>::empty())));
    assert(parse_members(tail2, m1, false) == Some((m3, Seq::<char>::empty())));
    assert(parse_members(tail1, default_view(), true) == Some((m3, Seq::<char>::empty())));
    assert(skip_ws(Seq::<char>::empty()).len() == 0);
    assert(m3 =~= m);
    assert(parse_settings_spec(s) == Some(m3));
}

} // verus!
