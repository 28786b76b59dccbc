//! The calls this library makes into other crates and into parts of std that
//! carry no specification, each behind a small function whose contract is
//! taken on trust.
use vstd::prelude::*;
use vstd::utf8::is_ascii_chars;

verus! {

/// The character `c` with `A`..`Z` mapped to `a`..`z`.
pub open spec fn ascii_lower_char(c: char) -> char {
    if 'A' <= c <= 'Z' {
        ((c as u32) + 32) as char
    } else {
        c
    }
}

/// `s` with its ASCII capitals made small.
pub open spec fn ascii_lowercase(s: Seq<char>) -> Seq<char> {
    s.map_values(|c: char| ascii_lower_char(c))
}

/// What `unicase::eq` answers for the two texts: whether they are equal once
/// case is folded away.
pub uninterp spec fn unicase_eq(a: Seq<char>, b: Seq<char>) -> bool;

/// Whether two keys are the same key: equal when case is ignored, in the
/// sense of `unicase::eq`.
pub open spec fn same_key(a: Seq<char>, b: Seq<char>) -> bool {
    a == b || unicase_eq(a, b)
}

/// Calls `unicase::eq(a, b)`, which compares `UniCase::new(a)` with
/// `UniCase::new(b)`. Claimed of it: the answer is `unicase_eq(a, b)`; it does
/// not depend on the order of the arguments; equal texts are the same; and
/// when both texts are ASCII, it tells whether they agree once `A`..`Z` are
/// lowered (the crate then uses `str::eq_ignore_ascii_case`). Since the crate
/// compares the case-folded forms of the two texts, a third text that is the
/// same as one of them is the same as the other exactly when the two are the
/// same (stated for every third text, on either side). Which non-ASCII texts
/// fold alike follows Unicode case folding tables and is not stated.
#[verifier::external_body]
pub(crate) fn same_ignoring_case(a: &str, b: &str) -> (res: bool)
    ensures
        res == unicase_eq(a@, b@),
        res == unicase_eq(b@, a@),
        a@ == b@ ==> res,
        forall|c: Seq<char>| #[trigger] unicase_eq(c, b@) ==> (unicase_eq(c, a@) == res),
        forall|c: Seq<char>| #[trigger] unicase_eq(b@, c) ==> (unicase_eq(a@, c) == res),
        is_ascii_chars(a@) && is_ascii_chars(b@) ==> (res == (ascii_lowercase(a@)
            == ascii_lowercase(b@))),
{
    unicase::eq(a, b)
}

/// The digit for `d` (below 16) in lowercase hexadecimal.
pub open spec fn hex_digit(d: u32) -> char {
    if d < 10 {
        ((d + 48) as u32) as char
    } else {
        ((d + 87) as u32) as char
    }
}

/// How `serde_json` writes the character `c` inside a JSON string.
pub open spec fn json_escaped_char(c: char) -> Seq<char> {
    if c == '"' {
        seq!['\\', '"']
    } else if c == '\\' {
        seq!['\\', '\\']
    } else if c == '\u{8}' {
        seq!['\\', 'b']
    } else if c == '\t' {
        seq!['\\', 't']
    } else if c == '\n' {
        seq!['\\', 'n']
    } else if c == '\u{c}' {
        seq!['\\', 'f']
    } else if c == '\r' {
        seq!['\\', 'r']
    } else if (c as u32) < 0x20 {
        seq!['\\', 'u', '0', '0', hex_digit((c as u32) / 16), hex_digit((c as u32) % 16)]
    } else {
        seq![c]
    }
}

/// The characters of `s`, each written as in a JSON string.
pub open spec fn json_escaped(s: Seq<char>) -> Seq<char>
    decreases s.len(),
{
    if s.len() == 0 {
        Seq::<char>::empty()
    } else {
        json_escaped_char(s[0]) + json_escaped(s.skip(1))
    }
}

/// `s` written as a JSON string, quotes included.
pub open spec fn json_quoted(s: Seq<char>) -> Seq<char> {
    seq!['"'] + json_escaped(s) + seq!['"']
}

/// Calls `serde_json::to_string` on the text `s`. Claimed of it: the result is
/// `s` between double quotes, with `"` and `\` preceded by a backslash, the
/// control characters backspace, tab, line feed, form feed and carriage return
/// written `\b \t \n \f \r`, the other characters below U+0020 written
/// `\u00XX` in lowercase hexadecimal, and every other character kept as it is
/// (the escape table of `serde_json`'s string writer). Serialising a `str`
/// into memory cannot fail.
#[verifier::external_body]
pub(crate) fn json_string(s: &str) -> (res: String)
    ensures
        res@ == json_quoted(s@),
{
    serde_json::to_string(s).unwrap()
}

/// What `format!("{:?}", s)` writes for the text `s`.
pub uninterp spec fn debug_str(s: Seq<char>) -> Seq<char>;

/// Calls std's `Debug` formatting of a `str` (`format!("{:?}", s)`), which
/// quotes the text and escapes characters in a way that depends on Unicode
/// tables. Claimed of it: the result is `debug_str(s)`, a function of `s` alone;
/// what that text is is not stated.
#[verifier::external_body]
pub(crate) fn debug_quoted(s: &str) -> (res: String)
    ensures
        res@ == debug_str(s@),
{
    format!("{:?}", s)
}

} // verus!
