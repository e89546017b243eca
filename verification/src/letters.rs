//! Upper and lower case, and which characters are letters.
//!
//! ASCII is decided here; for any other character Unicode's tables, as the
//! standard library has them, are asked.

use vstd::prelude::*;

use crate::text::{chars_of, text_of};

verus! {

// ── Trusted items of std ─────────────────────────────────────────────────────

/// What `str::to_lowercase` returns.
pub uninterp spec fn unicode_lowercase(s: Seq<char>) -> Seq<char>;

/// What `char::to_uppercase` yields, as one text.
pub uninterp spec fn unicode_uppercase(c: char) -> Seq<char>;

/// What `char::is_alphabetic` returns.
pub uninterp spec fn unicode_alphabetic(c: char) -> bool;

/// What `char::is_alphanumeric` returns.
pub uninterp spec fn unicode_alphanumeric(c: char) -> bool;

/// What `char::is_uppercase` returns.
pub uninterp spec fn unicode_is_uppercase(c: char) -> bool;

/// `str::to_lowercase`: the result depends on the text alone.
#[verifier::external_body]
fn std_lowercase(s: &str) -> (r: String)
    ensures
        r@ == unicode_lowercase(s@),
{
    s.to_lowercase()
}

/// `char::to_uppercase`: what it yields depends on the character alone.
#[verifier::external_body]
fn std_uppercase(c: char) -> (r: Vec<char>)
    ensures
        r@ == unicode_uppercase(c),
{
    c.to_uppercase().collect()
}

/// `char::is_alphabetic`: the answer depends on the character alone.
#[verifier::external_body]
fn std_alphabetic(c: char) -> (r: bool)
    ensures
        r == unicode_alphabetic(c),
{
    c.is_alphabetic()
}

/// `char::is_alphanumeric`: the answer depends on the character alone.
#[verifier::external_body]
fn std_alphanumeric(c: char) -> (r: bool)
    ensures
        r == unicode_alphanumeric(c),
{
    c.is_alphanumeric()
}

/// `char::is_uppercase`: the answer depends on the character alone.
#[verifier::external_body]
fn std_is_uppercase(c: char) -> (r: bool)
    ensures
        r == unicode_is_uppercase(c),
{
    c.is_uppercase()
}

// ── ASCII ────────────────────────────────────────────────────────────────────

/// Whether `c` is an ASCII character.
pub open spec fn is_ascii_char(c: char) -> bool {
    c <= '\u{7f}'
}

/// Whether `s` holds ASCII characters only.
pub open spec fn is_ascii(s: Seq<char>) -> bool {
    forall|i: int| 0 <= i < s.len() ==> is_ascii_char(#[trigger] s[i])
}

/// An ASCII character in lower case.
pub open spec fn ascii_lower(c: char) -> char {
    if 'A' <= c <= 'Z' {
        (c as u32 + 32) as char
    } else {
        c
    }
}

/// An ASCII character in upper case.
pub open spec fn ascii_upper(c: char) -> char {
    if 'a' <= c <= 'z' {
        (c as u32 - 32) as char
    } else {
        c
    }
}

/// Whether `c` is an ASCII letter.
pub open spec fn is_ascii_letter(c: char) -> bool {
    'A' <= c <= 'Z' || 'a' <= c <= 'z'
}

fn ascii(c: char) -> (r: bool)
    ensures
        r == is_ascii_char(c),
{
    c <= '\u{7f}'
}

fn to_ascii_lower(c: char) -> (r: char)
    ensures
        r == ascii_lower(c),
{
    if 'A' <= c && c <= 'Z' {
        (c as u8 + 32u8) as char
    } else {
        c
    }
}

fn to_ascii_upper(c: char) -> (r: char)
    ensures
        r == ascii_upper(c),
{
    if 'a' <= c && c <= 'z' {
        (c as u8 - 32u8) as char
    } else {
        c
    }
}

// ── Any text ─────────────────────────────────────────────────────────────────

/// `s` in lower case.
pub open spec fn lowered(s: Seq<char>) -> Seq<char> {
    if is_ascii(s) {
        s.map_values(|c: char| ascii_lower(c))
    } else {
        unicode_lowercase(s)
    }
}

/// `c` in upper case, which may be more than one character.
pub open spec fn uppered(c: char) -> Seq<char> {
    if is_ascii_char(c) {
        seq![ascii_upper(c)]
    } else {
        unicode_uppercase(c)
    }
}

/// Whether `c` is a letter.
pub open spec fn is_letter(c: char) -> bool {
    if is_ascii_char(c) {
        is_ascii_letter(c)
    } else {
        unicode_alphabetic(c)
    }
}

/// Whether `c` is a letter or a number.
pub open spec fn is_letter_or_number(c: char) -> bool {
    if is_ascii_char(c) {
        is_ascii_letter(c) || '0' <= c <= '9'
    } else {
        unicode_alphanumeric(c)
    }
}

/// Whether `c` is an upper-case letter.
pub open spec fn is_upper(c: char) -> bool {
    if is_ascii_char(c) {
        'A' <= c <= 'Z'
    } else {
        unicode_is_uppercase(c)
    }
}

/// `s` in lower case.
pub fn lower(s: &str) -> (r: String)
    ensures
        r@ == lowered(s@),
{
    let v = chars_of(s);
    let mut out: Vec<char> = Vec::new();
    let mut i: usize = 0;
    while i < v.len()
        invariant
            i <= v.len(),
            v@ == s@,
            forall|k: int| 0 <= k < i ==> is_ascii_char(#[trigger] s@[k]),
            out@ == s@.take(i as int).map_values(|c: char| ascii_lower(c)),
        decreases v.len() - i,
    {
        if !ascii(v[i]) {
            assert(!is_ascii_char(s@[i as int]));
            return std_lowercase(s);
        }
        out.push(to_ascii_lower(v[i]));
        assert(s@.take(i + 1) == s@.take(i as int).push(s@[i as int]));
        i = i + 1;
    }
    assert(s@.take(v.len() as int) == s@);
    text_of(&out)
}

/// `c` in upper case, which may be more than one character.
pub fn upper(c: char) -> (r: Vec<char>)
    ensures
        r@ == uppered(c),
{
    if ascii(c) {
        let mut out: Vec<char> = Vec::new();
        out.push(to_ascii_upper(c));
        out
    } else {
        std_uppercase(c)
    }
}

/// Whether `c` is a letter.
pub fn letter(c: char) -> (r: bool)
    ensures
        r == is_letter(c),
{
    if ascii(c) {
        ('A' <= c && c <= 'Z') || ('a' <= c && c <= 'z')
    } else {
        std_alphabetic(c)
    }
}

/// Whether `c` is a letter or a number.
pub fn letter_or_number(c: char) -> (r: bool)
    ensures
        r == is_letter_or_number(c),
{
    if ascii(c) {
        ('A' <= c && c <= 'Z') || ('a' <= c && c <= 'z') || ('0' <= c && c <= '9')
    } else {
        std_alphanumeric(c)
    }
}

/// Whether `c` is an upper-case letter.
pub fn upper_case(c: char) -> (r: bool)
    ensures
        r == is_upper(c),
{
    if ascii(c) {
        'A' <= c && c <= 'Z'
    } else {
        std_is_uppercase(c)
    }
}

} // verus!
