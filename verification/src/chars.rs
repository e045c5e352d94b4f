//! Unicode classes of characters, as the standard library decides them.
use vstd::prelude::*;

verus! {

/// Whether `char::is_alphabetic` holds of `c` (the Unicode `Alphabetic` property).
pub uninterp spec fn char_is_alphabetic(c: char) -> bool;

/// Whether `char::is_numeric` holds of `c` (the Unicode general categories `Nd`, `Nl`, `No`).
pub uninterp spec fn char_is_numeric(c: char) -> bool;

/// Whether `char::is_whitespace` holds of `c` (the Unicode `White_Space` property).
pub uninterp spec fn char_is_whitespace(c: char) -> bool;

/// Whether `c` is an ASCII character.
pub open spec fn is_ascii_char(c: char) -> bool {
    (c as u32) < 128
}

/// Whether `c` is alphabetic: for ASCII, exactly the letters.
pub open spec fn alphabetic(c: char) -> bool {
    if is_ascii_char(c) {
        ascii_letter(c)
    } else {
        char_is_alphabetic(c)
    }
}

/// Whether `c` is numeric: for ASCII, exactly the digits.
pub open spec fn numeric(c: char) -> bool {
    if is_ascii_char(c) {
        ascii_digit(c)
    } else {
        char_is_numeric(c)
    }
}

/// Whether `c` is white space: for ASCII, exactly the tab, newline,
/// vertical tab, form feed, carriage return and space.
pub open spec fn whitespace(c: char) -> bool {
    if is_ascii_char(c) {
        (9 <= (c as u32) && (c as u32) <= 13) || c == ' '
    } else {
        char_is_whitespace(c)
    }
}

/// An ASCII letter, `a` to `z` or `A` to `Z`.
pub open spec fn ascii_letter(c: char) -> bool {
    ('a' <= c && c <= 'z') || ('A' <= c && c <= 'Z')
}

/// An ASCII digit, `0` to `9`.
pub open spec fn ascii_digit(c: char) -> bool {
    '0' <= c && c <= '9'
}

/// Whether every character of `s` is ASCII.
pub open spec fn all_ascii(s: Seq<char>) -> bool {
    forall|i: int| 0 <= i < s.len() ==> (#[trigger] s[i] as u32) < 128
}

/// A space, tab, carriage return or newline.
pub open spec fn blank(c: char) -> bool {
    c == ' ' || c == '\t' || c == '\r' || c == '\n'
}

/// Wraps `char::is_whitespace`; the result is the Unicode `White_Space` property
/// of `c`. Among ASCII characters it holds of exactly the tab, newline,
/// vertical tab, form feed, carriage return and space.
#[verifier::external_body]
pub(crate) fn is_whitespace(c: char) -> (r: bool)
    ensures
        r == char_is_whitespace(c),
        r == whitespace(c),
{
    c.is_whitespace()
}

/// Wraps `char::is_alphabetic`; the result is the Unicode `Alphabetic` property
/// of `c`. Among ASCII characters it holds of exactly the letters.
#[verifier::external_body]
pub(crate) fn is_alphabetic(c: char) -> (r: bool)
    ensures
        r == char_is_alphabetic(c),
        r == alphabetic(c),
{
    c.is_alphabetic()
}

/// Wraps `char::is_numeric`; the result is whether `c` is in a Unicode number
/// category (`Nd`, `Nl`, `No`). Among ASCII characters only the digits are
/// (`Nd`).
#[verifier::external_body]
pub(crate) fn is_numeric(c: char) -> (r: bool)
    ensures
        r == char_is_numeric(c),
        r == numeric(c),
{
    c.is_numeric()
}

/// Whether `c` is alphabetic or numeric, which is how `char::is_alphanumeric`
/// is documented.
pub(crate) fn is_alphanumeric(c: char) -> (r: bool)
    ensures
        r == (alphabetic(c) || numeric(c)),
{
    is_alphabetic(c) || is_numeric(c)
}

/// Copies the characters of `s` into a vector.
pub fn chars_of(s: &str) -> (r: Vec<char>)
    ensures
        r@ == s@,
{
    let n = s.unicode_len();
    let mut r: Vec<char> = Vec::new();
    let mut i: usize = 0;
    while i < n
        invariant
            n == s@.len(),
            i <= n,
            r@ == s@.subrange(0, i as int),
        decreases n - i,
    {
        r.push(s.get_char(i));
        assert(r@ =~= s@.subrange(0, i + 1));
        i = i + 1;
    }
    assert(r@ =~= s@);
    r
}

/// A one-character string.
pub fn char_string(c: char) -> (r: String)
    ensures
        r@ == seq![c],
{
    let mut s = String::new();
    crate::fmt::push_char(&mut s, c);
    assert(s@ =~= seq![c]);
    s
}

/// The lower-case form of a string, as `str::to_lowercase` gives it.
pub uninterp spec fn lowercase(s: Seq<char>) -> Seq<char>;

/// The lower-case form of `s`: for ASCII text, `A` to `Z` become `a` to `z`.
pub open spec fn lower_text(s: Seq<char>) -> Seq<char> {
    if all_ascii(s) {
        ascii_lowercase(s)
    } else {
        lowercase(s)
    }
}

/// Wraps `str::to_lowercase`: the string with each character replaced by its
/// Unicode lower-case mapping, which for ASCII text maps `A` to `Z` to `a` to
/// `z` and leaves the rest. Beyond ASCII nothing more is stated of it than
/// that it is a function of the string.
#[verifier::external_body]
pub(crate) fn to_lowercase(s: &str) -> (r: String)
    ensures
        r@ == lowercase(s@),
        all_ascii(s@) ==> r@ == ascii_lowercase(s@),
{
    s.to_lowercase()
}

/// The upper-case form of a string, as `str::to_uppercase` gives it.
pub uninterp spec fn uppercase(s: Seq<char>) -> Seq<char>;

/// A character with `a` to `z` mapped to `A` to `Z`.
pub open spec fn ascii_upper_char(c: char) -> char {
    if 'a' <= c && c <= 'z' {
        ((c as int) - 32) as char
    } else {
        c
    }
}

/// A string with `a` to `z` mapped to `A` to `Z`.
pub open spec fn ascii_uppercase(s: Seq<char>) -> Seq<char> {
    s.map_values(|c: char| ascii_upper_char(c))
}

/// The upper-case form of `s`: for ASCII text, `a` to `z` become `A` to `Z`.
pub open spec fn upper_text(s: Seq<char>) -> Seq<char> {
    if all_ascii(s) {
        ascii_uppercase(s)
    } else {
        uppercase(s)
    }
}

/// Wraps `str::to_uppercase`: the string with each character replaced by its
/// Unicode upper-case mapping, which for ASCII text maps `a` to `z` to `A` to
/// `Z` and leaves the rest. Beyond ASCII nothing more is stated of it than
/// that it is a function of the string.
#[verifier::external_body]
pub(crate) fn to_uppercase(s: &str) -> (r: String)
    ensures
        r@ == uppercase(s@),
        all_ascii(s@) ==> r@ == ascii_uppercase(s@),
{
    s.to_uppercase()
}

/// A character with `A` to `Z` mapped to `a` to `z`.
pub open spec fn ascii_lower_char(c: char) -> char {
    if 'A' <= c && c <= 'Z' {
        ((c as int) + 32) as char
    } else {
        c
    }
}

/// A string with `A` to `Z` mapped to `a` to `z`.
pub open spec fn ascii_lowercase(s: Seq<char>) -> Seq<char> {
    s.map_values(|c: char| ascii_lower_char(c))
}

/// A string with the ASCII letters `A` to `Z` mapped to `a` to `z` and every
/// other character left as it is, as `str::to_ascii_lowercase` gives it.
pub fn to_ascii_lowercase(s: &str) -> (r: String)
    ensures
        r@ == ascii_lowercase(s@),
{
    let cs = chars_of(s);
    let mut r = String::new();
    let mut i: usize = 0;
    while i < cs.len()
        invariant
            cs@ == s@,
            i <= cs.len(),
            r@ == ascii_lowercase(s@.subrange(0, i as int)),
        decreases cs.len() - i,
    {
        let c = cs[i];
        let lc = if 'A' <= c && c <= 'Z' {
            let code: u8 = (c as u8) + 32;
            code as char
        } else {
            c
        };
        crate::fmt::push_char(&mut r, lc);
        assert(ascii_lowercase(s@.subrange(0, i + 1)) =~= ascii_lowercase(s@.subrange(0, i as int)).push(
            ascii_lower_char(c),
        ));
        i = i + 1;
    }
    assert(s@.subrange(0, i as int) =~= s@);
    r
}

} // verus!
