//! Characters and strings: the ASCII letter classes, case folding, and the
//! passage between `&str`, `String` and vectors of characters.

use vstd::prelude::*;

verus! {

/// Whether `c` is one of the twenty-six lowercase ASCII letters.
pub open spec fn is_lower(c: char) -> bool {
    'a' <= c && c <= 'z'
}

/// Whether `c` is one of the twenty-six uppercase ASCII letters.
pub open spec fn is_upper(c: char) -> bool {
    'A' <= c && c <= 'Z'
}

/// The ASCII lowercase form of `c`: `A`..`Z` become `a`..`z`, every other
/// character stays as it is.
pub open spec fn ascii_lower(c: char) -> char {
    if is_upper(c) {
        ((c as u8) + 32) as char
    } else {
        c
    }
}

/// `ascii_lower` as a function on characters.
pub open spec fn fold_case() -> spec_fn(char) -> char {
    |c: char| ascii_lower(c)
}

/// `is_lower` as a test on characters.
pub open spec fn letters_only() -> spec_fn(char) -> bool {
    |c: char| is_lower(c)
}

/// Whether `c` is one of the five lowercase vowels.
pub open spec fn is_vowel(c: char) -> bool {
    c == 'a' || c == 'e' || c == 'i' || c == 'o' || c == 'u'
}

/// Folds an ASCII uppercase letter to lowercase and leaves every other
/// character alone.
pub fn to_ascii_lower(c: char) -> (r: char)
    ensures
        r == ascii_lower(c),
{
    if c >= 'A' && c <= 'Z' {
        ((c as u8) + 32) as char
    } else {
        c
    }
}

/// Tests for a lowercase ASCII letter.
pub fn is_lower_letter(c: char) -> (b: bool)
    ensures
        b == is_lower(c),
{
    c >= 'a' && c <= 'z'
}

/// The characters of `s`, in order.
pub fn chars_of(s: &str) -> (v: Vec<char>)
    ensures
        v@ == s@,
{
    let mut v: Vec<char> = Vec::new();
    for c in it: s.chars()
        invariant
            v@ == it.seq().take(it.index() as int),
    {
        v.push(c);
    }
    v
}

/// The lowercase form of a text as `str::to_lowercase` gives it.
pub uninterp spec fn lowercase_of(text: Seq<char>) -> Seq<char>;

/// The first character of the lowercase mapping of `c` as
/// `char::to_lowercase` gives it.
pub uninterp spec fn lowercase_head(c: char) -> char;

/// Whether `char::is_alphabetic` holds of `c`.
pub uninterp spec fn is_alphabetic(c: char) -> bool;

/// Lowercases a text with `str::to_lowercase`, which goes by the Unicode
/// tables and may change the number of characters.
///
/// Trusted: the result depends on the text alone.
#[verifier::external_body]
pub(crate) fn to_lowercase(text: &str) -> (s: String)
    ensures
        s@ == lowercase_of(text@),
{
    text.to_lowercase()
}

/// The first character that `char::to_lowercase` yields for `c`; the
/// mapping always has one.
///
/// Trusted: the result depends on the character alone.
#[verifier::external_body]
pub(crate) fn fold_char(c: char) -> (r: char)
    ensures
        r == lowercase_head(c),
{
    c.to_lowercase().next().unwrap()
}

/// Asks `char::is_alphabetic` whether `c` is a letter of any script.
///
/// Trusted: the result depends on the character alone.
#[verifier::external_body]
pub(crate) fn alphabetic(c: char) -> (b: bool)
    ensures
        b == is_alphabetic(c),
{
    c.is_alphabetic()
}

/// Builds a `String` from characters with `String::from_iter`; the string
/// holds exactly the characters handed in, in the same order.
#[verifier::external_body]
pub(crate) fn string_of(chars: &Vec<char>) -> (s: String)
    ensures
        s@ == chars@,
{
    String::from_iter(chars.iter())
}

} // verus!
