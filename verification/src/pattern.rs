//! The two patterns of the engine, and the regular-expression engine that
//! runs them: `[^a-z]`, whose matches are taken out of a player's input,
//! and `^[letters]{min,}$`, which picks out the words spelled with a given
//! set of letters.

use vstd::prelude::*;
use crate::chars::{is_lower, letters_only, string_of};

verus! {

/// `regex::Regex`, a compiled pattern. Nothing inside it is seen here.
#[verifier::external_type_specification]
#[verifier::external_body]
pub struct ExRegex(regex::Regex);

/// What `regex::Regex::is_match` answers for a compiled pattern and a text.
pub uninterp spec fn regex_accepts(re: regex::Regex, text: Seq<char>) -> bool;

/// What `regex::Regex::replace_all` makes of a text when each match of a
/// compiled pattern is replaced by the empty text.
pub uninterp spec fn regex_erased(re: regex::Regex, text: Seq<char>) -> Seq<char>;

/// The pattern `[^a-z]`: any one character that is no lowercase letter.
pub open spec fn non_letter_pattern() -> Seq<char> {
    seq!['[', '^', 'a', '-', 'z', ']']
}

/// Whether taking the matches of the compiled pattern `re` out of a text
/// leaves its lowercase letters, in order, and nothing else.
pub open spec fn erases_non_letters(re: regex::Regex) -> bool {
    forall|text: Seq<char>| #[trigger] regex_erased(re, text) == text.filter(letters_only())
}

/// The character for a decimal digit.
pub open spec fn digit(d: nat) -> char
    recommends
        d < 10,
{
    (d + 48) as char
}

/// `n` written in decimal, without leading zeros.
pub open spec fn decimal(n: nat) -> Seq<char>
    decreases n,
{
    if n < 10 {
        seq![digit(n)]
    } else {
        decimal(n / 10).push(digit(n % 10))
    }
}

/// Whether `letters` can stand between the brackets of a character class
/// as they are: there is at least one, and each is a lowercase letter.
pub open spec fn is_letter_class(letters: Seq<char>) -> bool {
    &&& letters.len() > 0
    &&& forall|i: int| 0 <= i < letters.len() ==> is_lower(#[trigger] letters[i])
}

/// The pattern `^[letters]{min,}$`.
pub open spec fn letter_class_pattern(letters: Seq<char>, min: nat) -> Seq<char> {
    seq!['^', '['] + letters + seq![']', '{'] + decimal(min) + seq![',', '}', '$']
}

/// Whether `text` is at least `min` characters long and spelled with
/// nothing but `letters`.
pub open spec fn class_admits(letters: Seq<char>, min: nat, text: Seq<char>) -> bool {
    &&& text.len() >= min
    &&& forall|i: int| 0 <= i < text.len() ==> letters.contains(#[trigger] text[i])
}

/// Whether the compiled pattern `re` accepts exactly the texts that
/// `class_admits` describes.
pub open spec fn matches_letter_class(re: regex::Regex, letters: Seq<char>, min: nat) -> bool {
    forall|text: Seq<char>| #[trigger] regex_accepts(re, text) == class_admits(letters, min, text)
}

/// Compiles `pattern` with `regex::Regex::new`; `None` where the engine
/// rejects it, as it does for a pattern beyond its size limit.
///
/// Trusted: nothing is said of when compilation succeeds. Where it does and
/// the pattern is `^[letters]{min,}$` over lowercase letters, the compiled
/// expression matches a text exactly when the whole text, from its first
/// character to its last, is made of at least `min` characters of the
/// class. This is the engine's documented reading of `^`, `[xyz]`, `x{n,}`
/// and `$` without flags. Where the pattern is `[^a-z]`, each match is one
/// character that is none of `a` to `z`, and every such character is a
/// match: the engine's documented reading of `[^xyz]` and `[a-z]`.
#[verifier::external_body]
pub(crate) fn compile_pattern(pattern: &str) -> (r: Option<regex::Regex>)
    ensures
        r is Some ==> forall|letters: Seq<char>, min: nat|
            #![trigger letter_class_pattern(letters, min)]
            pattern@ == letter_class_pattern(letters, min) && is_letter_class(letters)
                ==> matches_letter_class(r->Some_0, letters, min),
        r is Some && pattern@ == non_letter_pattern() ==> erases_non_letters(r->Some_0),
{
    regex::Regex::new(pattern).ok()
}

/// Runs `regex::Regex::is_match` on `text`.
///
/// Trusted: the answer depends on the compiled pattern and the text alone.
#[verifier::external_body]
pub(crate) fn pattern_matches(re: &regex::Regex, text: &str) -> (b: bool)
    ensures
        b == regex_accepts(*re, text@),
{
    re.is_match(text)
}

/// Replaces every match of `re` in `text` by nothing, with
/// `regex::Regex::replace_all`: what stands between the matches is kept,
/// in order.
///
/// Trusted: the result depends on the compiled pattern and the text alone.
#[verifier::external_body]
pub(crate) fn pattern_erase(re: &regex::Regex, text: &str) -> (s: String)
    ensures
        s@ == regex_erased(*re, text@),
{
    re.replace_all(text, "").into_owned()
}

/// Appends the decimal digits of `n` to `out`.
fn push_decimal(out: &mut Vec<char>, n: usize)
    ensures
        final(out)@ == old(out)@ + decimal(n as nat),
    decreases n,
{
    if n >= 10 {
        push_decimal(out, n / 10);
    }
    let d = (n % 10) as u8;
    out.push((d + 48) as char);
    proof {
        if n >= 10 {
            assert(old(out)@ + decimal((n / 10) as nat).push(digit((n % 10) as nat))
                =~= (old(out)@ + decimal((n / 10) as nat)).push(digit((n % 10) as nat)));
        } else {
            assert(old(out)@ + seq![digit(n as nat)] =~= old(out)@.push(digit(n as nat)));
        }
    }
}

/// Writes the pattern `^[letters]{min,}$`.
pub fn letter_class_source(letters: &Vec<char>, min: usize) -> (s: String)
    ensures
        s@ == letter_class_pattern(letters@, min as nat),
{
    let mut out: Vec<char> = Vec::new();
    out.push('^');
    out.push('[');
    let mut i: usize = 0;
    while i < letters.len()
        invariant
            i <= letters.len(),
            out@ == seq!['^', '['] + letters@.take(i as int),
        decreases letters.len() - i,
    {
        out.push(letters[i]);
        proof {
            assert(letters@.take(i + 1) =~= letters@.take(i as int).push(letters@[i as int]));
            assert(out@ =~= seq!['^', '['] + letters@.take(i + 1));
        }
        i += 1;
    }
    proof {
        assert(letters@.take(i as int) =~= letters@);
    }
    out.push(']');
    out.push('{');
    let ghost head = out@;
    push_decimal(&mut out, min);
    out.push(',');
    out.push('}');
    out.push('$');
    proof {
        assert(head =~= seq!['^', '['] + letters@ + seq![']', '{']);
        assert(out@ =~= letter_class_pattern(letters@, min as nat));
    }
    string_of(&out)
}

} // verus!
