//! What there is to say about a single word.

use vstd::prelude::*;
use crate::chars::{
    alphabetic, ascii_lower, chars_of, fold_char, is_alphabetic, is_vowel, lowercase_head,
    lowercase_of, to_ascii_lower, to_lowercase,
};
use crate::distinct::{count_distinct, distinct_count, has_duplicate};
use crate::scoring::{
    byte_length, calculate_difficulty, calculate_scrabble_score, difficulty, is_lower_vowel,
    scrabble_score,
};

verus! {

/// A word with each character replaced by the first character of its
/// lowercase mapping.
pub open spec fn folded(word: Seq<char>) -> Seq<char> {
    Seq::new(word.len(), |i: int| lowercase_head(word[i]))
}

/// Whether a sequence reads the same from both ends.
pub open spec fn is_mirrored(s: Seq<char>) -> bool {
    s == s.reverse()
}

/// The test for a vowel, upper or lower case.
pub open spec fn vowels() -> spec_fn(char) -> bool {
    |c: char| is_vowel(ascii_lower(c))
}

/// The test for a consonant: a letter of any script that is no vowel.
pub open spec fn consonants() -> spec_fn(char) -> bool {
    |c: char| is_alphabetic(c) && !is_vowel(ascii_lower(c))
}

/// How many vowels a word holds.
pub open spec fn vowel_count(word: Seq<char>) -> nat {
    word.filter(vowels()).len()
}

/// How many consonants a word holds.
pub open spec fn consonant_count(word: Seq<char>) -> nat {
    word.filter(consonants()).len()
}

/// The figures of one word.
#[derive(Clone, Copy, Debug, PartialEq, Eq, Structural)]
pub struct WordStats {
    pub length: usize,
    pub vowel_count: usize,
    pub consonant_count: usize,
    pub unique_letters: usize,
    pub is_palindrome: bool,
    pub has_repeated_letters: bool,
    pub difficulty: u8,
    pub scrabble_score: u16,
}

/// Whether `stats` holds the figures of `word`: its length in bytes; the
/// number of its vowels and of its consonants, characters that are no
/// letters counting as neither; the number of its different characters
/// and whether one occurs twice, upper case taken as lower case; whether
/// its lowercase form reads the same from both ends; its difficulty and
/// its Scrabble score.
pub open spec fn is_stats_of(stats: WordStats, word: Seq<char>) -> bool {
    &&& stats.length == byte_length(word)
    &&& stats.vowel_count == vowel_count(word)
    &&& stats.consonant_count == consonant_count(word)
    &&& stats.unique_letters == distinct_count(folded(word))
    &&& stats.is_palindrome == is_mirrored(lowercase_of(word))
    &&& stats.has_repeated_letters == !folded(word).no_duplicates()
    &&& stats.difficulty == difficulty(word)
    &&& stats.scrabble_score == scrabble_score(word)
}

/// A word has one set of figures: asked twice, `word_stats` answers the
/// same.
pub proof fn lemma_word_stats_repeatable(first: WordStats, second: WordStats, word: Seq<char>)
    requires
        is_stats_of(first, word),
        is_stats_of(second, word),
    ensures
        first == second,
{
}

/// A word repeats a letter exactly when it has fewer different letters
/// than characters.
pub proof fn lemma_repeats_iff_fewer_unique(stats: WordStats, word: Seq<char>)
    requires
        is_stats_of(stats, word),
    ensures
        stats.has_repeated_letters <==> stats.unique_letters < word.len(),
{
    let s = folded(word);
    if s.no_duplicates() {
        s.unique_seq_to_set();
    } else {
        s.lemma_cardinality_of_set();
        if s.to_set().len() == s.len() {
            s.lemma_no_dup_set_cardinality();
        }
    }
}

/// Whether `chars` reads the same from both ends.
pub fn reads_both_ways(chars: &Vec<char>) -> (b: bool)
    ensures
        b == is_mirrored(chars@),
{
    let n = chars.len();
    let mut i: usize = 0;
    while i < n / 2
        invariant
            n == chars.len(),
            i <= n / 2,
            forall|j: int| 0 <= j < i ==> #[trigger] chars@[j] == chars@[n - 1 - j],
        decreases n / 2 - i,
    {
        if chars[i] != chars[n - 1 - i] {
            proof {
                assert(chars@.reverse()[i as int] == chars@[n - 1 - i]);
            }
            return false;
        }
        i += 1;
    }
    proof {
        assert forall|j: int| 0 <= j < n implies chars@[j] == chars@.reverse()[j] by {
            if j < i {
            } else {
                let k = n - 1 - j;
                if k < i {
                    assert(chars@[k] == chars@[n - 1 - k]);
                }
            }
        }
        assert(chars@ =~= chars@.reverse());
    }
    true
}

/// Whether a word reads the same forwards and backwards once it is put in
/// lower case. Nothing is left out of the comparison: digits, spaces and
/// punctuation count like letters.
pub fn is_palindrome(word: &str) -> (b: bool)
    ensures
        b == is_mirrored(lowercase_of(word@)),
{
    let lowered = to_lowercase(word);
    let chars = chars_of(lowered.as_str());
    reads_both_ways(&chars)
}

/// The characters of a word, each replaced by the first character of its
/// lowercase mapping.
pub fn fold_chars(chars: &Vec<char>) -> (out: Vec<char>)
    ensures
        out@ == folded(chars@),
{
    let mut out: Vec<char> = Vec::new();
    let mut i: usize = 0;
    while i < chars.len()
        invariant
            i <= chars.len(),
            out@.len() == i,
            forall|j: int| 0 <= j < i ==> out@[j] == lowercase_head(chars@[j]),
        decreases chars.len() - i,
    {
        out.push(fold_char(chars[i]));
        i += 1;
    }
    proof {
        assert(out@ =~= folded(chars@));
    }
    out
}

/// Whether some character occurs in a word more than once, upper case
/// taken as lower case.
pub fn has_repeated_letters(word: &str) -> (b: bool)
    ensures
        b == !folded(word@).no_duplicates(),
{
    let chars = chars_of(word);
    let lowered = fold_chars(&chars);
    has_duplicate(&lowered)
}

/// Counts the vowels among `chars`, upper or lower case.
pub fn count_vowels(chars: &Vec<char>) -> (n: usize)
    ensures
        n == vowel_count(chars@),
{
    let mut n: usize = 0;
    let mut i: usize = 0;
    proof {
        assert(chars@.take(0) =~= Seq::<char>::empty());
        reveal(Seq::filter);
    }
    while i < chars.len()
        invariant
            i <= chars.len(),
            n <= i,
            n == vowel_count(chars@.take(i as int)),
        decreases chars.len() - i,
    {
        let c = chars[i];
        proof {
            assert(chars@.take(i + 1) =~= chars@.take(i as int).push(c));
            chars@.take(i as int).lemma_filter_push(c, vowels());
        }
        if is_lower_vowel(to_ascii_lower(c)) {
            n += 1;
        }
        i += 1;
    }
    proof {
        assert(chars@.take(i as int) =~= chars@);
    }
    n
}

/// Counts the consonants among `chars`: the letters that are no vowels.
pub fn count_consonants(chars: &Vec<char>) -> (n: usize)
    ensures
        n == consonant_count(chars@),
{
    let mut n: usize = 0;
    let mut i: usize = 0;
    proof {
        assert(chars@.take(0) =~= Seq::<char>::empty());
        reveal(Seq::filter);
    }
    while i < chars.len()
        invariant
            i <= chars.len(),
            n <= i,
            n == consonant_count(chars@.take(i as int)),
        decreases chars.len() - i,
    {
        let c = chars[i];
        proof {
            assert(chars@.take(i + 1) =~= chars@.take(i as int).push(c));
            chars@.take(i as int).lemma_filter_push(c, consonants());
        }
        if alphabetic(c) && !is_lower_vowel(to_ascii_lower(c)) {
            n += 1;
        }
        i += 1;
    }
    proof {
        assert(chars@.take(i as int) =~= chars@);
    }
    n
}

/// The figures of a word. The word is only read; asked again, the answer
/// is the same.
pub fn word_stats(word: &str) -> (stats: WordStats)
    ensures
        is_stats_of(stats, word@),
{
    let chars = chars_of(word);
    let lowered = fold_chars(&chars);
    WordStats {
        length: word.as_bytes().len(),
        vowel_count: count_vowels(&chars),
        consonant_count: count_consonants(&chars),
        unique_letters: count_distinct(&lowered),
        is_palindrome: is_palindrome(word),
        has_repeated_letters: has_duplicate(&lowered),
        difficulty: calculate_difficulty(word),
        scrabble_score: calculate_scrabble_score(word),
    }
}

} // verus!
