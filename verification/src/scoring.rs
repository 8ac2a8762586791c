//! Scores for single words: the Scrabble score and the difficulty.

use vstd::prelude::*;
use crate::chars::{ascii_lower, chars_of, is_vowel, lowercase_of, to_ascii_lower, to_lowercase};
use crate::distinct::{count_distinct, distinct_count};

verus! {

/// The Scrabble points of one tile. Case does not count; what is not a
/// letter of the English alphabet scores nothing.
pub open spec fn letter_points(c: char) -> nat {
    let l = ascii_lower(c);
    if l == 'a' || l == 'e' || l == 'i' || l == 'o' || l == 'u' || l == 'l' || l == 'n' || l == 's'
        || l == 't' || l == 'r' {
        1
    } else if l == 'd' || l == 'g' {
        2
    } else if l == 'b' || l == 'c' || l == 'm' || l == 'p' {
        3
    } else if l == 'f' || l == 'h' || l == 'v' || l == 'w' || l == 'y' {
        4
    } else if l == 'k' {
        5
    } else if l == 'j' || l == 'x' {
        8
    } else if l == 'q' || l == 'z' {
        10
    } else {
        0
    }
}

/// The points of all the tiles of a word together.
pub open spec fn scrabble_points(word: Seq<char>) -> nat
    decreases word.len(),
{
    if word.len() == 0 {
        0
    } else {
        scrabble_points(word.drop_last()) + letter_points(word.last())
    }
}

/// The Scrabble score of a word: the points of its tiles, stopping at
/// 65535.
pub open spec fn scrabble_score(word: Seq<char>) -> nat {
    if scrabble_points(word) > u16::MAX {
        u16::MAX as nat
    } else {
        scrabble_points(word)
    }
}

/// The points of one tile.
pub fn tile_points(c: char) -> (p: u16)
    ensures
        p == letter_points(c),
{
    let l = to_ascii_lower(c);
    if l == 'a' || l == 'e' || l == 'i' || l == 'o' || l == 'u' || l == 'l' || l == 'n' || l == 's'
        || l == 't' || l == 'r' {
        1
    } else if l == 'd' || l == 'g' {
        2
    } else if l == 'b' || l == 'c' || l == 'm' || l == 'p' {
        3
    } else if l == 'f' || l == 'h' || l == 'v' || l == 'w' || l == 'y' {
        4
    } else if l == 'k' {
        5
    } else if l == 'j' || l == 'x' {
        8
    } else if l == 'q' || l == 'z' {
        10
    } else {
        0
    }
}

/// The Scrabble score of a word: the points of its letters added up. The
/// score stops at 65535, which no word of fewer than 6554 letters reaches.
pub fn calculate_scrabble_score(word: &str) -> (score: u16)
    ensures
        score == scrabble_score(word@),
{
    let chars = chars_of(word);
    let mut score: u16 = 0;
    let mut i: usize = 0;
    proof {
        assert(chars@.take(0) =~= Seq::<char>::empty());
    }
    while i < chars.len()
        invariant
            i <= chars.len(),
            score == scrabble_score(chars@.take(i as int)),
        decreases chars.len() - i,
    {
        let p = tile_points(chars[i]);
        proof {
            assert(chars@.take(i + 1).drop_last() =~= chars@.take(i as int));
        }
        score = if score > u16::MAX - p {
            u16::MAX
        } else {
            score + p
        };
        i += 1;
    }
    proof {
        assert(chars@.take(i as int) =~= chars@);
    }
    score
}

/// How rare a letter is in English text, in hundredths: 13 less the
/// letter's share of running text in percent, so 0.30 for `e` and 12.93
/// for `z`. Case does not count; what is not a letter of the English
/// alphabet weighs nothing.
pub open spec fn rarity_weight(c: char) -> nat {
    let l = ascii_lower(c);
    if l == 'e' {
        30
    } else if l == 't' {
        394
    } else if l == 'a' {
        483
    } else if l == 'o' {
        549
    } else if l == 'i' {
        603
    } else if l == 'n' {
        625
    } else if l == 's' {
        667
    } else if l == 'h' {
        691
    } else if l == 'r' {
        701
    } else if l == 'd' {
        875
    } else if l == 'l' {
        897
    } else if l == 'c' {
        1022
    } else if l == 'u' {
        1024
    } else if l == 'm' {
        1059
    } else if l == 'w' {
        1064
    } else if l == 'f' {
        1077
    } else if l == 'g' {
        1098
    } else if l == 'y' {
        1103
    } else if l == 'p' {
        1107
    } else if l == 'b' {
        1171
    } else if l == 'v' {
        1202
    } else if l == 'k' {
        1223
    } else if l == 'j' || l == 'x' {
        1285
    } else if l == 'q' {
        1290
    } else if l == 'z' {
        1293
    } else {
        0
    }
}

/// The rarity weights of all the letters of a word together, in
/// hundredths.
pub open spec fn rarity_sum(word: Seq<char>) -> nat
    decreases word.len(),
{
    if word.len() == 0 {
        0
    } else {
        rarity_sum(word.drop_last()) + rarity_weight(word.last())
    }
}

/// Whether the three characters of `word` that end at position `end` are
/// all consonants. Here every character but the five lowercase vowels
/// counts as one.
pub open spec fn consonants_up_to(word: Seq<char>, end: int) -> bool {
    &&& 2 <= end < word.len()
    &&& !is_vowel(word[end - 2])
    &&& !is_vowel(word[end - 1])
    &&& !is_vowel(word[end])
}

/// How many windows of three neighbouring characters of `word` hold no
/// vowel. Windows overlap: four consonants in a row make two.
pub open spec fn consonant_runs(word: Seq<char>) -> nat
    decreases word.len(),
{
    if word.len() < 3 {
        0
    } else {
        consonant_runs(word.drop_last()) + if consonants_up_to(word, word.len() - 1) {
            1nat
        } else {
            0nat
        }
    }
}

/// The length of a word in bytes of UTF-8.
pub open spec fn byte_length(word: Seq<char>) -> nat {
    vstd::utf8::encode_utf8(word).len()
}

/// A score brought down to the ceiling of 255.
pub open spec fn capped(total: nat) -> nat {
    if total > 255 {
        255
    } else {
        total
    }
}

/// The difficulty of a word before the ceiling: its length in bytes, the
/// number of its different characters, its rarity in whole points, and two
/// points for each window of three consonants in its lowercase form.
pub open spec fn difficulty_total(word: Seq<char>) -> nat {
    byte_length(word) + distinct_count(word) + rarity_sum(word) / 100 + 2 * consonant_runs(
        lowercase_of(word),
    )
}

/// The difficulty of a word, from 0 to 255.
pub open spec fn difficulty(word: Seq<char>) -> nat {
    capped(difficulty_total(word))
}

/// The rarity weight of one letter, in hundredths.
pub fn letter_rarity(c: char) -> (w: u16)
    ensures
        w == rarity_weight(c),
{
    let l = to_ascii_lower(c);
    if l == 'e' {
        30
    } else if l == 't' {
        394
    } else if l == 'a' {
        483
    } else if l == 'o' {
        549
    } else if l == 'i' {
        603
    } else if l == 'n' {
        625
    } else if l == 's' {
        667
    } else if l == 'h' {
        691
    } else if l == 'r' {
        701
    } else if l == 'd' {
        875
    } else if l == 'l' {
        897
    } else if l == 'c' {
        1022
    } else if l == 'u' {
        1024
    } else if l == 'm' {
        1059
    } else if l == 'w' {
        1064
    } else if l == 'f' {
        1077
    } else if l == 'g' {
        1098
    } else if l == 'y' {
        1103
    } else if l == 'p' {
        1107
    } else if l == 'b' {
        1171
    } else if l == 'v' {
        1202
    } else if l == 'k' {
        1223
    } else if l == 'j' || l == 'x' {
        1285
    } else if l == 'q' {
        1290
    } else if l == 'z' {
        1293
    } else {
        0
    }
}

/// The rarity of a word in whole points, fractions dropped, and stopping
/// at 255.
pub fn rarity_score(chars: &Vec<char>) -> (r: u8)
    ensures
        r == capped(rarity_sum(chars@) / 100),
{
    let mut sum: u32 = 0;
    let mut i: usize = 0;
    proof {
        assert(chars@.take(0) =~= Seq::<char>::empty());
    }
    while i < chars.len()
        invariant
            i <= chars.len(),
            sum <= 25500,
            sum == if rarity_sum(chars@.take(i as int)) > 25500 {
                25500
            } else {
                rarity_sum(chars@.take(i as int))
            },
        decreases chars.len() - i,
    {
        let w = letter_rarity(chars[i]);
        proof {
            assert(chars@.take(i + 1).drop_last() =~= chars@.take(i as int));
        }
        sum = sum + w as u32;
        if sum > 25500 {
            sum = 25500;
        }
        i += 1;
    }
    proof {
        assert(chars@.take(i as int) =~= chars@);
    }
    (sum / 100) as u8
}

/// Whether `c` is one of the five lowercase vowels.
pub fn is_lower_vowel(c: char) -> (b: bool)
    ensures
        b == is_vowel(c),
{
    c == 'a' || c == 'e' || c == 'i' || c == 'o' || c == 'u'
}

/// Counts the windows of three neighbouring characters without a vowel.
pub fn count_consonant_runs(chars: &Vec<char>) -> (n: usize)
    ensures
        n == consonant_runs(chars@),
{
    let mut n: usize = 0;
    let mut i: usize = 0;
    proof {
        assert(chars@.take(0) =~= Seq::<char>::empty());
    }
    while i < chars.len()
        invariant
            i <= chars.len(),
            n <= i,
            n == consonant_runs(chars@.take(i as int)),
        decreases chars.len() - i,
    {
        proof {
            let next = chars@.take(i + 1);
            assert(next.drop_last() =~= chars@.take(i as int));
            if i >= 2 {
                assert(next[i - 2] == chars@[i - 2]);
                assert(next[i - 1] == chars@[i - 1]);
                assert(next[i as int] == chars@[i as int]);
            }
        }
        if i >= 2 && !is_lower_vowel(chars[i - 2]) && !is_lower_vowel(chars[i - 1])
            && !is_lower_vowel(chars[i]) {
            n += 1;
        }
        i += 1;
    }
    proof {
        assert(chars@.take(i as int) =~= chars@);
    }
    n
}

/// Adds up the four parts of a difficulty and stops at 255: the length,
/// the number of different characters, the rarity, and two points for each
/// run of consonants.
pub fn combine_difficulty(length: usize, distinct: usize, rarity: u8, runs: usize) -> (d: u8)
    ensures
        d == capped((length + distinct + rarity + 2 * runs) as nat),
{
    let a: u32 = if length > 255 { 255 } else { length as u32 };
    let b: u32 = if distinct > 255 { 255 } else { distinct as u32 };
    let c: u32 = rarity as u32;
    let e: u32 = if runs > 255 { 255 } else { runs as u32 };
    let total: u32 = a + b + c + 2 * e;
    if total > 255 {
        255
    } else {
        total as u8
    }
}

/// The difficulty of a word, from 0 to 255: its length in bytes, plus the
/// number of its different characters, plus the rarity of its letters in
/// English, plus two points for each window of three neighbouring
/// consonants. The sum stops at 255.
pub fn calculate_difficulty(word: &str) -> (d: u8)
    ensures
        d == difficulty(word@),
{
    let chars = chars_of(word);
    let length = word.as_bytes().len();
    let distinct = count_distinct(&chars);
    let rarity = rarity_score(&chars);
    let lowered = to_lowercase(word);
    let lowered_chars = chars_of(lowered.as_str());
    let runs = count_consonant_runs(&lowered_chars);
    combine_difficulty(length, distinct, rarity, runs)
}

} // verus!
