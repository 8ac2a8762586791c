//! Picking a word from a list: one for the day, or any.

use vstd::prelude::*;
use rand::seq::SliceRandom;
use rand::SeedableRng;
use crate::lines::{lines_of, split_lines};
use crate::words::{split_words, words_of};

verus! {

/// Picks one of `words` with `rand`'s `SliceRandom::choose`, the random
/// numbers coming from a `SmallRng` seeded with `seed`.
///
/// Trusted: nothing is picked from an empty list, and from any other list
/// one of its words. Which one is not said: it may differ from one kind of
/// machine to another.
#[verifier::external_body]
pub(crate) fn choose_seeded(words: &Vec<String>, seed: u64) -> (pick: Option<&String>)
    ensures
        match pick {
            Some(word) => exists|i: int| 0 <= i < words@.len() && #[trigger] words@[i] == *word,
            None => words@.len() == 0,
        },
{
    let mut rng = rand::rngs::SmallRng::seed_from_u64(seed);
    words.choose(&mut rng)
}

/// Picks one of `words` with `rand`'s `SliceRandom::choose`, the random
/// numbers coming from the thread's generator, which the system seeds.
///
/// Trusted: nothing is picked from an empty list, and from any other list
/// one of its words. The generator is there as long as the system can seed
/// it.
#[verifier::external_body]
pub(crate) fn choose_any(words: &Vec<String>) -> (pick: Option<&String>)
    ensures
        match pick {
            Some(word) => exists|i: int| 0 <= i < words@.len() && #[trigger] words@[i] == *word,
            None => words@.len() == 0,
        },
{
    words.choose(&mut rand::thread_rng())
}

/// The word that was picked, or `fallback` where none was.
pub fn picked_or(pick: Option<&String>, fallback: &str) -> (word: String)
    ensures
        word@ == match pick {
            Some(w) => w@,
            None => fallback@,
        },
{
    match pick {
        Some(w) => w.clone(),
        None => fallback.to_owned(),
    }
}

/// The seed that stands for a day: year, month and day written one after
/// the other, as in 20240229. A year before the year 0 counts as the
/// 64-bit number with the same bits, and the sum wraps at 64 bits.
pub open spec fn day_seed(year: int, month: int, day: int) -> int {
    let y = if year >= 0 {
        year
    } else {
        year + 0x1_0000_0000_0000_0000
    };
    (y * 10000 + month * 100 + day) % 0x1_0000_0000_0000_0000
}

/// Computes the seed that stands for a day.
pub fn date_seed(year: i32, month: u32, day: u32) -> (seed: u64)
    ensures
        seed == day_seed(year as int, month as int, day as int),
{
    let y: u128 = if year >= 0 {
        year as u128
    } else {
        (0x1_0000_0000_0000_0000i128 + year as i128) as u128
    };
    let total: u128 = y * 10000 + (month as u128) * 100 + day as u128;
    (total % 0x1_0000_0000_0000_0000u128) as u64
}

/// The word of the day: one line of `wordlist`, picked by a generator that
/// is seeded with the date. An empty list gives the word `PUZZLE`.
pub fn get_word_of_the_day(wordlist: &str, year: i32, month: u32, day: u32) -> (word: String)
    ensures
        lines_of(wordlist@).len() == 0 ==> word@ == "PUZZLE"@,
        lines_of(wordlist@).len() > 0 ==> lines_of(wordlist@).contains(word@),
{
    let seed = date_seed(year, month, day);
    let words = split_lines(wordlist);
    let pick = choose_seeded(&words, seed);
    proof {
        if pick is Some {
            let i = choose|i: int| 0 <= i < words@.len() && #[trigger] words@[i] == *pick->Some_0;
            assert(words.deep_view()[i] == words@[i]@);
        }
    }
    picked_or(pick, "PUZZLE")
}

/// Any one of the words of `wordlist`, which white space separates; the
/// empty word where there is none.
pub fn select_random_word(wordlist: &str) -> (word: String)
    ensures
        words_of(wordlist@).len() == 0 ==> word@.len() == 0,
        words_of(wordlist@).len() > 0 ==> words_of(wordlist@).contains(word@),
{
    let words = split_words(wordlist);
    let pick = choose_any(&words);
    proof {
        reveal_strlit("");
        if pick is Some {
            let i = choose|i: int| 0 <= i < words@.len() && #[trigger] words@[i] == *pick->Some_0;
            assert(words.deep_view()[i] == words@[i]@);
        }
    }
    picked_or(pick, "")
}

} // verus!
