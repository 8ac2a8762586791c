//! Putting found words in order.

use vstd::prelude::*;
use crate::chars::chars_of;
use crate::scoring::{
    byte_length, calculate_difficulty, calculate_scrabble_score, difficulty, scrabble_score,
};
use crate::sorting::{
    arrange, as_ints, is_stable_order, is_stable_sort_of, keeps_order, lemma_stable_sort_multiset,
    lex_le, rearranged, sorted_positions, KeyColumn,
};

verus! {

/// The orders in which words can be put.
#[derive(Clone, Copy, Debug, PartialEq, Eq, Structural)]
pub enum SortCriteria {
    Alphabetical,
    Length,
    Difficulty,
    ScrabbleScore,
}

/// Whether word `a` ranks no higher than word `b`: it comes no later in
/// the dictionary, or is no longer in bytes, no more difficult, or scores
/// no more.
pub open spec fn ranks_no_higher(by: SortCriteria, a: Seq<char>, b: Seq<char>) -> bool {
    match by {
        SortCriteria::Alphabetical => lex_le(a, b),
        SortCriteria::Length => byte_length(a) <= byte_length(b),
        SortCriteria::Difficulty => difficulty(a) <= difficulty(b),
        SortCriteria::ScrabbleScore => scrabble_score(a) <= scrabble_score(b),
    }
}

/// `ranks_no_higher` as a ranking of words.
pub open spec fn ranking(by: SortCriteria) -> spec_fn(Seq<char>, Seq<char>) -> bool {
    |a: Seq<char>, b: Seq<char>| ranks_no_higher(by, a, b)
}

/// Sorting a list, and sorting the result again by whatever criterion,
/// neither drops a word nor repeats one: what comes out holds each word
/// as often as the list did.
pub proof fn lemma_sorting_twice_keeps_words(
    words: Seq<Seq<char>>,
    once: Seq<Seq<char>>,
    twice: Seq<Seq<char>>,
    first: SortCriteria,
    second: SortCriteria,
)
    requires
        is_stable_sort_of(once, words, ranking(first)),
        is_stable_sort_of(twice, once, ranking(second)),
    ensures
        twice.len() == words.len(),
        twice.to_multiset() == words.to_multiset(),
{
    lemma_stable_sort_multiset(once, words, ranking(first));
    lemma_stable_sort_multiset(twice, once, ranking(second));
}

/// The keys by which `words` are ranked under `by`.
fn key_column(words: &Vec<String>, by: SortCriteria) -> (column: KeyColumn)
    ensures
        column.rows() == words@.len(),
        forall|i: int, j: int|
            0 <= i < words@.len() && 0 <= j < words@.len() ==> #[trigger] column.key_le(i, j)
                == ranks_no_higher(by, words@[i]@, words@[j]@),
{
    match by {
        SortCriteria::Alphabetical => {
            let mut texts: Vec<Vec<char>> = Vec::new();
            let mut i: usize = 0;
            while i < words.len()
                invariant
                    i <= words.len(),
                    texts@.len() == i,
                    forall|k: int| 0 <= k < i ==> #[trigger] texts@[k]@ == words@[k]@,
                decreases words.len() - i,
            {
                texts.push(chars_of(words[i].as_str()));
                i += 1;
            }
            KeyColumn::Texts(texts)
        },
        _ => {
            let mut keys: Vec<u64> = Vec::new();
            let mut i: usize = 0;
            while i < words.len()
                invariant
                    i <= words.len(),
                    keys@.len() == i,
                    forall|k: int|
                        0 <= k < i ==> #[trigger] keys@[k] == match by {
                            SortCriteria::Length => byte_length(words@[k]@),
                            SortCriteria::Difficulty => difficulty(words@[k]@),
                            _ => scrabble_score(words@[k]@),
                        },
                    by != SortCriteria::Alphabetical,
                decreases words.len() - i,
            {
                let word = words[i].as_str();
                let key = match by {
                    SortCriteria::Length => word.as_bytes().len() as u64,
                    SortCriteria::Difficulty => calculate_difficulty(word) as u64,
                    _ => calculate_scrabble_score(word) as u64,
                };
                keys.push(key);
                i += 1;
            }
            KeyColumn::Numbers(keys)
        },
    }
}

/// Sorts words in ascending order by `sort_by`. Words that rank alike stay
/// in the order in which they were given. The result holds the words of
/// the input, each as often as the input did.
pub fn sort_anagrams(anagrams: &Vec<String>, sort_by: SortCriteria) -> (sorted: Vec<String>)
    ensures
        is_stable_sort_of(sorted.deep_view(), anagrams.deep_view(), ranking(sort_by)),
        sorted@.len() == anagrams@.len(),
        sorted.deep_view().to_multiset() == anagrams.deep_view().to_multiset(),
{
    let column = key_column(anagrams, sort_by);
    let order = sorted_positions(&column);
    proof {
        assert forall|k: int| 0 <= k < order@.len() implies #[trigger] order@[k] < anagrams@.len() by {
            assert(as_ints(order@)[k] < column.rows());
        }
    }
    let sorted = arrange(anagrams, &order);
    proof {
        let src = anagrams.deep_view();
        let perm = as_ints(order@);
        let le = ranking(sort_by);
        assert forall|a: int, b: int|
            #![trigger perm[a], perm[b]]
            0 <= a < b < perm.len() implies if perm[a] < perm[b] {
            le(src[perm[a]], src[perm[b]])
        } else {
            !le(src[perm[b]], src[perm[a]])
        } by {
            assert(column.before(order@[a] as int, order@[b] as int));
            assert(column.key_le(perm[a], perm[b]) == ranks_no_higher(
                sort_by,
                anagrams@[perm[a]]@,
                anagrams@[perm[b]]@,
            ));
            assert(column.key_le(perm[b], perm[a]) == ranks_no_higher(
                sort_by,
                anagrams@[perm[b]]@,
                anagrams@[perm[a]]@,
            ));
        }
        assert(keeps_order(src, perm, le));
        assert(is_stable_order(src, perm, le) && sorted.deep_view() == rearranged(src, perm));
        lemma_stable_sort_multiset(sorted.deep_view(), src, le);
    }
    sorted
}

} // verus!
