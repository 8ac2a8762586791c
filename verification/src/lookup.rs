//! Looking a word up in a sorted word list.

use vstd::prelude::*;
use crate::chars::{chars_of, lowercase_of, to_lowercase};
use crate::sorting::{
    chars_le, lemma_lex_le_antisymmetric, lemma_lex_le_total, lemma_lex_le_transitive, lex_le,
};

verus! {

/// Whether a word list is in dictionary order.
pub open spec fn is_sorted_list(words: Seq<Seq<char>>) -> bool {
    forall|i: int, j: int| 0 <= i <= j < words.len() ==> lex_le(#[trigger] words[i], #[trigger] words[j])
}

/// Searches a word list for `target` by halving. A list in dictionary
/// order is searched exhaustively; in a list that is not, a word that is
/// there may be missed, but none is ever found that is not there.
pub fn find_in_sorted(wordlist: &Vec<String>, target: &Vec<char>) -> (found: bool)
    ensures
        found ==> wordlist.deep_view().contains(target@),
        is_sorted_list(wordlist.deep_view()) ==> found == wordlist.deep_view().contains(target@),
{
    let ghost list = wordlist.deep_view();
    let mut lo: usize = 0;
    let mut hi: usize = wordlist.len();
    while lo < hi
        invariant
            lo <= hi <= wordlist.len(),
            list == wordlist.deep_view(),
            is_sorted_list(list) ==> forall|k: int| 0 <= k < lo ==> !lex_le(target@, #[trigger] list[k]),
            is_sorted_list(list) ==> forall|k: int|
                hi <= k < list.len() ==> !lex_le(#[trigger] list[k], target@),
        decreases hi - lo,
    {
        let mid = lo + (hi - lo) / 2;
        let probe = chars_of(wordlist[mid].as_str());
        proof {
            assert(list[mid as int] == probe@);
        }
        if chars_le(&probe, target) {
            if chars_le(target, &probe) {
                proof {
                    lemma_lex_le_antisymmetric(probe@, target@);
                }
                return true;
            }
            proof {
                if is_sorted_list(list) {
                    assert forall|k: int| 0 <= k < mid + 1 implies !lex_le(
                        target@,
                        #[trigger] list[k],
                    ) by {
                        if lex_le(target@, list[k]) {
                            assert(lex_le(list[k], list[mid as int]));
                            lemma_lex_le_transitive(target@, list[k], list[mid as int]);
                        }
                    }
                }
            }
            lo = mid + 1;
        } else {
            proof {
                if is_sorted_list(list) {
                    assert forall|k: int| mid <= k < list.len() implies !lex_le(
                        #[trigger] list[k],
                        target@,
                    ) by {
                        if lex_le(list[k], target@) {
                            assert(lex_le(list[mid as int], list[k]));
                            lemma_lex_le_transitive(list[mid as int], list[k], target@);
                        }
                    }
                }
            }
            hi = mid;
        }
    }
    proof {
        if is_sorted_list(list) && list.contains(target@) {
            let k = choose|k: int| 0 <= k < list.len() && list[k] == target@;
            lemma_lex_le_total(target@, target@);
        }
    }
    false
}

/// Whether `word`, put in lower case, stands in `wordlist`. The list is
/// searched by halving and has to be in dictionary order for a word in it
/// to be sure to be found.
pub fn is_valid_word(word: &str, wordlist: &Vec<String>) -> (valid: bool)
    ensures
        valid ==> wordlist.deep_view().contains(lowercase_of(word@)),
        is_sorted_list(wordlist.deep_view()) ==> valid == wordlist.deep_view().contains(
            lowercase_of(word@),
        ),
{
    let lowered = to_lowercase(word);
    let target = chars_of(lowered.as_str());
    find_in_sorted(wordlist, &target)
}

} // verus!
