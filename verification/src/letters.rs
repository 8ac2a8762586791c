//! Finding the words of a list that can be laid out with a given pool of
//! letters.

use vstd::prelude::*;
use vstd::multiset::Multiset;
use crate::chars::{chars_of, is_lower};
use crate::letter_multiset::{
    build_multiset, holds_letters_only, is_subset, lemma_letters_only,
    lemma_normalized_of_letters, normalized, tally_letters, LetterMultiset,
};
use crate::lines::{lines_of, split_lines};
use crate::pattern::{
    class_admits, compile_pattern, is_letter_class, letter_class_source, matches_letter_class,
    pattern_matches, regex_accepts,
};
use crate::sorting::{
    arrange, as_ints, is_stable_order, is_stable_sort_of, keeps_order,
    lemma_stable_sort_members, rearranged, sorted_positions, KeyColumn,
};

verus! {

/// What the candidate filter lets through: a word of at least `min`
/// characters, each of which the pool holds at least once. How often a
/// letter is used is not looked at here.
pub open spec fn spelled_with(pool: Multiset<char>, min: nat, word: Seq<char>) -> bool {
    &&& word.len() >= min
    &&& forall|i: int| 0 <= i < word.len() ==> pool.count(#[trigger] word[i]) > 0
}

/// `spelled_with` as a predicate on words.
pub open spec fn passes_filter(pool: Multiset<char>, min: nat) -> spec_fn(Seq<char>) -> bool {
    |word: Seq<char>| spelled_with(pool, min, word)
}

/// Whether `word` has at least `min` characters and can be laid out with
/// the letters of `pool`, each letter used no more often than the pool
/// holds it.
pub open spec fn fits(pool: Multiset<char>, min: nat, word: Seq<char>) -> bool {
    &&& word.len() >= min
    &&& word.to_multiset().subset_of(pool)
}

/// `fits` as a predicate on words.
pub open spec fn fitting(pool: Multiset<char>, min: nat) -> spec_fn(Seq<char>) -> bool {
    |word: Seq<char>| fits(pool, min, word)
}

/// The pool of letters that an input gives the player.
pub open spec fn letter_pool(input: Seq<char>) -> Multiset<char> {
    normalized(input).to_multiset()
}

/// The lines of `wordlist` that fit the letters of `input`, in the order
/// of the list.
pub open spec fn anagrams_of(input: Seq<char>, wordlist: Seq<char>, min: nat) -> Seq<Seq<char>> {
    lines_of(wordlist).filter(fitting(letter_pool(input), min))
}

/// The ranking that puts longer words first.
pub open spec fn longest_first() -> spec_fn(Seq<char>, Seq<char>) -> bool {
    |a: Seq<char>, b: Seq<char>| a.len() >= b.len()
}

/// A word that fits the pool of an input is made of lowercase letters.
pub proof fn lemma_fitting_word_is_lower(input: Seq<char>, min: nat, word: Seq<char>)
    requires
        fits(letter_pool(input), min, word),
    ensures
        forall|j: int| 0 <= j < word.len() ==> is_lower(#[trigger] word[j]),
{
    lemma_letters_only(input);
    lemma_fits_passes_filter(letter_pool(input), min, word);
}

/// A word that fits a pool passes the candidate filter for it.
pub proof fn lemma_fits_passes_filter(pool: Multiset<char>, min: nat, word: Seq<char>)
    requires
        fits(pool, min, word),
    ensures
        spelled_with(pool, min, word),
{
    broadcast use vstd::seq_lib::group_to_multiset_ensures;

    assert forall|i: int| 0 <= i < word.len() implies pool.count(#[trigger] word[i]) > 0 by {
        assert(word.contains(word[i]));
        assert(word.to_multiset().count(word[i]) > 0);
    }
}

/// Filtering by a weaker test first changes nothing.
pub proof fn lemma_filter_refines<A>(s: Seq<A>, p: spec_fn(A) -> bool, q: spec_fn(A) -> bool)
    requires
        forall|x: A| #[trigger] q(x) ==> p(x),
    ensures
        s.filter(p).filter(q) == s.filter(q),
    decreases s.len(),
{
    if s.len() == 0 {
        reveal(Seq::filter);
    } else {
        let front = s.drop_last();
        lemma_filter_refines(front, p, q);
        assert(s == front.push(s.last()));
        front.lemma_filter_push(s.last(), p);
        front.lemma_filter_push(s.last(), q);
        if p(s.last()) {
            front.filter(p).lemma_filter_push(s.last(), q);
        }
    }
}

/// Soundness: whatever is found has the length asked for and can be laid
/// out with the letters of the input; it is made of lowercase letters.
pub proof fn lemma_found_words_fit(
    found: Seq<Seq<char>>,
    input: Seq<char>,
    wordlist: Seq<char>,
    min: nat,
)
    requires
        is_stable_sort_of(found, anagrams_of(input, wordlist, min), longest_first()),
    ensures
        forall|i: int| 0 <= i < found.len() ==> fits(letter_pool(input), min, #[trigger] found[i]),
        forall|i: int, j: int|
            0 <= i < found.len() && 0 <= j < found[i].len() ==> is_lower(#[trigger] found[i][j]),
{
    let lines = lines_of(wordlist);
    let test = fitting(letter_pool(input), min);
    let src = anagrams_of(input, wordlist, min);
    lemma_stable_sort_members(found, src, longest_first());
    assert forall|i: int| 0 <= i < found.len() implies fits(letter_pool(input), min, #[trigger] found[i]) by {
        assert(src.contains(found[i]));
        let k = choose|k: int| 0 <= k < src.len() && src[k] == found[i];
        lines.lemma_filter_pred(test, k);
    }
    assert forall|i: int, j: int| 0 <= i < found.len() && 0 <= j < found[i].len() implies is_lower(
        #[trigger] found[i][j],
    ) by {
        lemma_fitting_word_is_lower(input, min, found[i]);
    }
}

/// Completeness: every line of the list that has the length asked for and
/// can be laid out with the letters of the input is found.
pub proof fn lemma_fitting_lines_are_found(
    found: Seq<Seq<char>>,
    input: Seq<char>,
    wordlist: Seq<char>,
    min: nat,
)
    requires
        is_stable_sort_of(found, anagrams_of(input, wordlist, min), longest_first()),
    ensures
        forall|k: int|
            0 <= k < lines_of(wordlist).len() && fits(
                letter_pool(input),
                min,
                #[trigger] lines_of(wordlist)[k],
            ) ==> found.contains(lines_of(wordlist)[k]),
{
    let lines = lines_of(wordlist);
    let test = fitting(letter_pool(input), min);
    let src = anagrams_of(input, wordlist, min);
    lemma_stable_sort_members(found, src, longest_first());
    assert forall|k: int|
        0 <= k < lines.len() && fits(letter_pool(input), min, #[trigger] lines[k])
        implies found.contains(lines[k]) by {
        lines.lemma_filter_contains(test, k);
        let q = choose|q: int| 0 <= q < src.len() && src[q] == lines[k];
        assert(found.contains(src[q]));
    }
}

/// What is found comes longest first.
pub proof fn lemma_found_longest_first(
    found: Seq<Seq<char>>,
    input: Seq<char>,
    wordlist: Seq<char>,
    min: nat,
)
    requires
        is_stable_sort_of(found, anagrams_of(input, wordlist, min), longest_first()),
    ensures
        forall|i: int, j: int|
            0 <= i < j < found.len() ==> (#[trigger] found[i]).len() >= (#[trigger] found[j]).len(),
{
    let src = anagrams_of(input, wordlist, min);
    let perm = choose|perm: Seq<int>| #[trigger]
        is_stable_order(src, perm, longest_first()) && found == rearranged(src, perm);
    assert forall|i: int, j: int| 0 <= i < j < found.len() implies (#[trigger] found[i]).len() >= (
    #[trigger] found[j]).len() by {
        assert(found[i] == src[perm[i]]);
        assert(found[j] == src[perm[j]]);
        if perm[i] < perm[j] {
            assert(longest_first()(src[perm[i]], src[perm[j]]));
        } else {
            assert(!longest_first()(src[perm[j]], src[perm[i]]));
        }
    }
}

/// Tests a word against the candidate filter letter by letter.
fn spells(word: &str, pool: &LetterMultiset, min: usize) -> (b: bool)
    ensures
        b == spelled_with(pool@, min as nat, word@),
{
    let chars = chars_of(word);
    if chars.len() < min {
        return false;
    }
    let mut i: usize = 0;
    while i < chars.len()
        invariant
            i <= chars.len(),
            chars@ == word@,
            forall|j: int| 0 <= j < i ==> pool@.count(#[trigger] chars@[j]) > 0,
        decreases chars.len() - i,
    {
        if pool.count(chars[i]) == 0 {
            proof {
                assert(pool@.count(word@[i as int]) == 0);
            }
            return false;
        }
        i += 1;
    }
    true
}

/// Narrows a word list down to the lines of at least `min_length`
/// characters that are spelled with letters of `pool` only, in the order of
/// the list. Lines are taken as they stand, so a line with an uppercase
/// letter does not pass. With an empty pool only an empty line can pass,
/// and only where `min_length` is 0.
///
/// The test is run as the pattern `^[letters]{min_length,}$` where the
/// pattern engine accepts it; with no letter for the class, or a pattern
/// that the engine rejects, each line is tested directly.
pub fn filter_candidates(wordlist: &str, pool: &LetterMultiset, min_length: usize) -> (found: Vec<
    String,
>)
    ensures
        found.deep_view() == lines_of(wordlist@).filter(passes_filter(pool@, min_length as nat)),
{
    let lines = split_lines(wordlist);
    let letters = pool.distinct_letters();
    let matcher = if letters.len() == 0 {
        None
    } else {
        let source = letter_class_source(&letters, min_length);
        compile_pattern(source.as_str())
    };
    proof {
        if matcher is Some {
            assert(is_letter_class(letters@));
            assert(matches_letter_class(matcher->Some_0, letters@, min_length as nat));
        }
        reveal(Seq::filter);
        assert(lines.deep_view().take(0) =~= Seq::<Seq<char>>::empty());
    }
    let ghost test = passes_filter(pool@, min_length as nat);
    let mut found: Vec<String> = Vec::new();
    let mut i: usize = 0;
    while i < lines.len()
        invariant
            i <= lines.len(),
            test == passes_filter(pool@, min_length as nat),
            forall|c: char| letters@.contains(c) <==> pool@.count(c) > 0,
            matcher is Some ==> matches_letter_class(matcher->Some_0, letters@, min_length as nat),
            found.deep_view() == lines.deep_view().take(i as int).filter(test),
        decreases lines.len() - i,
    {
        let line = &lines[i];
        let keep = match &matcher {
            Some(re) => {
                let hit = pattern_matches(re, line.as_str());
                proof {
                    assert(hit == regex_accepts(*re, line@));
                    assert(hit == class_admits(letters@, min_length as nat, line@));
                    assert(class_admits(letters@, min_length as nat, line@) == spelled_with(
                        pool@,
                        min_length as nat,
                        line@,
                    ));
                }
                hit
            },
            None => spells(line.as_str(), pool, min_length),
        };
        proof {
            let all = lines.deep_view();
            assert(all.take(i + 1) =~= all.take(i as int).push(line@));
            all.take(i as int).lemma_filter_push(line@, test);
            assert(keep == test(line@));
        }
        if keep {
            let ghost before = found.deep_view();
            found.push(line.clone());
            proof {
                assert(found.deep_view() =~= before.push(line@));
            }
        }
        i += 1;
    }
    proof {
        assert(lines.deep_view().take(i as int) =~= lines.deep_view());
    }
    found
}

/// Finds every line of `wordlist` that has at least `min_word_length`
/// characters and can be laid out with the letters of `input`, each letter
/// used no more often than `input` holds it. The words come longest first,
/// words of one length in the order of the list. The input is handed back
/// beside them as it was given.
///
/// Of `input` only the letters count, upper case taken as lower case. The
/// lines of the list are taken as they stand. That no line fits is no
/// failure: the words are then none.
pub fn letters(input: &str, wordlist: &str, min_word_length: usize) -> (r: (Vec<String>, String))
    ensures
        r.1@ == input@,
        is_stable_sort_of(
            r.0.deep_view(),
            anagrams_of(input@, wordlist@, min_word_length as nat),
            longest_first(),
        ),
        forall|i: int|
            0 <= i < r.0.deep_view().len() ==> fits(
                letter_pool(input@),
                min_word_length as nat,
                #[trigger] r.0.deep_view()[i],
            ),
        forall|i: int, j: int|
            0 <= i < r.0.deep_view().len() && 0 <= j < r.0.deep_view()[i].len() ==> is_lower(
                #[trigger] r.0.deep_view()[i][j],
            ),
        forall|k: int|
            0 <= k < lines_of(wordlist@).len() && fits(
                letter_pool(input@),
                min_word_length as nat,
                #[trigger] lines_of(wordlist@)[k],
            ) ==> r.0.deep_view().contains(lines_of(wordlist@)[k]),
        forall|i: int, j: int|
            0 <= i < j < r.0.deep_view().len() ==> (#[trigger] r.0.deep_view()[i]).len() >= (
            #[trigger] r.0.deep_view()[j]).len(),
{
    let pool = build_multiset(input);
    let ghost min = min_word_length as nat;
    let candidates = filter_candidates(wordlist, &pool, min_word_length);
    let ghost all = lines_of(wordlist@);
    let ghost pre = passes_filter(pool@, min);
    let ghost test = fitting(pool@, min);
    let mut kept: Vec<String> = Vec::new();
    let mut keys: Vec<u64> = Vec::new();
    let mut i: usize = 0;
    proof {
        reveal(Seq::filter);
        assert(candidates.deep_view().take(0) =~= Seq::<Seq<char>>::empty());
    }
    while i < candidates.len()
        invariant
            i <= candidates.len(),
            holds_letters_only(pool@),
            pre == passes_filter(pool@, min),
            test == fitting(pool@, min),
            candidates.deep_view() == all.filter(pre),
            kept.deep_view() == candidates.deep_view().take(i as int).filter(test),
            keys@.len() == kept@.len(),
            forall|k: int| 0 <= k < keys@.len() ==> #[trigger] keys@[k] == u64::MAX - kept@[k]@.len(),
        decreases candidates.len() - i,
    {
        let word = &candidates[i];
        let chars = chars_of(word.as_str());
        let tally = tally_letters(&chars);
        let keep = is_subset(&tally, &pool);
        proof {
            let found = candidates.deep_view();
            assert(found[i as int] == word@);
            all.lemma_filter_pred(pre, i as int);
            assert(spelled_with(pool@, min, word@));
            assert forall|j: int| 0 <= j < word@.len() implies is_lower(#[trigger] word@[j]) by {
                assert(pool@.count(word@[j]) > 0);
            }
            lemma_normalized_of_letters(word@);
            assert(keep == test(word@));
            assert(found.take(i + 1) =~= found.take(i as int).push(word@));
            found.take(i as int).lemma_filter_push(word@, test);
        }
        if keep {
            let ghost before = kept.deep_view();
            kept.push(word.clone());
            keys.push(u64::MAX - chars.len() as u64);
            proof {
                assert(kept.deep_view() =~= before.push(word@));
            }
        }
        i += 1;
    }
    let ghost src = kept.deep_view();
    proof {
        assert(candidates.deep_view().take(i as int) =~= candidates.deep_view());
        assert forall|w: Seq<char>| #[trigger] test(w) implies pre(w) by {
            lemma_fits_passes_filter(pool@, min, w);
        }
        lemma_filter_refines(all, pre, test);
        assert(src == anagrams_of(input@, wordlist@, min));
    }
    let column = KeyColumn::Numbers(keys);
    let order = sorted_positions(&column);
    proof {
        assert forall|k: int| 0 <= k < order@.len() implies #[trigger] order@[k] < kept@.len() by {
            assert(as_ints(order@)[k] < column.rows());
        }
    }
    let words = arrange(&kept, &order);
    proof {
        let perm = as_ints(order@);
        let le = longest_first();
        assert forall|a: int, b: int|
            #![trigger perm[a], perm[b]]
            0 <= a < b < perm.len() implies if perm[a] < perm[b] {
            le(src[perm[a]], src[perm[b]])
        } else {
            !le(src[perm[b]], src[perm[a]])
        } by {
            assert(column.before(order@[a] as int, order@[b] as int));
        }
        assert(keeps_order(src, perm, le));
        assert(is_stable_order(src, perm, le) && words.deep_view() == rearranged(src, perm));
        lemma_found_words_fit(words.deep_view(), input@, wordlist@, min);
        lemma_fitting_lines_are_found(words.deep_view(), input@, wordlist@, min);
        lemma_found_longest_first(words.deep_view(), input@, wordlist@, min);
    }
    (words, input.to_owned())
}

} // verus!
