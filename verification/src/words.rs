//! Word lists in which white space separates the words.

use vstd::prelude::*;
use crate::chars::{chars_of, string_of};

verus! {

/// Whether `char::is_whitespace` holds of `c`.
pub uninterp spec fn is_whitespace(c: char) -> bool;

/// Asks `char::is_whitespace` whether `c` is white space.
///
/// Trusted: the result depends on the character alone.
#[verifier::external_body]
pub(crate) fn whitespace(c: char) -> (b: bool)
    ensures
        b == is_whitespace(c),
{
    c.is_whitespace()
}

/// How many characters stand at the start of `text` before its first
/// white space; all of them where it holds none.
pub open spec fn word_length(text: Seq<char>) -> int
    decreases text.len(),
{
    if text.len() == 0 || is_whitespace(text[0]) {
        0
    } else {
        1 + word_length(text.skip(1))
    }
}

/// The words of `text`: the runs of characters that are no white space,
/// each as long as it can be, in order. White space at either end and any
/// amount of it between two words counts for nothing.
pub open spec fn words_of(text: Seq<char>) -> Seq<Seq<char>>
    decreases text.len(),
{
    let k = word_length(text);
    if text.len() == 0 {
        Seq::empty()
    } else if is_whitespace(text[0]) {
        words_of(text.skip(1))
    } else if k <= 0 || k > text.len() {
        seq![text]
    } else {
        seq![text.take(k)] + words_of(text.skip(k))
    }
}

/// The first word of a text is `k` long where no white space stands
/// before `k` and white space stands at `k`, or the text ends there.
pub proof fn lemma_word_length(text: Seq<char>, k: int)
    requires
        0 <= k <= text.len(),
        forall|j: int| 0 <= j < k ==> !is_whitespace(text[j]),
        k == text.len() || is_whitespace(text[k]),
    ensures
        word_length(text) == k,
    decreases k,
{
    if k > 0 {
        let rest = text.skip(1);
        assert forall|j: int| 0 <= j < k - 1 implies !is_whitespace(rest[j]) by {
            assert(rest[j] == text[j + 1]);
        }
        lemma_word_length(rest, k - 1);
    }
}

/// Cuts a text into its words.
pub fn split_words(text: &str) -> (words: Vec<String>)
    ensures
        words.deep_view() == words_of(text@),
{
    let chars = chars_of(text);
    let mut words: Vec<String> = Vec::new();
    let mut current: Vec<char> = Vec::new();
    let ghost mut start: int = 0;
    let mut i: usize = 0;
    proof {
        assert(chars@.skip(0) =~= chars@);
        assert(words.deep_view() =~= Seq::<Seq<char>>::empty());
        assert(Seq::<Seq<char>>::empty() + words_of(chars@) =~= words_of(chars@));
        assert(current@ =~= chars@.subrange(0, 0));
    }
    while i < chars.len()
        invariant
            0 <= start <= i <= chars.len(),
            current@ == chars@.subrange(start, i as int),
            forall|j: int| start <= j < i ==> !is_whitespace(chars@[j]),
            words_of(chars@) == words.deep_view() + words_of(chars@.skip(start)),
        decreases chars.len() - i,
    {
        let c = chars[i];
        if whitespace(c) {
            let ghost rest = chars@.skip(start);
            let ghost behind = chars@.skip(i as int);
            proof {
                assert(behind[0] == c);
                assert(behind.skip(1) =~= chars@.skip(i + 1));
            }
            if current.len() > 0 {
                proof {
                    assert forall|j: int| 0 <= j < i - start implies !is_whitespace(rest[j]) by {
                        assert(rest[j] == chars@[start + j]);
                    }
                    assert(rest[i - start] == c);
                    lemma_word_length(rest, i - start);
                    assert(rest[0] == chars@[start]);
                    assert(rest.take(i - start) =~= current@);
                    assert(rest.skip(i - start) =~= behind);
                    assert(!is_whitespace(rest[0]));
                    assert(words_of(rest) == seq![current@] + words_of(behind));
                    assert(words_of(behind) == words_of(chars@.skip(i + 1)));
                }
                let word = string_of(&current);
                let ghost before = words.deep_view();
                words.push(word);
                proof {
                    assert(words.deep_view() =~= before.push(current@));
                    assert(before + (seq![current@] + words_of(chars@.skip(i + 1)))
                        =~= before.push(current@) + words_of(chars@.skip(i + 1)));
                }
                current = Vec::new();
            } else {
                proof {
                    assert(rest =~= behind);
                    assert(words_of(behind) == words_of(chars@.skip(i + 1)));
                }
            }
            proof {
                start = i + 1;
                assert(current@ =~= chars@.subrange(start, i + 1));
            }
        } else {
            current.push(c);
            proof {
                assert(current@ =~= chars@.subrange(start, i + 1));
            }
        }
        i += 1;
    }
    let ghost rest = chars@.skip(start);
    if current.len() > 0 {
        proof {
            assert forall|j: int| 0 <= j < rest.len() implies !is_whitespace(rest[j]) by {
                assert(rest[j] == chars@[start + j]);
            }
            lemma_word_length(rest, rest.len() as int);
            assert(rest =~= current@);
            assert(rest[0] == chars@[start]);
            assert(rest.take(rest.len() as int) =~= rest);
            assert(rest.skip(rest.len() as int) =~= Seq::<char>::empty());
            assert(!is_whitespace(rest[0]));
            assert(words_of(Seq::<char>::empty()) =~= Seq::<Seq<char>>::empty());
            assert(words_of(rest) =~= seq![rest]);
        }
        let word = string_of(&current);
        let ghost before = words.deep_view();
        words.push(word);
        proof {
            assert(words.deep_view() =~= before + seq![rest]);
        }
    } else {
        proof {
            assert(rest.len() == 0);
            assert(words.deep_view() + Seq::<Seq<char>>::empty() =~= words.deep_view());
        }
    }
    words
}

} // verus!
