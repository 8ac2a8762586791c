//! The words a player looked at last, newest first.

use vstd::prelude::*;
use std::collections::VecDeque;

verus! {

/// The test for a word other than `word`.
pub open spec fn other_than(word: Seq<char>) -> spec_fn(Seq<char>) -> bool {
    |w: Seq<char>| w != word
}

/// A history after `word` was added: the word in front, the earlier words
/// behind it without any that equal it, and the last of them dropped where
/// that makes more than `max_size`.
pub open spec fn with_added(history: Seq<Seq<char>>, word: Seq<char>, max_size: nat) -> Seq<Seq<char>> {
    let grown = seq![word] + history.filter(other_than(word));
    if grown.len() > max_size {
        grown.drop_last()
    } else {
        grown
    }
}

/// A bounded list of the words last seen, the newest in front.
pub struct WordHistory {
    words: VecDeque<String>,
    max_size: usize,
}

impl View for WordHistory {
    type V = Seq<Seq<char>>;

    /// The words, newest first.
    closed spec fn view(&self) -> Seq<Seq<char>> {
        self.words.deep_view()
    }
}

impl WordHistory {
    /// The number of words beyond which an added word pushes the oldest
    /// one out.
    pub closed spec fn limit(&self) -> nat {
        self.max_size as nat
    }

    /// A history that holds `stored`, newest first, and will keep
    /// `max_size` words. What was stored is taken as it is, even where it
    /// is longer than that or holds a word twice.
    pub fn new(max_size: usize, stored: Vec<String>) -> (history: WordHistory)
        ensures
            history@ == stored.deep_view(),
            history.limit() == max_size,
    {
        let mut words: VecDeque<String> = VecDeque::new();
        let mut i: usize = 0;
        while i < stored.len()
            invariant
                i <= stored.len(),
                words@.len() == i,
                forall|k: int| 0 <= k < i ==> #[trigger] words@[k]@ == stored@[k]@,
            decreases stored.len() - i,
        {
            words.push_back(stored[i].clone());
            i += 1;
        }
        proof {
            assert(words.deep_view() =~= stored.deep_view());
        }
        WordHistory { words, max_size }
    }

    /// Puts `word` in front. Where the history held the word already, it
    /// holds it in front only afterwards. Where it then holds more than
    /// its limit, the oldest word leaves.
    pub fn add(&mut self, word: String)
        ensures
            final(self)@ == with_added(old(self)@, word@, old(self).limit()),
            final(self).limit() == old(self).limit(),
    {
        let ghost before = self.words.deep_view();
        let ghost test = other_than(word@);
        let mut kept: VecDeque<String> = VecDeque::new();
        let ghost mut taken: int = 0;
        proof {
            reveal(Seq::filter);
            assert(before.take(0) =~= Seq::<Seq<char>>::empty());
            assert(kept.deep_view() =~= Seq::<Seq<char>>::empty());
            assert(self.words.deep_view() =~= before.skip(0));
        }
        loop
            invariant
                0 <= taken <= before.len(),
                test == other_than(word@),
                self.words.deep_view() == before.skip(taken),
                kept.deep_view() == before.take(taken).filter(test),
                self.max_size == old(self).max_size,
            ensures
                taken == before.len(),
            decreases before.len() - taken,
        {
            let ghost rest = self.words.deep_view();
            let ghost rest_words = self.words@;
            match self.words.pop_front() {
                None => {
                    break;
                },
                Some(w) => {
                    proof {
                        assert(rest.len() == rest_words.len());
                        assert(rest[0] == rest_words[0]@);
                        assert(rest[0] == before[taken]);
                        assert(self.words.deep_view() =~= rest.skip(1));
                        assert(rest.skip(1) =~= before.skip(taken + 1));
                        assert(before.take(taken + 1) =~= before.take(taken).push(w@));
                        before.take(taken).lemma_filter_push(w@, test);
                        assert(self.words.deep_view() =~= before.skip(taken + 1));
                    }
                    if w != word {
                        let ghost held = kept.deep_view();
                        kept.push_back(w);
                        proof {
                            assert(kept.deep_view() =~= held.push(w@));
                        }
                    }
                    proof {
                        taken = taken + 1;
                    }
                },
            }
        }
        let ghost others = kept.deep_view();
        kept.push_front(word);
        proof {
            assert(before.take(taken) =~= before);
            assert(kept.deep_view() =~= seq![word@] + others);
        }
        if kept.len() > self.max_size {
            let ghost grown = kept.deep_view();
            kept.pop_back();
            proof {
                assert(kept.deep_view() =~= grown.drop_last());
            }
        }
        self.words = kept;
    }

    /// All the words, newest first.
    pub fn get_all(&self) -> (words: Vec<String>)
        ensures
            words.deep_view() == self@,
    {
        let mut words: Vec<String> = Vec::new();
        let mut i: usize = 0;
        while i < self.words.len()
            invariant
                i <= self.words@.len(),
                words@.len() == i,
                forall|k: int| 0 <= k < i ==> #[trigger] words@[k]@ == self.words@[k]@,
            decreases self.words@.len() - i,
        {
            words.push(self.words[i].clone());
            i += 1;
        }
        proof {
            assert(words.deep_view() =~= self.words.deep_view());
        }
        words
    }
}

} // verus!
