//! A table from words to values, held as a list in which no word stands
//! twice.

use vstd::prelude::*;

verus! {

/// A table from words to values.
pub struct WordTable<V> {
    entries: Vec<(String, V)>,
    mapping: Ghost<Map<Seq<char>, V>>,
}

impl<V> View for WordTable<V> {
    type V = Map<Seq<char>, V>;

    /// The value of each word that has one.
    closed spec fn view(&self) -> Map<Seq<char>, V> {
        self.mapping@
    }
}

impl<V> WordTable<V> {
    /// Whether the table is in order inside: the list holds each word of
    /// the table once, with its value, and nothing else.
    pub closed spec fn wf(&self) -> bool {
        &&& forall|i: int|
            0 <= i < self.entries@.len() ==> self.mapping@.contains_pair(
                (#[trigger] self.entries@[i]).0@,
                self.entries@[i].1,
            )
        &&& forall|w: Seq<char>|
            self.mapping@.contains_key(w) ==> exists|i: int|
                0 <= i < self.entries@.len() && (#[trigger] self.entries@[i]).0@ == w
        &&& forall|i: int, j: int|
            0 <= i < self.entries@.len() && 0 <= j < self.entries@.len() && i != j ==> (
            #[trigger] self.entries@[i]).0@ != (#[trigger] self.entries@[j]).0@
    }

    /// The words and values one after the other, in the order in which
    /// the words came into the table.
    pub closed spec fn rows(&self) -> Seq<(String, V)> {
        self.entries@
    }

    /// What the rows of a table in order are: its words, each once, with
    /// their values.
    pub proof fn lemma_rows(&self)
        requires
            self.wf(),
        ensures
            forall|i: int|
                0 <= i < self.rows().len() ==> self@.contains_pair((#[trigger] self.rows()[i]).0@, self.rows()[i].1),
            forall|w: Seq<char>|
                self@.contains_key(w) ==> exists|i: int|
                    0 <= i < self.rows().len() && (#[trigger] self.rows()[i]).0@ == w,
            forall|i: int, j: int|
                0 <= i < self.rows().len() && 0 <= j < self.rows().len() && i != j ==> (
                #[trigger] self.rows()[i]).0@ != (#[trigger] self.rows()[j]).0@,
    {
        assert forall|w: Seq<char>| self@.contains_key(w) implies exists|i: int|
            0 <= i < self.rows().len() && (#[trigger] self.rows()[i]).0@ == w by {
            let i = choose|i: int| 0 <= i < self.entries@.len() && (#[trigger] self.entries@[i]).0@ == w;
            assert(self.rows()[i].0@ == w);
        }
    }

    /// The table without any word.
    pub fn new() -> (table: WordTable<V>)
        ensures
            table.wf(),
            table@ == Map::<Seq<char>, V>::empty(),
    {
        WordTable { entries: Vec::new(), mapping: Ghost(Map::empty()) }
    }

    /// Where `word` is held, if it is.
    fn position(&self, word: &String) -> (at: Option<usize>)
        requires
            self.wf(),
        ensures
            match at {
                Some(i) => i < self.entries@.len() && self.entries@[i as int].0@ == word@,
                None => !self@.contains_key(word@),
            },
    {
        let mut i: usize = 0;
        while i < self.entries.len()
            invariant
                i <= self.entries@.len(),
                forall|k: int| 0 <= k < i ==> (#[trigger] self.entries@[k]).0@ != word@,
            decreases self.entries@.len() - i,
        {
            if self.entries[i].0 == *word {
                return Some(i);
            }
            i += 1;
        }
        None
    }

    /// Gives `word` the value `value`, in place of the one it had if it
    /// had one.
    pub fn insert(&mut self, word: String, value: V)
        requires
            old(self).wf(),
        ensures
            final(self).wf(),
            final(self)@ == old(self)@.insert(word@, value),
    {
        let found = self.position(&word);
        let ghost before = self.entries@;
        if let Some(i) = found {
            self.entries.remove(i);
        }
        let ghost between = self.entries@;
        self.entries.push((word, value));
        proof {
            let ghost w = word@;
            self.mapping = Ghost(self.mapping@.insert(w, value));
            let ghost after = self.entries@;
            assert(after == between.push((word, value)));
            assert forall|k: int| 0 <= k < between.len() implies (#[trigger] between[k]).0@ != w
                && before.contains(between[k]) by {
                match found {
                    Some(i) => {
                        if k < i {
                            assert(between[k] == before[k]);
                        } else {
                            assert(between[k] == before[k + 1]);
                        }
                    },
                    None => {
                        assert(between[k] == before[k]);
                    },
                }
            }
            assert forall|k: int| 0 <= k < after.len() implies self.mapping@.contains_pair(
                (#[trigger] after[k]).0@,
                after[k].1,
            ) by {
                if k < between.len() {
                    assert(after[k] == between[k]);
                    let q = choose|q: int| 0 <= q < before.len() && before[q] == between[k];
                    assert(old(self).mapping@.contains_pair(before[q].0@, before[q].1));
                }
            }
            assert forall|v: Seq<char>| self.mapping@.contains_key(v) implies exists|k: int|
                0 <= k < after.len() && (#[trigger] after[k]).0@ == v by {
                if v == w {
                    assert(after[between.len() as int].0@ == v);
                } else {
                    assert(old(self).mapping@.contains_key(v));
                    let q = choose|q: int| 0 <= q < before.len() && (#[trigger] before[q]).0@ == v;
                    match found {
                        Some(i) => {
                            if q < i {
                                assert(after[q] == before[q]);
                            } else {
                                assert(after[q - 1] == before[q]);
                            }
                        },
                        None => {
                            assert(after[q] == before[q]);
                        },
                    }
                }
            }
            assert forall|a: int, b: int|
                0 <= a < after.len() && 0 <= b < after.len() && a != b implies (#[trigger] after[a]).0@
                != (#[trigger] after[b]).0@ by {
                let pos = |k: int|
                    match found {
                        Some(i) => if k < i {
                            k
                        } else {
                            k + 1
                        },
                        None => k,
                    };
                if a < between.len() {
                    assert(after[a] == between[a] && between[a] == before[pos(a)]);
                }
                if b < between.len() {
                    assert(after[b] == between[b] && between[b] == before[pos(b)]);
                }
            }
        }
    }

    /// Takes `word` and its value out of the table, if it is there.
    pub fn remove(&mut self, word: &str)
        requires
            old(self).wf(),
        ensures
            final(self).wf(),
            final(self)@ == old(self)@.remove(word@),
    {
        let target = word.to_owned();
        let found = self.position(&target);
        let ghost before = self.entries@;
        match found {
            Some(i) => {
                self.entries.remove(i);
                proof {
                    self.mapping = Ghost(self.mapping@.remove(word@));
                    let ghost after = self.entries@;
                    let pos = |k: int|
                        if k < i {
                            k
                        } else {
                            k + 1
                        };
                    assert forall|k: int| 0 <= k < after.len() implies #[trigger] after[k]
                        == before[pos(k)] by {}
                    assert forall|k: int| 0 <= k < after.len() implies self.mapping@.contains_pair(
                        (#[trigger] after[k]).0@,
                        after[k].1,
                    ) by {
                        assert(after[k] == before[pos(k)]);
                        assert(old(self).mapping@.contains_pair(before[pos(k)].0@, before[pos(k)].1));
                    }
                    assert forall|v: Seq<char>| self.mapping@.contains_key(v) implies exists|k: int|
                        0 <= k < after.len() && (#[trigger] after[k]).0@ == v by {
                        let q = choose|q: int| 0 <= q < before.len() && (#[trigger] before[q]).0@ == v;
                        if q < i {
                            assert(after[q] == before[q]);
                        } else {
                            assert(after[q - 1] == before[q]);
                        }
                    }
                    assert forall|a: int, b: int|
                        0 <= a < after.len() && 0 <= b < after.len() && a != b implies (
                    #[trigger] after[a]).0@ != (#[trigger] after[b]).0@ by {
                        assert(after[a] == before[pos(a)]);
                        assert(after[b] == before[pos(b)]);
                    }
                }
            },
            None => {
                proof {
                    assert(self.mapping@.remove(word@) =~= self.mapping@);
                }
            },
        }
    }

    /// The value of `word`, if it has one.
    pub fn get(&self, word: &str) -> (value: Option<&V>)
        requires
            self.wf(),
        ensures
            match value {
                Some(v) => self@.contains_pair(word@, *v),
                None => !self@.contains_key(word@),
            },
    {
        let target = word.to_owned();
        match self.position(&target) {
            Some(i) => {
                proof {
                    assert(self.mapping@.contains_pair(self.entries@[i as int].0@, self.entries@[i as int].1));
                }
                Some(&self.entries[i].1)
            },
            None => None,
        }
    }

    /// Whether `word` has a value.
    pub fn contains(&self, word: &str) -> (held: bool)
        requires
            self.wf(),
        ensures
            held == self@.contains_key(word@),
    {
        self.get(word).is_some()
    }

    /// Takes every word out of the table.
    pub fn clear(&mut self)
        ensures
            final(self).wf(),
            final(self)@ == Map::<Seq<char>, V>::empty(),
    {
        self.entries.clear();
        proof {
            self.mapping = Ghost(Map::empty());
        }
    }

    /// How many words the table holds.
    pub fn len(&self) -> (n: usize)
        ensures
            n == self.rows().len(),
    {
        self.entries.len()
    }

    /// The word and the value in row `i`.
    pub fn row(&self, i: usize) -> (entry: &(String, V))
        requires
            i < self.rows().len(),
        ensures
            *entry == self.rows()[i as int],
    {
        &self.entries[i]
    }
}

} // verus!
