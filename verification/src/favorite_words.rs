//! The words a player marked as favourites, each with the time at which
//! it was marked.

use vstd::prelude::*;
use crate::sorting::{as_ints, sorted_positions, KeyColumn};
use crate::word_table::WordTable;

verus! {

/// The favourites that a list of stored entries stands for. Where a word
/// is stored twice, the later entry counts.
pub open spec fn stored_favorites(stored: Seq<(String, u64)>) -> Map<Seq<char>, u64>
    decreases stored.len(),
{
    if stored.len() == 0 {
        Map::empty()
    } else {
        stored_favorites(stored.drop_last()).insert(stored.last().0@, stored.last().1)
    }
}

/// A set of favourite words, each with a time stamp.
pub struct FavoriteWords {
    words: WordTable<u64>,
}

impl View for FavoriteWords {
    type V = Map<Seq<char>, u64>;

    /// The time stamp of each favourite word.
    closed spec fn view(&self) -> Map<Seq<char>, u64> {
        self.words@
    }
}

impl FavoriteWords {
    /// Whether the set is in order inside.
    pub closed spec fn wf(&self) -> bool {
        self.words.wf()
    }

    /// The favourites that were stored, as `stored` lists them.
    pub fn new(stored: Vec<(String, u64)>) -> (favorites: FavoriteWords)
        ensures
            favorites.wf(),
            favorites@ == stored_favorites(stored@),
    {
        let mut favorites = FavoriteWords { words: WordTable::new() };
        let mut i: usize = 0;
        proof {
            assert(stored@.take(0) =~= Seq::<(String, u64)>::empty());
        }
        while i < stored.len()
            invariant
                i <= stored.len(),
                favorites.wf(),
                favorites@ == stored_favorites(stored@.take(i as int)),
            decreases stored.len() - i,
        {
            proof {
                assert(stored@.take(i + 1).drop_last() =~= stored@.take(i as int));
            }
            favorites.add(stored[i].0.clone(), stored[i].1);
            i += 1;
        }
        proof {
            assert(stored@.take(i as int) =~= stored@);
        }
        favorites
    }

    /// Marks `word` as a favourite at the time `now`. A word that was a
    /// favourite already gets the new time.
    pub fn add(&mut self, word: String, now: u64)
        requires
            old(self).wf(),
        ensures
            final(self).wf(),
            final(self)@ == old(self)@.insert(word@, now),
    {
        self.words.insert(word, now);
    }

    /// Takes `word` out of the favourites, if it is one.
    pub fn remove(&mut self, word: &str)
        requires
            old(self).wf(),
        ensures
            final(self).wf(),
            final(self)@ == old(self)@.remove(word@),
    {
        self.words.remove(word);
    }

    /// Whether `word` is a favourite.
    pub fn contains(&self, word: &str) -> (held: bool)
        requires
            self.wf(),
        ensures
            held == self@.contains_key(word@),
    {
        self.words.contains(word)
    }

    /// All favourites with their time stamps, each once, the one marked
    /// last in front. In which order favourites of one time stamp follow
    /// each other is left open.
    pub fn get_all(&self) -> (all: Vec<(String, u64)>)
        requires
            self.wf(),
        ensures
            forall|i: int| 0 <= i < all@.len() ==> self@.contains_pair((#[trigger] all@[i]).0@, all@[i].1),
            forall|w: Seq<char>|
                self@.contains_key(w) ==> exists|i: int| 0 <= i < all@.len() && (#[trigger] all@[i]).0@ == w,
            forall|i: int, j: int|
                0 <= i < all@.len() && 0 <= j < all@.len() && i != j ==> (#[trigger] all@[i]).0@ != (
                #[trigger] all@[j]).0@,
            forall|i: int, j: int| 0 <= i < j < all@.len() ==> (#[trigger] all@[i]).1 >= (#[trigger] all@[j]).1,
    {
        let ghost rows = self.words.rows();
        proof {
            self.words.lemma_rows();
        }
        let mut keys: Vec<u64> = Vec::new();
        let mut i: usize = 0;
        while i < self.words.len()
            invariant
                i <= rows.len(),
                rows == self.words.rows(),
                keys@.len() == i,
                forall|k: int| 0 <= k < i ==> #[trigger] keys@[k] == u64::MAX - rows[k].1,
            decreases rows.len() - i,
        {
            keys.push(u64::MAX - self.words.row(i).1);
            i += 1;
        }
        let column = KeyColumn::Numbers(keys);
        let order = sorted_positions(&column);
        let ghost perm = as_ints(order@);
        let mut all: Vec<(String, u64)> = Vec::new();
        let mut n: usize = 0;
        while n < order.len()
            invariant
                n <= order@.len(),
                rows == self.words.rows(),
                order@.len() == rows.len(),
                forall|k: int| 0 <= k < order@.len() ==> 0 <= #[trigger] perm[k] < rows.len(),
                perm == as_ints(order@),
                all@.len() == n,
                forall|k: int|
                    0 <= k < n ==> (#[trigger] all@[k]).0@ == rows[perm[k]].0@ && all@[k].1 == rows[perm[k]].1,
            decreases order@.len() - n,
        {
            proof {
                assert(perm[n as int] == order@[n as int]);
            }
            let entry = self.words.row(order[n]);
            all.push((entry.0.clone(), entry.1));
            n += 1;
        }
        proof {
            assert forall|k: int| 0 <= k < all@.len() implies self@.contains_pair(
                (#[trigger] all@[k]).0@,
                all@[k].1,
            ) by {
                assert(self.words@.contains_pair(rows[perm[k]].0@, rows[perm[k]].1));
            }
            assert forall|w: Seq<char>| self@.contains_key(w) implies exists|k: int|
                0 <= k < all@.len() && (#[trigger] all@[k]).0@ == w by {
                let q = choose|q: int| 0 <= q < rows.len() && (#[trigger] rows[q]).0@ == w;
                assert(perm.contains(q));
                let k = choose|k: int| 0 <= k < perm.len() && perm[k] == q;
                assert(all@[k].0@ == w);
            }
            assert forall|a: int, b: int|
                0 <= a < all@.len() && 0 <= b < all@.len() && a != b implies (#[trigger] all@[a]).0@ != (
            #[trigger] all@[b]).0@ by {
                assert(perm[a] != perm[b]);
            }
            assert forall|a: int, b: int| 0 <= a < b < all@.len() implies (#[trigger] all@[a]).1 >= (
            #[trigger] all@[b]).1 by {
                assert(column.before(order@[a] as int, order@[b] as int));
            }
        }
        all
    }
}

/// Takes every word out of the favourites.
pub fn clear_favorite_words(favorite_words: &mut FavoriteWords)
    ensures
        final(favorite_words).wf(),
        final(favorite_words)@ == Map::<Seq<char>, u64>::empty(),
{
    favorite_words.words.clear();
}

} // verus!
