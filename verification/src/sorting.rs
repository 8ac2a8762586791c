//! Stable sorting: what it means for one sequence to be another one sorted
//! with ties left in place, and a merge sort over row numbers that delivers
//! it.

use vstd::prelude::*;

verus! {

/// Whether `perm` lists each of the positions `0..n` exactly once.
pub open spec fn is_arrangement(perm: Seq<int>, n: nat) -> bool {
    &&& perm.len() == n
    &&& forall|i: int| 0 <= i < perm.len() ==> 0 <= #[trigger] perm[i] < n
    &&& perm.no_duplicates()
    &&& forall|k: int| 0 <= k < n ==> perm.contains(k)
}

/// The elements of `src` in the order in which `perm` lists their
/// positions.
pub open spec fn rearranged<A>(src: Seq<A>, perm: Seq<int>) -> Seq<A> {
    Seq::new(perm.len(), |i: int| src[perm[i]])
}

/// Whether listing `src` in the order of `perm` puts it in ascending order
/// by `le` with ties left as they were: of two elements, the one listed
/// first is not greater where it also came first in `src`, and strictly
/// smaller where it came second.
pub open spec fn keeps_order<A>(src: Seq<A>, perm: Seq<int>, le: spec_fn(A, A) -> bool) -> bool {
    forall|i: int, j: int|
        #![trigger perm[i], perm[j]]
        0 <= i < j < perm.len() ==> if perm[i] < perm[j] {
            le(src[perm[i]], src[perm[j]])
        } else {
            !le(src[perm[j]], src[perm[i]])
        }
}

/// Whether `perm` is the order in which a stable sort by `le` lists the
/// positions of `src`.
pub open spec fn is_stable_order<A>(src: Seq<A>, perm: Seq<int>, le: spec_fn(A, A) -> bool) -> bool {
    is_arrangement(perm, src.len()) && keeps_order(src, perm, le)
}

/// Whether `dst` is `src` sorted by `le`, elements that `le` ranks alike
/// staying in the order they had in `src`.
pub open spec fn is_stable_sort_of<A>(dst: Seq<A>, src: Seq<A>, le: spec_fn(A, A) -> bool) -> bool {
    exists|perm: Seq<int>| #[trigger] is_stable_order(src, perm, le) && dst == rearranged(src, perm)
}

/// Listing a sequence in another order neither drops nor repeats anything.
pub proof fn lemma_rearranged_multiset<A>(src: Seq<A>, perm: Seq<int>)
    requires
        is_arrangement(perm, src.len()),
    ensures
        rearranged(src, perm).to_multiset() == src.to_multiset(),
    decreases src.len(),
{
    broadcast use vstd::seq_lib::group_to_multiset_ensures;

    let dst = rearranged(src, perm);
    if src.len() == 0 {
        assert(dst =~= src);
    } else {
        let m = src.len() - 1;
        assert(perm.contains(m));
        let p = choose|p: int| 0 <= p < perm.len() && perm[p] == m;
        let rest = perm.remove(p);
        let front = src.drop_last();
        assert forall|i: int| 0 <= i < rest.len() implies 0 <= #[trigger] rest[i] < front.len() by {
            if i < p {
                assert(rest[i] == perm[i]);
            } else {
                assert(rest[i] == perm[i + 1]);
            }
        }
        assert(rest.no_duplicates()) by {
            assert forall|i: int, j: int| 0 <= i < rest.len() && 0 <= j < rest.len() && i != j
                implies rest[i] != rest[j] by {
                let a = if i < p { i } else { i + 1 };
                let b = if j < p { j } else { j + 1 };
                assert(rest[i] == perm[a] && rest[j] == perm[b]);
            }
        }
        assert forall|k: int| 0 <= k < front.len() implies rest.contains(k) by {
            assert(perm.contains(k));
            let q = choose|q: int| 0 <= q < perm.len() && perm[q] == k;
            if q < p {
                assert(rest[q] == k);
            } else {
                assert(rest[q - 1] == k);
            }
        }
        lemma_rearranged_multiset(front, rest);
        assert(rearranged(front, rest) =~= dst.remove(p));
        vstd::seq_lib::to_multiset_remove(dst, p);
        assert(dst.to_multiset().count(dst[p]) > 0) by {
            assert(dst.contains(dst[p]));
        }
        assert(dst.to_multiset() =~= dst.remove(p).to_multiset().insert(dst[p]));
        assert(src =~= front.push(src[m]));
        vstd::seq_lib::to_multiset_build(front, src[m]);
    }
}

/// A stable sort hands back what it was given, in another order.
pub proof fn lemma_stable_sort_multiset<A>(dst: Seq<A>, src: Seq<A>, le: spec_fn(A, A) -> bool)
    requires
        is_stable_sort_of(dst, src, le),
    ensures
        dst.len() == src.len(),
        dst.to_multiset() == src.to_multiset(),
{
    let perm = choose|perm: Seq<int>| #[trigger]
        is_stable_order(src, perm, le) && dst == rearranged(src, perm);
    lemma_rearranged_multiset(src, perm);
}

/// Every element of a stable sort's result was in its input, and the
/// other way round.
pub proof fn lemma_stable_sort_members<A>(dst: Seq<A>, src: Seq<A>, le: spec_fn(A, A) -> bool)
    requires
        is_stable_sort_of(dst, src, le),
    ensures
        forall|i: int| 0 <= i < dst.len() ==> src.contains(#[trigger] dst[i]),
        forall|k: int| 0 <= k < src.len() ==> dst.contains(#[trigger] src[k]),
{
    let perm = choose|perm: Seq<int>| #[trigger]
        is_stable_order(src, perm, le) && dst == rearranged(src, perm);
    assert forall|i: int| 0 <= i < dst.len() implies src.contains(#[trigger] dst[i]) by {
        assert(src[perm[i]] == dst[i]);
    }
    assert forall|k: int| 0 <= k < src.len() implies dst.contains(#[trigger] src[k]) by {
        assert(perm.contains(k));
        let q = choose|q: int| 0 <= q < perm.len() && perm[q] == k;
        assert(dst[q] == src[k]);
    }
}

/// Dictionary order on words, character by character: a word comes no
/// later than another when it is a prefix of it, or has the smaller
/// character where the two first differ.
pub open spec fn lex_le(a: Seq<char>, b: Seq<char>) -> bool
    decreases a.len(),
{
    if a.len() == 0 {
        true
    } else if b.len() == 0 {
        false
    } else if a[0] != b[0] {
        a[0] < b[0]
    } else {
        lex_le(a.skip(1), b.skip(1))
    }
}

/// Of two words, one comes no later than the other.
pub proof fn lemma_lex_le_total(a: Seq<char>, b: Seq<char>)
    ensures
        lex_le(a, b) || lex_le(b, a),
    decreases a.len(),
{
    if a.len() > 0 && b.len() > 0 && a[0] == b[0] {
        lemma_lex_le_total(a.skip(1), b.skip(1));
    }
}

/// Dictionary order is transitive.
pub proof fn lemma_lex_le_transitive(a: Seq<char>, b: Seq<char>, c: Seq<char>)
    requires
        lex_le(a, b),
        lex_le(b, c),
    ensures
        lex_le(a, c),
    decreases a.len(),
{
    if a.len() > 0 && b.len() > 0 && c.len() > 0 && a[0] == b[0] && b[0] == c[0] {
        lemma_lex_le_transitive(a.skip(1), b.skip(1), c.skip(1));
    }
}

/// Two words that each come no later than the other are the same word.
pub proof fn lemma_lex_le_antisymmetric(a: Seq<char>, b: Seq<char>)
    requires
        lex_le(a, b),
        lex_le(b, a),
    ensures
        a == b,
    decreases a.len(),
{
    if a.len() == 0 || b.len() == 0 {
        assert(a =~= b);
    } else {
        lemma_lex_le_antisymmetric(a.skip(1), b.skip(1));
        assert(a =~= seq![a[0]] + a.skip(1));
        assert(b =~= seq![b[0]] + b.skip(1));
    }
}

/// Compares two words in dictionary order.
pub fn chars_le(a: &Vec<char>, b: &Vec<char>) -> (r: bool)
    ensures
        r == lex_le(a@, b@),
{
    let mut i: usize = 0;
    proof {
        assert(a@.skip(0) =~= a@);
        assert(b@.skip(0) =~= b@);
    }
    while i < a.len() && i < b.len()
        invariant
            i <= a.len(),
            i <= b.len(),
            lex_le(a@, b@) == lex_le(a@.skip(i as int), b@.skip(i as int)),
        decreases a.len() - i,
    {
        proof {
            assert(a@.skip(i as int)[0] == a@[i as int]);
            assert(b@.skip(i as int)[0] == b@[i as int]);
            assert(a@.skip(i as int).skip(1) =~= a@.skip(i + 1));
            assert(b@.skip(i as int).skip(1) =~= b@.skip(i + 1));
        }
        if a[i] != b[i] {
            return a[i] < b[i];
        }
        i += 1;
    }
    i == a.len()
}

/// The keys by which rows are ranked: a number for each row, or a word.
pub enum KeyColumn {
    Numbers(Vec<u64>),
    Texts(Vec<Vec<char>>),
}

impl KeyColumn {
    /// How many rows the column has.
    pub open spec fn rows(&self) -> nat {
        match self {
            KeyColumn::Numbers(v) => v@.len(),
            KeyColumn::Texts(t) => t@.len(),
        }
    }

    /// Whether the key of row `i` is no greater than that of row `j`.
    pub open spec fn key_le(&self, i: int, j: int) -> bool {
        match self {
            KeyColumn::Numbers(v) => v@[i] <= v@[j],
            KeyColumn::Texts(t) => lex_le(t@[i]@, t@[j]@),
        }
    }

    /// Whether row `i` has to stand before row `j` in a stable sort: on
    /// the smaller key, and among equal keys on the smaller row number.
    pub open spec fn before(&self, i: int, j: int) -> bool {
        if i < j {
            self.key_le(i, j)
        } else {
            !self.key_le(j, i)
        }
    }

    /// Of two keys, one is no greater than the other.
    proof fn lemma_total(&self, i: int, j: int)
        ensures
            self.key_le(i, j) || self.key_le(j, i),
    {
        match self {
            KeyColumn::Numbers(v) => {},
            KeyColumn::Texts(t) => {
                lemma_lex_le_total(t@[i]@, t@[j]@);
            },
        }
    }

    /// The order of the keys is transitive.
    proof fn lemma_transitive(&self, i: int, j: int, k: int)
        requires
            self.key_le(i, j),
            self.key_le(j, k),
        ensures
            self.key_le(i, k),
    {
        match self {
            KeyColumn::Numbers(v) => {},
            KeyColumn::Texts(t) => {
                lemma_lex_le_transitive(t@[i]@, t@[j]@, t@[k]@);
            },
        }
    }

    /// Within a sorted run every earlier key is no greater than a later one.
    proof fn lemma_run_ascends(&self, run: Seq<usize>, a: int, b: int)
        requires
            forall|x: int, y: int|
                #![trigger run[x], run[y]]
                0 <= x < y < run.len() ==> self.before(run[x] as int, run[y] as int),
            0 <= a <= b < run.len(),
        ensures
            self.key_le(run[a] as int, run[b] as int),
    {
        if a == b {
            self.lemma_total(run[a] as int, run[a] as int);
        } else {
            assert(self.before(run[a] as int, run[b] as int));
            self.lemma_total(run[a] as int, run[b] as int);
        }
    }

    /// The number of rows.
    fn len(&self) -> (n: usize)
        ensures
            n == self.rows(),
    {
        match self {
            KeyColumn::Numbers(v) => v.len(),
            KeyColumn::Texts(t) => t.len(),
        }
    }

    /// Compares the keys of two rows.
    fn le(&self, i: usize, j: usize) -> (r: bool)
        requires
            i < self.rows(),
            j < self.rows(),
        ensures
            r == self.key_le(i as int, j as int),
    {
        match self {
            KeyColumn::Numbers(v) => v[i] <= v[j],
            KeyColumn::Texts(t) => chars_le(&t[i], &t[j]),
        }
    }
}

/// Whether `run` lists the rows `lo..hi`, each once, in stable sorted
/// order.
pub open spec fn is_sorted_run(col: &KeyColumn, run: Seq<usize>, lo: int, hi: int) -> bool {
    &&& run.len() == hi - lo
    &&& forall|i: int| 0 <= i < run.len() ==> lo <= #[trigger] run[i] < hi
    &&& forall|x: int, y: int|
        #![trigger run[x], run[y]]
        0 <= x < y < run.len() ==> col.before(run[x] as int, run[y] as int)
    &&& forall|k: usize| lo <= k < hi ==> run.contains(k)
}

/// Merges two neighbouring sorted runs into one.
fn merge_runs(
    col: &KeyColumn,
    left: &Vec<usize>,
    right: &Vec<usize>,
    Ghost(lo): Ghost<int>,
    Ghost(mid): Ghost<int>,
    Ghost(hi): Ghost<int>,
) -> (out: Vec<usize>)
    requires
        0 <= lo <= mid <= hi <= col.rows(),
        is_sorted_run(col, left@, lo, mid),
        is_sorted_run(col, right@, mid, hi),
    ensures
        is_sorted_run(col, out@, lo, hi),
{
    let mut out: Vec<usize> = Vec::new();
    let mut a: usize = 0;
    let mut b: usize = 0;
    while a < left.len() || b < right.len()
        invariant
            0 <= lo <= mid <= hi <= col.rows(),
            is_sorted_run(col, left@, lo, mid),
            is_sorted_run(col, right@, mid, hi),
            a <= left.len(),
            b <= right.len(),
            out@.len() == a + b,
            forall|i: int| 0 <= i < out@.len() ==> lo <= #[trigger] out@[i] < hi,
            forall|x: int, y: int|
                #![trigger out@[x], out@[y]]
                0 <= x < y < out@.len() ==> col.before(out@[x] as int, out@[y] as int),
            forall|x: int, y: int|
                #![trigger out@[x], left@[y]]
                0 <= x < out@.len() && a <= y < left@.len() ==> col.before(
                    out@[x] as int,
                    left@[y] as int,
                ),
            forall|x: int, y: int|
                #![trigger out@[x], right@[y]]
                0 <= x < out@.len() && b <= y < right@.len() ==> col.before(
                    out@[x] as int,
                    right@[y] as int,
                ),
            forall|y: int| 0 <= y < a ==> out@.contains(#[trigger] left@[y]),
            forall|y: int| 0 <= y < b ==> out@.contains(#[trigger] right@[y]),
        decreases left.len() - a + right.len() - b,
    {
        let take_left = if a == left.len() {
            false
        } else if b == right.len() {
            true
        } else {
            col.le(left[a], right[b])
        };
        let ghost prev = out@;
        if take_left {
            let x = left[a];
            out.push(x);
            proof {
                assert forall|y: int| b <= y < right@.len() implies col.before(
                    x as int,
                    #[trigger] right@[y] as int,
                ) by {
                    col.lemma_run_ascends(right@, b as int, y);
                    col.lemma_transitive(x as int, right@[b as int] as int, right@[y] as int);
                }
                assert forall|y: int| 0 <= y < a + 1 implies out@.contains(#[trigger] left@[y]) by {
                    if y < a {
                        assert(prev.contains(left@[y]));
                        let i = choose|i: int| 0 <= i < prev.len() && prev[i] == left@[y];
                        assert(out@[i] == left@[y]);
                    } else {
                        assert(out@[prev.len() as int] == left@[y]);
                    }
                }
                assert forall|y: int| 0 <= y < b implies out@.contains(#[trigger] right@[y]) by {
                    assert(prev.contains(right@[y]));
                    let i = choose|i: int| 0 <= i < prev.len() && prev[i] == right@[y];
                    assert(out@[i] == right@[y]);
                }
            }
            a += 1;
        } else {
            let x = right[b];
            out.push(x);
            proof {
                assert forall|y: int| a <= y < left@.len() implies col.before(
                    x as int,
                    #[trigger] left@[y] as int,
                ) by {
                    col.lemma_run_ascends(left@, a as int, y);
                    if col.key_le(left@[y] as int, x as int) {
                        col.lemma_transitive(left@[a as int] as int, left@[y] as int, x as int);
                    }
                }
                assert forall|y: int| 0 <= y < b + 1 implies out@.contains(#[trigger] right@[y]) by {
                    if y < b {
                        assert(prev.contains(right@[y]));
                        let i = choose|i: int| 0 <= i < prev.len() && prev[i] == right@[y];
                        assert(out@[i] == right@[y]);
                    } else {
                        assert(out@[prev.len() as int] == right@[y]);
                    }
                }
                assert forall|y: int| 0 <= y < a implies out@.contains(#[trigger] left@[y]) by {
                    assert(prev.contains(left@[y]));
                    let i = choose|i: int| 0 <= i < prev.len() && prev[i] == left@[y];
                    assert(out@[i] == left@[y]);
                }
            }
            b += 1;
        }
    }
    proof {
        assert forall|k: usize| lo <= k < hi implies out@.contains(k) by {
            if k < mid {
                assert(left@.contains(k));
                let y = choose|y: int| 0 <= y < left@.len() && left@[y] == k;
                assert(out@.contains(left@[y]));
            } else {
                assert(right@.contains(k));
                let y = choose|y: int| 0 <= y < right@.len() && right@[y] == k;
                assert(out@.contains(right@[y]));
            }
        }
    }
    out
}

/// Sorts the rows `lo..hi` by merging.
fn sort_span(col: &KeyColumn, lo: usize, hi: usize) -> (run: Vec<usize>)
    requires
        lo <= hi <= col.rows(),
    ensures
        is_sorted_run(col, run@, lo as int, hi as int),
    decreases hi - lo,
{
    if hi - lo <= 1 {
        let mut run: Vec<usize> = Vec::new();
        if lo < hi {
            run.push(lo);
            proof {
                assert(run@[0] == lo);
                assert forall|k: usize| lo <= k < hi implies run@.contains(k) by {
                    assert(run@[0] == k);
                }
            }
        }
        run
    } else {
        let mid = lo + (hi - lo) / 2;
        let left = sort_span(col, lo, mid);
        let right = sort_span(col, mid, hi);
        merge_runs(col, &left, &right, Ghost(lo as int), Ghost(mid as int), Ghost(hi as int))
    }
}

/// The row numbers as mathematical integers.
pub open spec fn as_ints(run: Seq<usize>) -> Seq<int> {
    Seq::new(run.len(), |i: int| run[i] as int)
}

/// The order in which a stable sort by key lists the rows of `col`.
pub fn sorted_positions(col: &KeyColumn) -> (perm: Vec<usize>)
    ensures
        is_arrangement(as_ints(perm@), col.rows()),
        forall|i: int, j: int|
            #![trigger perm@[i], perm@[j]]
            0 <= i < j < perm@.len() ==> col.before(perm@[i] as int, perm@[j] as int),
{
    let perm = sort_span(col, 0, col.len());
    proof {
        let p = as_ints(perm@);
        assert forall|i: int, j: int| 0 <= i < p.len() && 0 <= j < p.len() && i != j
            implies p[i] != p[j] by {
            if i < j {
                assert(col.before(perm@[i] as int, perm@[j] as int));
            } else {
                assert(col.before(perm@[j] as int, perm@[i] as int));
            }
            col.lemma_total(perm@[i] as int, perm@[i] as int);
        }
        assert forall|k: int| 0 <= k < col.rows() implies p.contains(k) by {
            assert(perm@.contains(k as usize));
            let y = choose|y: int| 0 <= y < perm@.len() && perm@[y] == k as usize;
            assert(p[y] == k);
        }
    }
    perm
}

/// The words of `words` in the order in which `perm` lists their rows.
pub fn arrange(words: &Vec<String>, perm: &Vec<usize>) -> (out: Vec<String>)
    requires
        forall|i: int| 0 <= i < perm@.len() ==> #[trigger] perm@[i] < words@.len(),
    ensures
        out.deep_view() == rearranged(words.deep_view(), as_ints(perm@)),
{
    let mut out: Vec<String> = Vec::new();
    let mut i: usize = 0;
    while i < perm.len()
        invariant
            i <= perm.len(),
            forall|k: int| 0 <= k < perm@.len() ==> #[trigger] perm@[k] < words@.len(),
            out@.len() == i,
            forall|k: int| 0 <= k < i ==> #[trigger] out@[k]@ == words@[perm@[k] as int]@,
        decreases perm.len() - i,
    {
        let word = words[perm[i]].clone();
        out.push(word);
        i += 1;
    }
    proof {
        assert(out.deep_view() =~= rearranged(words.deep_view(), as_ints(perm@)));
    }
    out
}

} // verus!
