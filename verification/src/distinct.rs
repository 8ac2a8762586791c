//! Telling the different characters of a word apart.

use vstd::prelude::*;
use std::collections::HashSet;

verus! {

/// How many different characters a word holds.
pub open spec fn distinct_count(word: Seq<char>) -> nat {
    word.to_set().len()
}

/// The code point of a character.
pub open spec fn char_code(c: char) -> u32 {
    c as u32
}

/// `char_code` as a function on characters.
pub open spec fn code_of() -> spec_fn(char) -> u32 {
    |c: char| char_code(c)
}

/// Different characters have different code points.
pub proof fn lemma_code_injective(x: char, y: char)
    requires
        char_code(x) == char_code(y),
    ensures
        x == y,
{
}

/// The code points of a set with one more character.
proof fn lemma_codes_insert(s: Set<char>, c: char)
    ensures
        s.insert(c).map(code_of()) == s.map(code_of()).insert(char_code(c)),
{
    let lhs = s.insert(c).map(code_of());
    let rhs = s.map(code_of()).insert(char_code(c));
    assert forall|k: u32| lhs.contains(k) <==> rhs.contains(k) by {
        if lhs.contains(k) {
            let x = choose|x: char| s.insert(c).contains(x) && code_of()(x) == k;
            if x != c {
                assert(s.contains(x));
            }
        }
        if rhs.contains(k) {
            if k == char_code(c) {
                assert(s.insert(c).contains(c));
                assert(code_of()(c) == k);
            } else {
                let x = choose|x: char| s.contains(x) && code_of()(x) == k;
                assert(s.insert(c).contains(x));
            }
        }
    }
    assert(lhs =~= rhs);
}

/// The code point of `c`.
pub fn code_point(c: char) -> (k: u32)
    ensures
        k == char_code(c),
{
    c as u32
}

/// Counts the different characters among `chars`.
pub fn count_distinct(chars: &Vec<char>) -> (n: usize)
    ensures
        n == distinct_count(chars@),
{
    broadcast use vstd::std_specs::hash::group_hash_axioms;

    let mut seen: HashSet<u32> = HashSet::new();
    let mut i: usize = 0;
    proof {
        assert(chars@.take(0) =~= Seq::<char>::empty());
        assert(Seq::<char>::empty().to_set() =~= Set::<char>::empty());
        assert(Set::<char>::empty().map(code_of()) =~= Set::<u32>::empty());
    }
    while i < chars.len()
        invariant
            i <= chars.len(),
            seen@ == chars@.take(i as int).to_set().map(code_of()),
        decreases chars.len() - i,
    {
        let c = chars[i];
        seen.insert(code_point(c));
        proof {
            let before = chars@.take(i as int);
            assert(chars@.take(i + 1) =~= before.push(c));
            before.lemma_push_to_set_commute(c);
            lemma_codes_insert(before.to_set(), c);
        }
        i += 1;
    }
    proof {
        assert(chars@.take(i as int) =~= chars@);
        vstd::seq_lib::seq_to_set_is_finite(chars@);
        assert forall|x: char, y: char| #[trigger] code_of()(x) == #[trigger] code_of()(y) implies x
            == y by {
            lemma_code_injective(x, y);
        }
        assert(vstd::relations::injective_on(code_of(), chars@.to_set()));
        vstd::set_lib::lemma_map_size(chars@.to_set(), seen@, code_of());
    }
    seen.len()
}

/// Whether some character stands among `chars` more than once. The scan
/// stops at the first one that was seen before.
pub fn has_duplicate(chars: &Vec<char>) -> (b: bool)
    ensures
        b == !chars@.no_duplicates(),
{
    broadcast use vstd::std_specs::hash::group_hash_axioms;

    let mut seen: HashSet<u32> = HashSet::new();
    let mut i: usize = 0;
    proof {
        assert(chars@.take(0) =~= Seq::<char>::empty());
        assert(Seq::<char>::empty().to_set() =~= Set::<char>::empty());
        assert(Set::<char>::empty().map(code_of()) =~= Set::<u32>::empty());
    }
    while i < chars.len()
        invariant
            i <= chars.len(),
            seen@ == chars@.take(i as int).to_set().map(code_of()),
            chars@.take(i as int).no_duplicates(),
        decreases chars.len() - i,
    {
        let c = chars[i];
        let fresh = seen.insert(code_point(c));
        let ghost before = chars@.take(i as int);
        if !fresh {
            proof {
                let x = choose|x: char| before.to_set().contains(x) && code_of()(x) == char_code(c);
                lemma_code_injective(x, c);
                assert(before.contains(c));
                let j = choose|j: int| 0 <= j < before.len() && before[j] == c;
                assert(chars@[j] == chars@[i as int]);
            }
            return true;
        }
        proof {
            assert(chars@.take(i + 1) =~= before.push(c));
            before.lemma_push_to_set_commute(c);
            lemma_codes_insert(before.to_set(), c);
            assert(!before.contains(c)) by {
                if before.contains(c) {
                    assert(before.to_set().contains(c));
                    assert(code_of()(c) == char_code(c));
                    assert(before.to_set().map(code_of()).contains(char_code(c)));
                }
            }
            assert forall|a: int, b: int|
                0 <= a < before.push(c).len() && 0 <= b < before.push(c).len() && a != b
                implies before.push(c)[a] != before.push(c)[b] by {
                if a < before.len() && b < before.len() {
                } else if a < before.len() {
                    assert(before.contains(before[a]));
                } else {
                    assert(before.contains(before[b]));
                }
            }
        }
        i += 1;
    }
    proof {
        assert(chars@.take(i as int) =~= chars@);
    }
    false
}

} // verus!
