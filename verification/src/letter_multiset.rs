//! The pool of letters a player holds: how many of each lowercase letter.

use vstd::prelude::*;
use vstd::multiset::Multiset;
use crate::chars::{
    ascii_lower, chars_of, fold_case, is_lower, is_lower_letter, letters_only, string_of,
    to_ascii_lower,
};
use crate::pattern::{compile_pattern, erases_non_letters, non_letter_pattern, pattern_erase};

verus! {

/// The letters of `text`: every character folded to ASCII lowercase, and
/// whatever is not then one of `a`..`z` left out. Surrounding white space
/// goes the way of all other non-letters.
pub open spec fn normalized(text: Seq<char>) -> Seq<char> {
    text.map_values(fold_case()).filter(letters_only())
}

/// How `normalized` grows when one more character is read.
pub proof fn lemma_normalized_push(text: Seq<char>, c: char)
    ensures
        normalized(text.push(c)) == if is_lower(ascii_lower(c)) {
            normalized(text).push(ascii_lower(c))
        } else {
            normalized(text)
        },
{
    text.lemma_push_map_commute(fold_case(), c);
    text.map_values(fold_case()).lemma_filter_push(ascii_lower(c), letters_only());
}

/// Nothing but lowercase letters is left after normalization.
pub proof fn lemma_normalized_is_lower(text: Seq<char>)
    ensures
        forall|i: int| 0 <= i < normalized(text).len() ==> is_lower(#[trigger] normalized(text)[i]),
{
    let folded = text.map_values(fold_case());
    assert forall|i: int| 0 <= i < normalized(text).len() implies is_lower(
        #[trigger] normalized(text)[i],
    ) by {
        folded.lemma_filter_pred(letters_only(), i);
    }
}

/// A text made of lowercase letters only is its own normal form.
pub proof fn lemma_normalized_of_letters(text: Seq<char>)
    requires
        forall|i: int| 0 <= i < text.len() ==> is_lower(#[trigger] text[i]),
    ensures
        normalized(text) == text,
    decreases text.len(),
{
    if text.len() == 0 {
        assert(text.map_values(fold_case()) =~= text);
        reveal(Seq::filter);
    } else {
        let front = text.drop_last();
        assert forall|i: int| 0 <= i < front.len() implies is_lower(#[trigger] front[i]) by {
            assert(front[i] == text[i]);
        }
        lemma_normalized_of_letters(front);
        assert(text == front.push(text.last()));
        lemma_normalized_push(front, text.last());
        assert(is_lower(text[text.len() - 1]));
    }
}

/// Whether a multiset holds nothing but lowercase letters.
pub open spec fn holds_letters_only(pool: Multiset<char>) -> bool {
    forall|c: char| pool.count(c) > 0 ==> is_lower(c)
}

/// The letters of a text make a multiset of lowercase letters.
pub proof fn lemma_letters_only(text: Seq<char>)
    ensures
        holds_letters_only(normalized(text).to_multiset()),
{
    broadcast use vstd::seq_lib::group_to_multiset_ensures;

    lemma_normalized_is_lower(text);
    assert forall|c: char| normalized(text).to_multiset().count(c) > 0 implies is_lower(c) by {
        assert(normalized(text).contains(c));
    }
}

/// The position of a lowercase letter in the alphabet, `a` being 0.
pub open spec fn slot(c: char) -> int {
    c as int - 'a' as int
}

/// A multiset of lowercase ASCII letters, held as twenty-six counts.
pub struct LetterMultiset {
    counts: Vec<usize>,
    letters: Ghost<Multiset<char>>,
}

impl View for LetterMultiset {
    type V = Multiset<char>;

    /// How often each letter occurs.
    closed spec fn view(&self) -> Multiset<char> {
        self.letters@
    }
}

impl LetterMultiset {
    /// There are twenty-six counts, one for each lowercase letter, and
    /// nothing else occurs.
    #[verifier::type_invariant]
    spec fn well_formed(self) -> bool {
        &&& self.counts@.len() == 26
        &&& forall|c: char|
            #![trigger self.letters@.count(c)]
            self.letters@.count(c) == if is_lower(c) {
                self.counts@[slot(c)] as nat
            } else {
                0
            }
    }

    /// How often `c` occurs; 0 for anything but a lowercase letter.
    pub fn count(&self, c: char) -> (n: usize)
        ensures
            n == self@.count(c),
    {
        proof {
            use_type_invariant(self);
        }
        if is_lower_letter(c) {
            self.counts[(c as u8 - 97) as usize]
        } else {
            0
        }
    }

    /// Whether no letter occurs at all.
    pub fn is_empty(&self) -> (b: bool)
        ensures
            b == (self@.len() == 0),
    {
        proof {
            use_type_invariant(self);
        }
        let mut k: usize = 0;
        while k < 26
            invariant
                k <= 26,
                self.counts@.len() == 26,
                forall|j: int| 0 <= j < k ==> self.counts@[j] == 0,
            decreases 26 - k,
        {
            if self.counts[k] != 0 {
                proof {
                    use_type_invariant(self);
                    let c = (k as u8 + 97) as char;
                    assert(is_lower(c) && slot(c) == k);
                    assert(self.letters@.count(c) > 0);
                    vstd::multiset::axiom_count_le_len(self@, c);
                }
                return false;
            }
            k += 1;
        }
        proof {
            assert forall|c: char| self@.count(c) == 0 by {
                assert(self.letters@.count(c) == 0);
            }
            assert(self@ =~= Multiset::<char>::empty());
        }
        true
    }

    /// The letters that occur at least once, each once, in alphabetical
    /// order.
    pub fn distinct_letters(&self) -> (v: Vec<char>)
        ensures
            forall|c: char| v@.contains(c) <==> self@.count(c) > 0,
            forall|i: int| 0 <= i < v@.len() ==> is_lower(#[trigger] v@[i]),
            forall|i: int, j: int| 0 <= i < j < v@.len() ==> v@[i] < v@[j],
    {
        proof {
            use_type_invariant(self);
        }
        let mut v: Vec<char> = Vec::new();
        let mut k: u8 = 0;
        while k < 26
            invariant
                k <= 26,
                self.counts@.len() == 26,
                forall|i: int| 0 <= i < v@.len() ==> is_lower(#[trigger] v@[i]) && slot(v@[i]) < k
                    && self.counts@[slot(v@[i])] > 0,
                forall|c: char| is_lower(c) && slot(c) < k && self.counts@[slot(c)] > 0
                    ==> v@.contains(c),
                forall|i: int, j: int| 0 <= i < j < v@.len() ==> v@[i] < v@[j],
            decreases 26 - k,
        {
            if self.counts[k as usize] > 0 {
                let c = (k + 97) as char;
                let ghost before = v@;
                v.push(c);
                proof {
                    assert(v@[v@.len() - 1] == c);
                    assert forall|d: char|
                        is_lower(d) && slot(d) < k + 1 && self.counts@[slot(d)] > 0
                        implies v@.contains(d) by {
                        if slot(d) < k {
                            assert(before.contains(d));
                            let i = choose|i: int| 0 <= i < before.len() && before[i] == d;
                            assert(v@[i] == d);
                        } else {
                            assert(d == c);
                        }
                    }
                }
            }
            k += 1;
        }
        proof {
            assert forall|c: char| v@.contains(c) <==> self@.count(c) > 0 by {
                assert(self.letters@.count(c) == if is_lower(c) {
                    self.counts@[slot(c)] as nat
                } else {
                    0
                });
                if v@.contains(c) {
                    let i = choose|i: int| 0 <= i < v@.len() && v@[i] == c;
                    assert(is_lower(v@[i]));
                }
            }
        }
        v
    }
}

/// Counts the letters among `chars`, after case folding.
pub fn tally_letters(chars: &Vec<char>) -> (m: LetterMultiset)
    ensures
        m@ == normalized(chars@).to_multiset(),
        holds_letters_only(m@),
{
    proof {
        lemma_letters_only(chars@);
    }
    let mut counts: Vec<usize> = Vec::new();
    let mut k: usize = 0;
    while k < 26
        invariant
            k <= 26,
            counts@.len() == k,
            forall|j: int| 0 <= j < k ==> counts@[j] == 0,
        decreases 26 - k,
    {
        counts.push(0);
        k += 1;
    }
    let ghost mut letters: Multiset<char> = Multiset::empty();
    proof {
        assert(chars@.take(0) =~= Seq::<char>::empty());
        assert(Seq::<char>::empty().map_values(fold_case()) =~= Seq::<char>::empty());
        reveal(Seq::filter);
        assert(normalized(chars@.take(0)) =~= Seq::<char>::empty());
        assert(Seq::<char>::empty().to_multiset() =~= Multiset::<char>::empty()) by {
            broadcast use vstd::seq_lib::group_to_multiset_ensures;
        }
    }
    let mut i: usize = 0;
    while i < chars.len()
        invariant
            i <= chars.len(),
            counts@.len() == 26,
            letters == normalized(chars@.take(i as int)).to_multiset(),
            letters.len() <= i,
            forall|c: char|
                #![trigger letters.count(c)]
                letters.count(c) == if is_lower(c) {
                    counts@[slot(c)] as nat
                } else {
                    0
                },
        decreases chars.len() - i,
    {
        let c = to_ascii_lower(chars[i]);
        proof {
            assert(chars@.take(i + 1) =~= chars@.take(i as int).push(chars@[i as int]));
            lemma_normalized_push(chars@.take(i as int), chars@[i as int]);
        }
        if is_lower_letter(c) {
            let k = (c as u8 - 97) as usize;
            proof {
                assert(slot(c) == k);
                assert(letters.count(c) == counts@[k as int]);
                vstd::multiset::axiom_count_le_len(letters, c);
                vstd::seq_lib::to_multiset_build(normalized(chars@.take(i as int)), c);
            }
            let ghost before = letters;
            let ghost old_counts = counts@;
            counts.set(k, counts[k] + 1);
            proof {
                letters = letters.insert(c);
                broadcast use vstd::multiset::group_multiset_properties;
                assert forall|d: char|
                    #![trigger letters.count(d)]
                    letters.count(d) == if is_lower(d) {
                        counts@[slot(d)] as nat
                    } else {
                        0
                    } by {
                    assert(before.count(d) == if is_lower(d) {
                        old_counts[slot(d)] as nat
                    } else {
                        0
                    });
                    if d == c {
                    } else {
                        assert(is_lower(d) ==> slot(d) != k);
                    }
                }
            }
        }
        i += 1;
    }
    proof {
        assert(chars@.take(i as int) =~= chars@);
    }
    LetterMultiset { counts, letters: Ghost(letters) }
}

/// The characters of `chars` that are lowercase letters, in order. They
/// are picked out by the pattern `[^a-z]`, whose matches are replaced by
/// nothing; where the pattern engine does not take the pattern, the
/// characters are tested one by one.
pub fn strip_non_letters(chars: &Vec<char>) -> (out: Vec<char>)
    ensures
        out@ == chars@.filter(letters_only()),
{
    match compile_pattern("[^a-z]") {
        Some(re) => {
            proof {
                reveal_strlit("[^a-z]");
                assert("[^a-z]"@ =~= non_letter_pattern());
                assert(erases_non_letters(re));
            }
            let text = string_of(chars);
            let stripped = pattern_erase(&re, text.as_str());
            chars_of(stripped.as_str())
        },
        None => {
            let mut out: Vec<char> = Vec::new();
            let mut i: usize = 0;
            proof {
                reveal(Seq::filter);
                assert(chars@.take(0) =~= Seq::<char>::empty());
            }
            while i < chars.len()
                invariant
                    i <= chars.len(),
                    out@ == chars@.take(i as int).filter(letters_only()),
                decreases chars.len() - i,
            {
                let c = chars[i];
                proof {
                    assert(chars@.take(i + 1) =~= chars@.take(i as int).push(c));
                    chars@.take(i as int).lemma_filter_push(c, letters_only());
                }
                if is_lower_letter(c) {
                    out.push(c);
                }
                i += 1;
            }
            proof {
                assert(chars@.take(i as int) =~= chars@);
            }
            out
        },
    }
}

/// Builds the letter multiset of `text`: case is folded, and every
/// character that is not then one of `a`..`z` is dropped. A text without
/// letters gives the empty multiset.
pub fn build_multiset(text: &str) -> (m: LetterMultiset)
    ensures
        m@ == normalized(text@).to_multiset(),
        holds_letters_only(m@),
{
    let chars = chars_of(text);
    let mut lowered: Vec<char> = Vec::new();
    let mut i: usize = 0;
    while i < chars.len()
        invariant
            i <= chars.len(),
            lowered@.len() == i,
            forall|j: int| 0 <= j < i ==> lowered@[j] == ascii_lower(#[trigger] chars@[j]),
        decreases chars.len() - i,
    {
        lowered.push(to_ascii_lower(chars[i]));
        i += 1;
    }
    let letters = strip_non_letters(&lowered);
    proof {
        assert(lowered@ =~= chars@.map_values(fold_case()));
        assert(letters@ == normalized(text@));
        lemma_normalized_is_lower(text@);
        lemma_normalized_of_letters(letters@);
    }
    tally_letters(&letters)
}

/// Whether `candidate` can be laid out with the letters of `input`: no
/// letter is used more often than `input` holds it.
pub fn is_subset(candidate: &LetterMultiset, input: &LetterMultiset) -> (b: bool)
    ensures
        b == candidate@.subset_of(input@),
{
    proof {
        use_type_invariant(candidate);
        use_type_invariant(input);
    }
    let mut k: usize = 0;
    while k < 26
        invariant
            k <= 26,
            candidate.counts@.len() == 26,
            input.counts@.len() == 26,
            forall|j: int| 0 <= j < k ==> candidate.counts@[j] <= input.counts@[j],
        decreases 26 - k,
    {
        if candidate.counts[k] > input.counts[k] {
            proof {
                use_type_invariant(candidate);
                use_type_invariant(input);
                let c = (k as u8 + 97) as char;
                assert(is_lower(c) && slot(c) == k);
                assert(candidate.letters@.count(c) > input.letters@.count(c));
            }
            return false;
        }
        k += 1;
    }
    proof {
        assert forall|c: char| candidate@.count(c) <= input@.count(c) by {
            assert(candidate.letters@.count(c) <= input.letters@.count(c));
        }
    }
    true
}

} // verus!
