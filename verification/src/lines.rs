//! Word lists: plain text, one word to a line.

use vstd::prelude::*;
use crate::chars::{chars_of, string_of};

verus! {

/// Where the first line of `text` ends: the position of its first line
/// feed, or the length of `text` where it holds none.
pub open spec fn first_break(text: Seq<char>) -> int
    decreases text.len(),
{
    if text.len() == 0 || text[0] == '\n' {
        0
    } else {
        1 + first_break(text.skip(1))
    }
}

/// A line without the carriage return that may end it.
pub open spec fn without_cr(line: Seq<char>) -> Seq<char> {
    if line.len() > 0 && line.last() == '\r' {
        line.drop_last()
    } else {
        line
    }
}

/// The lines of `text`. A line ends at a line feed, or at a carriage
/// return directly followed by one; neither belongs to the line. What
/// follows the last line feed is a line of its own unless it is empty, so
/// a final line feed adds no empty line.
pub open spec fn lines_of(text: Seq<char>) -> Seq<Seq<char>>
    decreases text.len(),
{
    let k = first_break(text);
    if text.len() == 0 {
        Seq::empty()
    } else if k < 0 || k >= text.len() {
        seq![text]
    } else {
        seq![without_cr(text.take(k))] + lines_of(text.skip(k + 1))
    }
}

/// The first line ends at `k` where no line feed stands before `k` and
/// one stands at `k`, or the text ends there.
pub proof fn lemma_first_break(text: Seq<char>, k: int)
    requires
        0 <= k <= text.len(),
        forall|j: int| 0 <= j < k ==> text[j] != '\n',
        k == text.len() || text[k] == '\n',
    ensures
        first_break(text) == k,
    decreases k,
{
    if k > 0 {
        let rest = text.skip(1);
        assert forall|j: int| 0 <= j < k - 1 implies rest[j] != '\n' by {
            assert(rest[j] == text[j + 1]);
        }
        lemma_first_break(rest, k - 1);
    }
}

/// Splits a word list into its lines.
pub fn split_lines(text: &str) -> (lines: Vec<String>)
    ensures
        lines.deep_view() == lines_of(text@),
{
    let chars = chars_of(text);
    let mut lines: Vec<String> = Vec::new();
    let mut current: Vec<char> = Vec::new();
    let ghost mut start: int = 0;
    let mut i: usize = 0;
    proof {
        assert(chars@.skip(0) =~= chars@);
        assert(lines.deep_view() =~= Seq::<Seq<char>>::empty());
        assert(Seq::<Seq<char>>::empty() + lines_of(chars@) =~= lines_of(chars@));
        assert(current@ =~= chars@.subrange(0, 0));
    }
    while i < chars.len()
        invariant
            0 <= start <= i <= chars.len(),
            current@ == chars@.subrange(start, i as int),
            forall|j: int| start <= j < i ==> chars@[j] != '\n',
            lines_of(chars@) == lines.deep_view() + lines_of(chars@.skip(start)),
        decreases chars.len() - i,
    {
        let c = chars[i];
        if c == '\n' {
            let ghost rest = chars@.skip(start);
            let ghost whole = current@;
            proof {
                assert forall|j: int| 0 <= j < i - start implies rest[j] != '\n' by {
                    assert(rest[j] == chars@[start + j]);
                }
                lemma_first_break(rest, i - start);
                assert(rest.take(i - start) =~= whole);
                assert(rest.skip(i - start + 1) =~= chars@.skip(i + 1));
            }
            let n = current.len();
            if n > 0 && current[n - 1] == '\r' {
                current.pop();
            }
            proof {
                assert(current@ =~= without_cr(whole));
            }
            let line = string_of(&current);
            let ghost before = lines.deep_view();
            lines.push(line);
            current = Vec::new();
            proof {
                start = i + 1;
                assert(lines.deep_view() =~= before.push(without_cr(whole)));
                assert(before + (seq![without_cr(whole)] + lines_of(chars@.skip(i + 1)))
                    =~= before.push(without_cr(whole)) + lines_of(chars@.skip(i + 1)));
                assert(current@ =~= chars@.subrange(start, i + 1));
            }
        } else {
            current.push(c);
            proof {
                assert(current@ =~= chars@.subrange(start, i + 1));
            }
        }
        i += 1;
    }
    let ghost rest = chars@.skip(start);
    if current.len() > 0 {
        proof {
            assert forall|j: int| 0 <= j < rest.len() implies rest[j] != '\n' by {
                assert(rest[j] == chars@[start + j]);
            }
            lemma_first_break(rest, rest.len() as int);
            assert(rest =~= current@);
        }
        let line = string_of(&current);
        let ghost before = lines.deep_view();
        lines.push(line);
        proof {
            assert(lines.deep_view() =~= before + seq![rest]);
        }
    } else {
        proof {
            assert(rest.len() == 0);
            assert(lines.deep_view() + Seq::<Seq<char>>::empty() =~= lines.deep_view());
        }
    }
    lines
}

} // verus!
