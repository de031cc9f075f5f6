//! Runs: the sorted, duplicate-free batches that chunks are turned into and
//! that the merge reads.

use vstd::prelude::*;
use crate::order::{line_less, line_lt};
use crate::sorted::{is_dedup_of, lemma_increasing_by_neighbours, strictly_increasing};
use crate::sort::{dedup_consecutive, lemma_without_repeats_of_sorted, sort_lines};

verus! {

/// A sorted batch of lines without duplicates. Every value of this type is
/// strictly increasing.
pub struct Run {
    lines: Vec<String>,
}

impl View for Run {
    type V = Seq<Seq<char>>;

    closed spec fn view(&self) -> Seq<Seq<char>> {
        self.lines.deep_view()
    }
}

impl DeepView for Run {
    type V = Seq<Seq<char>>;

    open spec fn deep_view(&self) -> Seq<Seq<char>> {
        self@
    }
}

impl Run {
    #[verifier::type_invariant]
    spec fn increasing(&self) -> bool {
        strictly_increasing(self.lines.deep_view())
    }

    /// Takes lines that are already strictly increasing as a run. Lines in
    /// any other order are refused.
    pub fn from_sorted(lines: Vec<String>) -> (run: Option<Run>)
        ensures
            run is Some <==> strictly_increasing(lines.deep_view()),
            run matches Some(r) ==> r@ == lines.deep_view(),
    {
        let ghost s = lines.deep_view();
        let mut i: usize = 1;
        while i < lines.len()
            invariant
                1 <= i,
                s == lines.deep_view(),
                forall|k: int| 0 <= k < i - 1 ==> line_lt(#[trigger] s[k], s[k + 1]),
            decreases lines.len() - i,
        {
            if !line_less(lines[i - 1].as_str(), lines[i].as_str()) {
                proof {
                    lemma_increasing_by_neighbours(s);
                    assert(s[i - 1] == lines@[i - 1]@);
                }
                return None;
            }
            i = i + 1;
        }
        proof {
            lemma_increasing_by_neighbours(s);
        }
        Some(Run { lines })
    }

    /// The number of lines in the run.
    pub fn len(&self) -> (n: usize)
        ensures
            n == self@.len(),
    {
        self.lines.len()
    }

    /// The line at position `i`, if the run has that many lines.
    pub fn get(&self, i: usize) -> (line: Option<&String>)
        ensures
            line is Some <==> i < self@.len(),
            line matches Some(l) ==> l@ == self@[i as int],
            strictly_increasing(self@),
            self@.len() <= usize::MAX,
    {
        proof {
            use_type_invariant(self);
        }
        if i < self.lines.len() {
            Some(&self.lines[i])
        } else {
            None
        }
    }

    /// The lines of the run, in order.
    pub fn lines(&self) -> (lines: &Vec<String>)
        ensures
            lines.deep_view() == self@,
            strictly_increasing(self@),
    {
        proof {
            use_type_invariant(self);
        }
        &self.lines
    }

    /// Gives up the run for its lines, in order.
    pub fn into_lines(self) -> (lines: Vec<String>)
        ensures
            lines.deep_view() == self@,
            strictly_increasing(self@),
    {
        proof {
            use_type_invariant(&self);
        }
        self.lines
    }
}

/// Turns a chunk into a run: sorts its lines and removes the duplicates.
pub fn process_chunk(chunk: Vec<String>) -> (run: Run)
    ensures
        is_dedup_of(run@, chunk.deep_view()),
{
    let ghost input = chunk.deep_view();
    let sorted = sort_lines(chunk);
    let ghost mid = sorted.deep_view();
    let lines = dedup_consecutive(sorted);
    proof {
        lemma_without_repeats_of_sorted(mid);
        assert forall|x: Seq<char>| mid.to_set().contains(x) <==> input.to_set().contains(x) by {
            vstd::seq_lib::to_multiset_contains(mid, x);
            vstd::seq_lib::to_multiset_contains(input, x);
        }
        assert(mid.to_set() =~= input.to_set());
    }
    Run { lines }
}

} // verus!
