//! The pipeline: lines are gathered into chunks of bounded size, every chunk
//! becomes a run, and the runs are merged.

use vstd::prelude::*;
use crate::merge::{in_some_run, is_merge_of, lemma_shared_line_once, lines_in, merge_runs};
use crate::run::{process_chunk, Run};
use crate::sort::take_line;
use crate::sorted::{is_dedup_of, lemma_dedup_unique};

verus! {

/// The capacity that a chunker works with: the one asked for, and one line
/// where none was asked for.
pub open spec fn effective_capacity(capacity: usize) -> nat {
    if capacity == 0 {
        1
    } else {
        capacity as nat
    }
}

/// The input cut into chunks of `capacity` lines; the last chunk holds what
/// is left and may be shorter. An empty input has no chunks.
pub open spec fn chunks_of(lines: Seq<Seq<char>>, capacity: nat) -> Seq<Seq<Seq<char>>>
    decreases lines.len(),
{
    if capacity == 0 || lines.len() == 0 {
        Seq::empty()
    } else if lines.len() <= capacity {
        seq![lines]
    } else {
        seq![lines.take(capacity as int)] + chunks_of(lines.skip(capacity as int), capacity)
    }
}

/// Every run is the sorted, duplicate-free form of the chunk at its place.
pub open spec fn runs_of_chunks(runs: Seq<Seq<Seq<char>>>, chunks: Seq<Seq<Seq<char>>>) -> bool {
    &&& runs.len() == chunks.len()
    &&& forall|k: int| 0 <= k < runs.len() ==> is_dedup_of(#[trigger] runs[k], chunks[k])
}

/// The chunks hold the lines of the input and no others, and none of them is
/// empty or longer than the capacity.
pub proof fn lemma_chunks_cover(lines: Seq<Seq<char>>, capacity: nat)
    requires
        capacity >= 1,
    ensures
        lines_in(chunks_of(lines, capacity)) == lines.to_set(),
        forall|k: int|
            0 <= k < chunks_of(lines, capacity).len() ==> 1 <= (#[trigger] chunks_of(
                lines,
                capacity,
            )[k]).len() <= capacity,
    decreases lines.len(),
{
    let chunks = chunks_of(lines, capacity);
    if lines.len() == 0 {
        assert forall|x: Seq<char>| lines_in(chunks).contains(x) <==> lines.to_set().contains(
            x,
        ) by {}
    } else if lines.len() <= capacity {
        assert forall|x: Seq<char>| lines_in(chunks).contains(x) <==> lines.to_set().contains(
            x,
        ) by {
            if lines.contains(x) {
                assert(chunks[0].contains(x));
            }
        }
    } else {
        let first = lines.take(capacity as int);
        let rest = lines.skip(capacity as int);
        let later = chunks_of(rest, capacity);
        lemma_chunks_cover(rest, capacity);
        assert forall|x: Seq<char>| lines_in(chunks).contains(x) <==> lines.to_set().contains(
            x,
        ) by {
            if in_some_run(chunks, x) {
                let k = choose|k: int| 0 <= k < chunks.len() && #[trigger] chunks[k].contains(x);
                if k == 0 {
                    let i = choose|i: int| 0 <= i < first.len() && first[i] == x;
                    assert(lines[i] == x);
                } else {
                    assert(later[k - 1].contains(x));
                    assert(in_some_run(later, x));
                    assert(lines_in(later).contains(x));
                    assert(rest.to_set().contains(x));
                    let i = choose|i: int| 0 <= i < rest.len() && rest[i] == x;
                    assert(lines[i + capacity] == x);
                }
            }
            if lines.contains(x) {
                let i = choose|i: int| 0 <= i < lines.len() && lines[i] == x;
                if i < capacity {
                    assert(first[i] == x);
                    assert(chunks[0].contains(x));
                } else {
                    assert(rest[i - capacity] == x);
                    assert(rest.to_set().contains(x));
                    assert(lines_in(later).contains(x));
                    let k = choose|k: int| 0 <= k < later.len() && #[trigger] later[k].contains(x);
                    assert(chunks[k + 1].contains(x));
                }
            }
        }
        assert forall|k: int| 0 <= k < chunks.len() implies 1 <= (#[trigger] chunks[k]).len()
            <= capacity by {
            if k > 0 {
                assert(chunks[k] == later[k - 1]);
            }
        }
    }
    assert(lines_in(chunks) =~= lines.to_set());
}

/// Gathers lines into chunks and turns every full chunk into a run.
pub struct Chunker {
    capacity: usize,
    buffer: Vec<String>,
}

impl Chunker {
    #[verifier::type_invariant]
    spec fn bounded(&self) -> bool {
        self.buffer.len() < self.capacity
    }

    /// The number of lines at which a chunk is full.
    pub closed spec fn capacity(&self) -> nat {
        self.capacity as nat
    }

    /// The lines gathered since the last run was handed out.
    pub closed spec fn buffered(&self) -> Seq<Seq<char>> {
        self.buffer.deep_view()
    }

    /// A chunker for chunks of `capacity` lines that has gathered nothing.
    /// A capacity of zero counts as one.
    pub fn new(capacity: usize) -> (chunker: Chunker)
        ensures
            chunker.capacity() == effective_capacity(capacity),
            chunker.buffered() == Seq::<Seq<char>>::empty(),
    {
        let capacity = if capacity == 0 {
            1
        } else {
            capacity
        };
        let chunker = Chunker { capacity, buffer: Vec::new() };
        proof {
            assert(chunker.buffer.deep_view() =~= Seq::<Seq<char>>::empty());
        }
        chunker
    }

    /// The number of lines gathered since the last run was handed out. It
    /// stays below the capacity.
    pub fn buffered_len(&self) -> (n: usize)
        ensures
            n == self.buffered().len(),
            n < self.capacity(),
    {
        proof {
            use_type_invariant(self);
        }
        self.buffer.len()
    }

    /// Takes the next line of the input. When it fills the chunk, the chunk
    /// is handed out as a run and the chunker starts anew.
    pub fn push(&mut self, line: String) -> (run: Option<Run>)
        ensures
            final(self).capacity() == old(self).capacity(),
            match run {
                None => {
                    &&& old(self).buffered().len() + 1 < old(self).capacity()
                    &&& final(self).buffered() == old(self).buffered().push(line@)
                },
                Some(r) => {
                    &&& old(self).buffered().len() + 1 == old(self).capacity()
                    &&& is_dedup_of(r@, old(self).buffered().push(line@))
                    &&& final(self).buffered() == Seq::<Seq<char>>::empty()
                },
            },
    {
        proof {
            use_type_invariant(&*self);
        }
        let ghost before = self.buffer.deep_view();
        let mut chunk: Vec<String> = Vec::new();
        core::mem::swap(&mut self.buffer, &mut chunk);
        chunk.push(line);
        proof {
            assert(chunk.deep_view() =~= before.push(line@));
            assert(self.buffer.deep_view() =~= Seq::<Seq<char>>::empty());
        }
        if chunk.len() >= self.capacity {
            Some(process_chunk(chunk))
        } else {
            core::mem::swap(&mut self.buffer, &mut chunk);
            None
        }
    }

    /// Ends the input: the lines gathered since the last run, if there are
    /// any, are handed out as the last run.
    pub fn finish(self) -> (run: Option<Run>)
        ensures
            match run {
                None => self.buffered().len() == 0,
                Some(r) => self.buffered().len() > 0 && is_dedup_of(r@, self.buffered()),
            },
    {
        if self.buffer.len() == 0 {
            None
        } else {
            Some(process_chunk(self.buffer))
        }
    }
}

/// Cuts the input into chunks of `capacity` lines and turns every chunk into
/// a run; the runs stand in the order of their chunks. A capacity of zero
/// counts as one.
pub fn split_into_runs(lines: Vec<String>, capacity: usize) -> (runs: Vec<Run>)
    ensures
        runs_of_chunks(
            runs.deep_view(),
            chunks_of(lines.deep_view(), effective_capacity(capacity)),
        ),
{
    let ghost all = lines.deep_view();
    let ghost cap = effective_capacity(capacity);
    let mut lines = lines;
    let mut chunker = Chunker::new(capacity);
    let mut runs: Vec<Run> = Vec::new();
    let mut i: usize = 0;
    let ghost mut start: int = 0;
    let ghost mut done: Seq<Seq<Seq<char>>> = Seq::empty();
    proof {
        assert(all.skip(0) =~= all);
        assert(done + chunks_of(all, cap) =~= chunks_of(all, cap));
        assert(all.subrange(0, 0) =~= Seq::<Seq<char>>::empty());
        assert(runs.deep_view() =~= Seq::<Seq<Seq<char>>>::empty());
    }
    while i < lines.len()
        invariant
            cap >= 1,
            lines.len() == all.len(),
            i <= lines.len(),
            forall|k: int| i <= k < lines.len() ==> (#[trigger] lines@[k])@ == all[k],
            chunker.capacity() == cap,
            0 <= start <= i,
            i - start < cap,
            chunker.buffered() == all.subrange(start, i as int),
            chunks_of(all, cap) == done + chunks_of(all.skip(start), cap),
            runs_of_chunks(runs.deep_view(), done),
        decreases lines.len() - i,
    {
        let ghost runs_before = runs.deep_view();
        let line = take_line(&mut lines, i);
        proof {
            assert(all.subrange(start, i as int).push(all[i as int]) =~= all.subrange(
                start,
                i + 1,
            ));
        }
        match chunker.push(line) {
            Some(run) => {
                runs.push(run);
                proof {
                    let tail = all.skip(start);
                    let chunk = all.subrange(start, i + 1);
                    assert(tail.take(cap as int) =~= chunk);
                    assert(tail.skip(cap as int) =~= all.skip(i + 1));
                    if tail.len() <= cap {
                        assert(tail =~= chunk);
                        assert(chunks_of(tail, cap) =~= seq![chunk] + chunks_of(
                            all.skip(i + 1),
                            cap,
                        ));
                    }
                    assert(done + chunks_of(tail, cap) =~= done.push(chunk) + chunks_of(
                        all.skip(i + 1),
                        cap,
                    ));
                    assert(runs.deep_view() =~= runs_before.push(run@));
                    done = done.push(chunk);
                    start = i + 1;
                    assert(all.subrange(start, i + 1) =~= Seq::<Seq<char>>::empty());
                }
            },
            None => {},
        }
        i = i + 1;
    }
    let ghost runs_before = runs.deep_view();
    match chunker.finish() {
        Some(run) => {
            runs.push(run);
            proof {
                let tail = all.skip(start);
                assert(tail =~= all.subrange(start, i as int));
                assert(done + chunks_of(tail, cap) =~= done.push(tail));
                assert(runs.deep_view() =~= runs_before.push(run@));
            }
        },
        None => {
            proof {
                assert(all.skip(start).len() == 0);
                assert(done + chunks_of(all.skip(start), cap) =~= done);
            }
        },
    }
    runs
}

/// The sorted, duplicate-free form of the input: every line of the input
/// once, in ascending order. The input is worked through in chunks of
/// `capacity` lines, which bounds the number of lines sorted at once; the
/// result is the same for every capacity.
pub fn dedup_lines(lines: Vec<String>, capacity: usize) -> (out: Vec<String>)
    ensures
        is_dedup_of(out.deep_view(), lines.deep_view()),
{
    let ghost all = lines.deep_view();
    let runs = split_into_runs(lines, capacity);
    let out = merge_runs(&runs);
    proof {
        lemma_merge_of_chunk_runs(
            all,
            effective_capacity(capacity),
            runs.deep_view(),
            out.deep_view(),
        );
    }
    out
}

/// Runs hold the lines of the chunks they were made from.
pub proof fn lemma_runs_hold_chunks(runs: Seq<Seq<Seq<char>>>, chunks: Seq<Seq<Seq<char>>>)
    requires
        runs_of_chunks(runs, chunks),
    ensures
        lines_in(runs) == lines_in(chunks),
{
    assert forall|x: Seq<char>| lines_in(runs).contains(x) <==> lines_in(chunks).contains(x) by {
        if in_some_run(runs, x) {
            let k = choose|k: int| 0 <= k < runs.len() && #[trigger] runs[k].contains(x);
            assert(runs[k].to_set().contains(x));
            assert(chunks[k].to_set().contains(x));
            assert(chunks[k].contains(x));
        }
        if in_some_run(chunks, x) {
            let k = choose|k: int| 0 <= k < chunks.len() && #[trigger] chunks[k].contains(x);
            assert(chunks[k].to_set().contains(x));
            assert(is_dedup_of(runs[k], chunks[k]));
            assert(runs[k].to_set().contains(x));
            assert(runs[k].contains(x));
        }
    }
    assert(lines_in(runs) =~= lines_in(chunks));
}

/// Merging the runs of the chunks of an input gives its sorted,
/// duplicate-free form, whatever the capacity that the chunks were cut with.
pub proof fn lemma_merge_of_chunk_runs(
    input: Seq<Seq<char>>,
    capacity: nat,
    runs: Seq<Seq<Seq<char>>>,
    out: Seq<Seq<char>>,
)
    requires
        capacity >= 1,
        runs_of_chunks(runs, chunks_of(input, capacity)),
        is_merge_of(out, runs),
    ensures
        is_dedup_of(out, input),
{
    lemma_chunks_cover(input, capacity);
    lemma_runs_hold_chunks(runs, chunks_of(input, capacity));
}

/// A line that two chunks hold, a duplicate cut apart by a chunk boundary,
/// stands once in the output.
pub proof fn lemma_split_duplicate_once(
    input: Seq<Seq<char>>,
    capacity: nat,
    runs: Seq<Seq<Seq<char>>>,
    out: Seq<Seq<char>>,
    a: int,
    b: int,
    x: Seq<char>,
)
    requires
        capacity >= 1,
        runs_of_chunks(runs, chunks_of(input, capacity)),
        is_merge_of(out, runs),
        0 <= a < b < chunks_of(input, capacity).len(),
        chunks_of(input, capacity)[a].contains(x),
        chunks_of(input, capacity)[b].contains(x),
    ensures
        out.to_multiset().count(x) == 1,
{
    let chunks = chunks_of(input, capacity);
    assert(is_dedup_of(runs[a], chunks[a]));
    assert(is_dedup_of(runs[b], chunks[b]));
    assert(chunks[a].to_set().contains(x));
    assert(chunks[b].to_set().contains(x));
    assert(runs[a].to_set().contains(x));
    assert(runs[b].to_set().contains(x));
    lemma_shared_line_once(out, runs, a, b, x);
}

/// The capacity has no part in the result: one input, cut into chunks with
/// two capacities, gives the same output.
pub proof fn lemma_capacity_invariance(
    input: Seq<Seq<char>>,
    capacity_a: nat,
    runs_a: Seq<Seq<Seq<char>>>,
    out_a: Seq<Seq<char>>,
    capacity_b: nat,
    runs_b: Seq<Seq<Seq<char>>>,
    out_b: Seq<Seq<char>>,
)
    requires
        capacity_a >= 1,
        capacity_b >= 1,
        runs_of_chunks(runs_a, chunks_of(input, capacity_a)),
        runs_of_chunks(runs_b, chunks_of(input, capacity_b)),
        is_merge_of(out_a, runs_a),
        is_merge_of(out_b, runs_b),
    ensures
        out_a == out_b,
{
    lemma_merge_of_chunk_runs(input, capacity_a, runs_a, out_a);
    lemma_merge_of_chunk_runs(input, capacity_b, runs_b, out_b);
    lemma_dedup_unique(out_a, out_b, input);
}

} // verus!
