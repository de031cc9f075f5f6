//! The k-way merger: takes the head line of every run, hands the lines out
//! in ascending order, and says for each whether it is new or repeats the
//! line written last.

use vstd::multiset::Multiset;
use vstd::prelude::*;
use crate::heap::{is_least, MinHeap};
use crate::order::{
    line_le, line_lt, lemma_lt_irreflexive, lemma_lt_transitive, lemma_lt_trichotomy,
};
use crate::run::Run;
use crate::sorted::{lemma_increasing_no_duplicates, lemma_increasing_unique, strictly_increasing};

verus! {

/// What to do with the line that the merger has just taken from its heads.
pub struct Step {
    /// The run that the line came from. Its next line, if it has one, is to
    /// be handed to the merger before the merge goes on.
    pub run: usize,
    /// Whether the line is to be written: it differs from the line written
    /// last, or nothing has been written yet.
    pub emit: bool,
}

/// The state of a merge: the head lines of the runs that are not exhausted,
/// and the line that was written last.
pub struct Merger {
    heads: MinHeap,
    last: Option<String>,
}

impl Merger {
    /// The lines waiting to be merged, each with the run it came from.
    pub closed spec fn heads(&self) -> Multiset<(Seq<char>, usize)> {
        self.heads@
    }

    /// The line that was written last, if any was.
    pub closed spec fn last(&self) -> Option<Seq<char>> {
        match self.last {
            Some(line) => Some(line@),
            None => None,
        }
    }

    /// A merger with no heads that has written nothing.
    pub fn new() -> (merger: Merger)
        ensures
            merger.heads() == Multiset::<(Seq<char>, usize)>::empty(),
            merger.last() is None,
    {
        Merger { heads: MinHeap::new(), last: None }
    }

    /// Hands the merger the line at the head of run `run`.
    pub fn push_head(&mut self, line: String, run: usize)
        ensures
            final(self).heads() == old(self).heads().insert((line@, run)),
            final(self).last() == old(self).last(),
    {
        self.heads.push(line, run);
    }

    /// The number of lines waiting to be merged.
    pub fn pending(&self) -> (n: usize)
        ensures
            n == self.heads().len(),
    {
        self.heads.len()
    }

    /// The line that was written last, if any was.
    pub fn last_written(&self) -> (line: Option<&String>)
        ensures
            match line {
                Some(l) => self.last() == Some(l@),
                None => self.last() is None,
            },
    {
        self.last.as_ref()
    }

    /// Takes a least line from the heads and decides whether it is written.
    ///
    /// `None` means that no line is waiting: the merge is complete. Otherwise
    /// the line taken is the one that `last_written` gives after the call; it
    /// came from run `step.run`, no waiting line comes before it, and it is
    /// to be written unless it equals the line written before.
    pub fn advance(&mut self) -> (step: Option<Step>)
        ensures
            match step {
                None => {
                    &&& old(self).heads().len() == 0
                    &&& final(self).heads() == old(self).heads()
                    &&& final(self).last() == old(self).last()
                },
                Some(s) => {
                    &&& final(self).last() matches Some(line)
                    &&& old(self).heads().count((line, s.run)) > 0
                    &&& is_least(line, old(self).heads())
                    &&& final(self).heads() == old(self).heads().remove((line, s.run))
                    &&& s.emit == (old(self).last() != Some(line))
                },
            },
    {
        match self.heads.pop() {
            None => None,
            Some(entry) => {
                let emit = match &self.last {
                    None => true,
                    Some(previous) => !(*previous == entry.line),
                };
                if emit {
                    self.last = Some(entry.line);
                }
                Some(Step { run: entry.run, emit })
            },
        }
    }
}

/// The line `x` occurs in one of the runs.
pub open spec fn in_some_run(runs: Seq<Seq<Seq<char>>>, x: Seq<char>) -> bool {
    exists|r: int| 0 <= r < runs.len() && #[trigger] runs[r].contains(x)
}

/// All the lines that occur in the runs.
pub open spec fn lines_in(runs: Seq<Seq<Seq<char>>>) -> Set<Seq<char>> {
    Set::new(|x: Seq<char>| in_some_run(runs, x))
}

/// `out` is the merge of `runs`: strictly increasing, and holding exactly the
/// lines that occur in the runs, each once however many runs hold it.
pub open spec fn is_merge_of(out: Seq<Seq<char>>, runs: Seq<Seq<Seq<char>>>) -> bool {
    &&& strictly_increasing(out)
    &&& out.to_set() == lines_in(runs)
}

/// Merging no runs gives no lines.
pub proof fn lemma_merge_of_none(out: Seq<Seq<char>>)
    requires
        is_merge_of(out, Seq::<Seq<Seq<char>>>::empty()),
    ensures
        out == Seq::<Seq<char>>::empty(),
{
    if out.len() > 0 {
        assert(out.contains(out[0]));
        assert(out.to_set().contains(out[0]));
        assert(lines_in(Seq::<Seq<Seq<char>>>::empty()).contains(out[0]));
    }
    assert(out =~= Seq::<Seq<char>>::empty());
}

/// Merging a single run gives that run.
pub proof fn lemma_merge_of_one(out: Seq<Seq<char>>, run: Seq<Seq<char>>)
    requires
        strictly_increasing(run),
        is_merge_of(out, seq![run]),
    ensures
        out == run,
{
    let runs = seq![run];
    assert forall|x: Seq<char>| out.to_set().contains(x) <==> run.to_set().contains(x) by {
        if run.contains(x) {
            assert(runs[0].contains(x));
            assert(in_some_run(runs, x));
            assert(lines_in(runs).contains(x));
        }
        if out.contains(x) {
            assert(out.to_set().contains(x));
            assert(lines_in(runs).contains(x));
            let r = choose|r: int| 0 <= r < runs.len() && #[trigger] runs[r].contains(x);
            assert(runs[r] == run);
        }
    }
    assert(out.to_set() =~= run.to_set());
    lemma_increasing_unique(out, run);
}

/// A line that several runs hold stands once in their merge: a duplicate
/// that was split over two chunks does not survive.
pub proof fn lemma_shared_line_once(
    out: Seq<Seq<char>>,
    runs: Seq<Seq<Seq<char>>>,
    a: int,
    b: int,
    x: Seq<char>,
)
    requires
        is_merge_of(out, runs),
        0 <= a < runs.len(),
        0 <= b < runs.len(),
        runs[a].contains(x),
        runs[b].contains(x),
    ensures
        out.to_multiset().count(x) == 1,
{
    assert(in_some_run(runs, x));
    assert(lines_in(runs).contains(x));
    assert(out.to_set().contains(x));
    lemma_increasing_no_duplicates(out);
}

/// The line written last when `out` is what has been written.
spec fn last_of(out: Seq<Seq<char>>) -> Option<Seq<char>> {
    if out.len() > 0 {
        Some(out.last())
    } else {
        None
    }
}

/// Run `r` has its head waiting: the line before its cursor is among the heads.
spec fn has_head(
    runs: Seq<Seq<Seq<char>>>,
    cursors: Seq<usize>,
    heads: Multiset<(Seq<char>, usize)>,
    r: int,
) -> bool {
    cursors[r] >= 1 && heads.count((runs[r][cursors[r] - 1], r as usize)) > 0
}

/// The heads agree with the cursors: every head is the line before the cursor
/// of its run, no run has two heads, and a run that is not exhausted has one.
spec fn heads_ok(
    runs: Seq<Seq<Seq<char>>>,
    cursors: Seq<usize>,
    heads: Multiset<(Seq<char>, usize)>,
) -> bool {
    &&& cursors.len() == runs.len()
    &&& runs.len() <= usize::MAX
    &&& forall|r: int| 0 <= r < runs.len() ==> (#[trigger] cursors[r]) <= runs[r].len()
    &&& forall|e: (Seq<char>, usize)| #[trigger]
        heads.count(e) > 0 ==> {
            &&& e.1 < runs.len()
            &&& cursors[e.1 as int] >= 1
            &&& e.0 == runs[e.1 as int][cursors[e.1 as int] - 1]
        }
    &&& forall|e: (Seq<char>, usize)| #[trigger] heads.count(e) <= 1
    &&& forall|r: int|
        0 <= r < runs.len() && (#[trigger] cursors[r]) < runs[r].len() ==> has_head(
            runs,
            cursors,
            heads,
            r,
        )
}

/// What has been written agrees with the cursors: it is strictly increasing,
/// no head comes before its last line, it holds every line that a cursor has
/// passed and that is no longer a head, and it holds lines of the runs only.
spec fn out_ok(
    runs: Seq<Seq<Seq<char>>>,
    cursors: Seq<usize>,
    heads: Multiset<(Seq<char>, usize)>,
    out: Seq<Seq<char>>,
) -> bool {
    &&& strictly_increasing(out)
    &&& forall|e: (Seq<char>, usize)| #[trigger]
        heads.count(e) > 0 && out.len() > 0 ==> line_le(out.last(), e.0)
    &&& forall|r: int, j: int|
        0 <= r < runs.len() && 0 <= j < cursors[r] && !(has_head(runs, cursors, heads, r) && j
            == cursors[r] - 1) ==> out.contains(#[trigger] runs[r][j])
    &&& forall|x: Seq<char>| #[trigger] out.contains(x) ==> in_some_run(runs, x)
}

/// The number of lines that the cursors have not passed yet.
spec fn remaining(runs: Seq<Seq<Seq<char>>>, cursors: Seq<usize>) -> int
    decreases runs.len(),
{
    if runs.len() == 0 {
        0
    } else {
        remaining(runs.drop_last(), cursors.drop_last()) + (runs.last().len() - cursors.last())
    }
}

/// While no cursor has gone beyond its run, the count is not negative.
proof fn lemma_remaining_bounds(runs: Seq<Seq<Seq<char>>>, cursors: Seq<usize>)
    requires
        cursors.len() == runs.len(),
        forall|r: int| 0 <= r < runs.len() ==> (#[trigger] cursors[r]) <= runs[r].len(),
    ensures
        remaining(runs, cursors) >= 0,
    decreases runs.len(),
{
    if runs.len() > 0 {
        lemma_remaining_bounds(runs.drop_last(), cursors.drop_last());
    }
}

/// Moving one cursor changes the count by as much as the cursor moved.
proof fn lemma_remaining_moves(runs: Seq<Seq<Seq<char>>>, cursors: Seq<usize>, r: int, c: usize)
    requires
        cursors.len() == runs.len(),
        0 <= r < runs.len(),
    ensures
        remaining(runs, cursors.update(r, c)) == remaining(runs, cursors) + cursors[r] - c,
    decreases runs.len(),
{
    let moved = cursors.update(r, c);
    if r == runs.len() - 1 {
        assert(moved.drop_last() =~= cursors.drop_last());
    } else {
        lemma_remaining_moves(runs.drop_last(), cursors.drop_last(), r, c);
        assert(moved.drop_last() =~= cursors.drop_last().update(r, c));
    }
}

/// Taking one entry out of a multiset lowers its count by one and leaves the
/// other counts alone.
proof fn lemma_remove_counts(heads: Multiset<(Seq<char>, usize)>, taken: (Seq<char>, usize))
    requires
        heads.count(taken) > 0,
    ensures
        heads.remove(taken).len() == heads.len() - 1,
        forall|e: (Seq<char>, usize)| #[trigger]
            heads.remove(taken).count(e) == if e == taken {
                heads.count(e) - 1
            } else {
                heads.count(e) as int
            },
{
    broadcast use vstd::multiset::group_multiset_axioms;

    let one = Multiset::singleton(taken);
    assert(one.count(taken) == 1);
    assert forall|e: (Seq<char>, usize)| #[trigger]
        heads.remove(taken).count(e) == if e == taken {
            heads.count(e) - 1
        } else {
            heads.count(e) as int
        } by {
        assert(heads.sub(one).count(e) == if heads.count(e) >= one.count(e) {
            heads.count(e) - one.count(e)
        } else {
            0
        });
        if e != taken {
            assert(one.count(e) == 0);
        }
    }
    assert forall|e: (Seq<char>, usize)| one.count(e) <= heads.count(e) by {
        if e != taken {
            assert(one.count(e) == 0);
        }
    }
    assert(one.subset_of(heads));
}

/// Putting one entry into a multiset raises its count by one and leaves the
/// other counts alone.
proof fn lemma_insert_counts(heads: Multiset<(Seq<char>, usize)>, added: (Seq<char>, usize))
    ensures
        heads.insert(added).len() == heads.len() + 1,
        forall|e: (Seq<char>, usize)| #[trigger]
            heads.insert(added).count(e) == if e == added {
                heads.count(e) + 1
            } else {
                heads.count(e)
            },
{
    broadcast use vstd::multiset::group_multiset_axioms;

    let one = Multiset::singleton(added);
    assert(one.count(added) == 1);
    assert forall|e: (Seq<char>, usize)| #[trigger]
        heads.insert(added).count(e) == if e == added {
            heads.count(e) + 1
        } else {
            heads.count(e)
        } by {
        assert(heads.add(one).count(e) == heads.count(e) + one.count(e));
        if e != added {
            assert(one.count(e) == 0);
        }
    }
}

/// Before anything is written every run that was opened has its first line
/// waiting, or is empty.
spec fn all_waiting(
    runs: Seq<Seq<Seq<char>>>,
    cursors: Seq<usize>,
    heads: Multiset<(Seq<char>, usize)>,
) -> bool {
    forall|r: int|
        0 <= r < runs.len() ==> (#[trigger] cursors[r]) == 0 || (cursors[r] == 1 && has_head(
            runs,
            cursors,
            heads,
            r,
        ))
}

/// Opening run `k` after the runs before it: its first line becomes a head,
/// or, where it has none, its cursor stays at the start.
proof fn lemma_open_run(
    runs: Seq<Seq<Seq<char>>>,
    k: int,
    cursors: Seq<usize>,
    heads: Multiset<(Seq<char>, usize)>,
)
    requires
        0 <= k < runs.len() <= usize::MAX,
        heads_ok(runs.take(k), cursors, heads),
        all_waiting(runs.take(k), cursors, heads),
    ensures
        runs[k].len() == 0 ==> heads_ok(runs.take(k + 1), cursors.push(0), heads) && all_waiting(
            runs.take(k + 1),
            cursors.push(0),
            heads,
        ),
        runs[k].len() > 0 ==> heads_ok(
            runs.take(k + 1),
            cursors.push(1),
            heads.insert((runs[k][0], k as usize)),
        ) && all_waiting(
            runs.take(k + 1),
            cursors.push(1),
            heads.insert((runs[k][0], k as usize)),
        ),
{
    let before = runs.take(k);
    let after = runs.take(k + 1);
    assert forall|r: int| 0 <= r < k implies before[r] == after[r] by {}
    if runs[k].len() == 0 {
        let cursors2 = cursors.push(0);
        assert forall|r: int| 0 <= r < k implies has_head(before, cursors, heads, r) == has_head(
            after,
            cursors2,
            heads,
            r,
        ) by {}
        assert forall|r: int| 0 <= r < after.len() implies (#[trigger] cursors2[r]) == 0 || (
        cursors2[r] == 1 && has_head(after, cursors2, heads, r)) by {
            if r < k {
                assert(cursors[r] == cursors2[r]);
            }
        }
        assert forall|r: int|
            0 <= r < after.len() && (#[trigger] cursors2[r]) < after[r].len() implies has_head(
            after,
            cursors2,
            heads,
            r,
        ) by {
            if r < k {
                assert(cursors[r] == cursors2[r]);
            }
        }
        assert forall|r: int| 0 <= r < after.len() implies (#[trigger] cursors2[r])
            <= after[r].len() by {
            if r < k {
                assert(cursors[r] == cursors2[r]);
            }
        }
        assert(heads_ok(after, cursors2, heads));
    } else {
        let cursors2 = cursors.push(1);
        let added = (runs[k][0], k as usize);
        let heads2 = heads.insert(added);
        lemma_insert_counts(heads, added);
        assert(heads.count(added) == 0);
        assert forall|r: int| 0 <= r < k implies has_head(before, cursors, heads, r) == has_head(
            after,
            cursors2,
            heads2,
            r,
        ) by {}
        assert(has_head(after, cursors2, heads2, k));
        assert forall|r: int| 0 <= r < after.len() implies (#[trigger] cursors2[r]) == 0 || (
        cursors2[r] == 1 && has_head(after, cursors2, heads2, r)) by {
            if r < k {
                assert(cursors[r] == cursors2[r]);
            }
        }
        assert forall|r: int|
            0 <= r < after.len() && (#[trigger] cursors2[r]) < after[r].len() implies has_head(
            after,
            cursors2,
            heads2,
            r,
        ) by {
            if r < k {
                assert(cursors[r] == cursors2[r]);
            }
        }
        assert forall|r: int| 0 <= r < after.len() implies (#[trigger] cursors2[r])
            <= after[r].len() by {
            if r < k {
                assert(cursors[r] == cursors2[r]);
            }
        }
        assert forall|e: (Seq<char>, usize)| #[trigger] heads2.count(e) > 0 implies {
            &&& e.1 < after.len()
            &&& cursors2[e.1 as int] >= 1
            &&& e.0 == after[e.1 as int][cursors2[e.1 as int] - 1]
        } by {
            if e != added {
                assert(heads.count(e) > 0);
            }
        }
        assert forall|e: (Seq<char>, usize)| #[trigger] heads2.count(e) <= 1 by {
            assert(heads.count(e) <= 1);
        }
        assert(heads_ok(after, cursors2, heads2));
    }
}

/// With every opened run waiting and nothing written, what has been written
/// agrees with the cursors.
proof fn lemma_nothing_written(
    runs: Seq<Seq<Seq<char>>>,
    cursors: Seq<usize>,
    heads: Multiset<(Seq<char>, usize)>,
)
    requires
        heads_ok(runs, cursors, heads),
        all_waiting(runs, cursors, heads),
    ensures
        out_ok(runs, cursors, heads, Seq::<Seq<char>>::empty()),
{
    let out = Seq::<Seq<char>>::empty();
    assert forall|r: int, j: int|
        0 <= r < runs.len() && 0 <= j < cursors[r] && !(has_head(runs, cursors, heads, r) && j
            == cursors[r] - 1) implies out.contains(#[trigger] runs[r][j]) by {
        assert(cursors[r] == 0 || (cursors[r] == 1 && has_head(runs, cursors, heads, r)));
    }
}

/// What follows for the output when the merger takes the head `(line, r0)`
/// and writes it unless it repeats the line written last.
proof fn lemma_take_head(
    runs: Seq<Seq<Seq<char>>>,
    cursors: Seq<usize>,
    heads: Multiset<(Seq<char>, usize)>,
    out: Seq<Seq<char>>,
    out2: Seq<Seq<char>>,
    line: Seq<char>,
    r0: usize,
)
    requires
        heads_ok(runs, cursors, heads),
        out_ok(runs, cursors, heads, out),
        heads.count((line, r0)) > 0,
        out2 == if last_of(out) != Some(line) {
            out.push(line)
        } else {
            out
        },
    ensures
        r0 < runs.len(),
        1 <= cursors[r0 as int] <= runs[r0 as int].len(),
        line == runs[r0 as int][cursors[r0 as int] - 1],
        strictly_increasing(out2),
        last_of(out2) == Some(line),
        forall|x: Seq<char>| #[trigger] out2.contains(x) ==> in_some_run(runs, x),
        forall|x: Seq<char>| out.contains(x) ==> #[trigger] out2.contains(x),
{
    let c = cursors[r0 as int];
    assert(c <= runs[r0 as int].len());
    assert(runs[r0 as int].contains(line));
    assert(in_some_run(runs, line));
    if last_of(out) != Some(line) {
        assert forall|i: int, j: int| #![trigger out2[i], out2[j]] 0 <= i < j < out2.len() implies line_lt(
            out2[i],
            out2[j],
        ) by {
            if j < out.len() {
                assert(line_lt(out[i], out[j]));
            } else {
                let m = out.len() - 1;
                assert(line_le(out.last(), line));
                lemma_lt_trichotomy(out[m], line);
                if i < m {
                    assert(line_lt(out[i], out[m]));
                    lemma_lt_transitive(out[i], out[m], line);
                }
            }
        }
        assert forall|x: Seq<char>| #[trigger] out2.contains(x) implies in_some_run(runs, x) by {
            let i = choose|i: int| 0 <= i < out2.len() && out2[i] == x;
            if i < out.len() {
                assert(out[i] == x);
                assert(out.contains(x));
            }
        }
        assert forall|x: Seq<char>| out.contains(x) implies #[trigger] out2.contains(x) by {
            let i = choose|i: int| 0 <= i < out.len() && out[i] == x;
            assert(out2[i] == x);
        }
    }
}

/// The merger has taken the head `(line, r0)`, and run `r0` has a further
/// line: with the cursor moved on and that line as the new head, all agrees.
proof fn lemma_run_goes_on(
    runs: Seq<Seq<Seq<char>>>,
    cursors: Seq<usize>,
    heads: Multiset<(Seq<char>, usize)>,
    out: Seq<Seq<char>>,
    out2: Seq<Seq<char>>,
    line: Seq<char>,
    r0: usize,
)
    requires
        heads_ok(runs, cursors, heads),
        out_ok(runs, cursors, heads, out),
        heads.count((line, r0)) > 0,
        is_least(line, heads),
        strictly_increasing(out2),
        last_of(out2) == Some(line),
        forall|x: Seq<char>| #[trigger] out2.contains(x) ==> in_some_run(runs, x),
        forall|x: Seq<char>| out.contains(x) ==> #[trigger] out2.contains(x),
        r0 < runs.len(),
        cursors[r0 as int] < runs[r0 as int].len() <= usize::MAX,
        strictly_increasing(runs[r0 as int]),
    ensures
        ({
            let c = cursors[r0 as int];
            let cursors2 = cursors.update(r0 as int, (c + 1) as usize);
            let heads2 = heads.remove((line, r0)).insert((runs[r0 as int][c as int], r0));
            &&& heads_ok(runs, cursors2, heads2)
            &&& out_ok(runs, cursors2, heads2, out2)
            &&& heads2.len() == heads.len()
            &&& remaining(runs, cursors2) == remaining(runs, cursors) - 1
        }),
{
    let c = cursors[r0 as int];
    let cursors2 = cursors.update(r0 as int, (c + 1) as usize);
    let taken = (line, r0);
    let heads1 = heads.remove(taken);
    let added = (runs[r0 as int][c as int], r0);
    let heads2 = heads1.insert(added);
    lemma_remove_counts(heads, taken);
    lemma_insert_counts(heads1, added);
    lemma_remaining_moves(runs, cursors, r0 as int, (c + 1) as usize);
    assert(heads.count(taken) <= 1);
    assert(line == runs[r0 as int][c - 1]);
    assert(line_lt(runs[r0 as int][c - 1], runs[r0 as int][c as int]));
    lemma_lt_irreflexive(line);
    lemma_lt_trichotomy(line, added.0);
    assert(added != taken);
    assert(heads.count(added) == 0) by {
        if heads.count(added) > 0 {
            assert(added.0 == runs[r0 as int][c - 1]);
        }
    }
    assert(heads2.count(added) == 1);
    assert(out2.contains(line)) by {
        assert(out2[out2.len() - 1] == line);
    }
    assert forall|r: int| 0 <= r < runs.len() && r != r0 implies has_head(
        runs,
        cursors,
        heads,
        r,
    ) == has_head(runs, cursors2, heads2, r) by {
        let e = (runs[r][cursors[r] - 1], r as usize);
        assert(e != taken && e != added);
        assert(heads2.count(e) == heads1.count(e));
        assert(heads1.count(e) == heads.count(e));
    }
    assert(has_head(runs, cursors2, heads2, r0 as int));
    assert forall|r: int| 0 <= r < runs.len() implies (#[trigger] cursors2[r])
        <= runs[r].len() by {
        if r != r0 {
            assert(cursors[r] == cursors2[r]);
        }
    }
    assert forall|e: (Seq<char>, usize)| #[trigger] heads2.count(e) > 0 implies {
        &&& e.1 < runs.len()
        &&& cursors2[e.1 as int] >= 1
        &&& e.0 == runs[e.1 as int][cursors2[e.1 as int] - 1]
    } by {
        if e != added {
            assert(heads1.count(e) > 0);
            assert(heads.count(e) > 0);
            assert(e != taken);
            if e.1 == r0 {
                assert(e.0 == runs[r0 as int][c - 1]);
            }
        }
    }
    assert forall|e: (Seq<char>, usize)| #[trigger] heads2.count(e) <= 1 by {
        assert(heads.count(e) <= 1);
        assert(heads1.count(e) <= heads.count(e));
    }
    assert forall|r: int|
        0 <= r < runs.len() && (#[trigger] cursors2[r]) < runs[r].len() implies has_head(
        runs,
        cursors2,
        heads2,
        r,
    ) by {
        if r != r0 {
            assert(cursors[r] == cursors2[r]);
        }
    }
    assert(heads_ok(runs, cursors2, heads2));
    assert forall|e: (Seq<char>, usize)| #[trigger]
        heads2.count(e) > 0 && out2.len() > 0 implies line_le(out2.last(), e.0) by {
        if e != added {
            assert(heads1.count(e) > 0);
            assert(heads.count(e) > 0);
        }
    }
    assert forall|r: int, j: int|
        0 <= r < runs.len() && 0 <= j < cursors2[r] && !(has_head(runs, cursors2, heads2, r) && j
            == cursors2[r] - 1) implies out2.contains(#[trigger] runs[r][j]) by {
        if r == r0 {
            if j < c - 1 {
                assert(out.contains(runs[r][j]));
            }
        } else {
            assert(cursors[r] == cursors2[r]);
            assert(out.contains(runs[r][j]));
        }
    }
}

/// The merger has taken the head `(line, r0)`, and run `r0` has no further
/// line: without that head all agrees.
proof fn lemma_run_ends(
    runs: Seq<Seq<Seq<char>>>,
    cursors: Seq<usize>,
    heads: Multiset<(Seq<char>, usize)>,
    out: Seq<Seq<char>>,
    out2: Seq<Seq<char>>,
    line: Seq<char>,
    r0: usize,
)
    requires
        heads_ok(runs, cursors, heads),
        out_ok(runs, cursors, heads, out),
        heads.count((line, r0)) > 0,
        is_least(line, heads),
        strictly_increasing(out2),
        last_of(out2) == Some(line),
        forall|x: Seq<char>| #[trigger] out2.contains(x) ==> in_some_run(runs, x),
        forall|x: Seq<char>| out.contains(x) ==> #[trigger] out2.contains(x),
        r0 < runs.len(),
        cursors[r0 as int] == runs[r0 as int].len(),
    ensures
        ({
            let heads2 = heads.remove((line, r0));
            &&& heads_ok(runs, cursors, heads2)
            &&& out_ok(runs, cursors, heads2, out2)
            &&& heads2.len() == heads.len() - 1
        }),
{
    let c = cursors[r0 as int];
    let taken = (line, r0);
    let heads2 = heads.remove(taken);
    lemma_remove_counts(heads, taken);
    assert(heads.count(taken) <= 1);
    assert(line == runs[r0 as int][c - 1]);
    assert(out2.contains(line)) by {
        assert(out2[out2.len() - 1] == line);
    }
    assert forall|r: int| 0 <= r < runs.len() && r != r0 implies has_head(
        runs,
        cursors,
        heads,
        r,
    ) == has_head(runs, cursors, heads2, r) by {
        let e = (runs[r][cursors[r] - 1], r as usize);
        assert(e != taken);
        assert(heads2.count(e) == heads.count(e));
    }
    assert(!has_head(runs, cursors, heads2, r0 as int));
    assert forall|e: (Seq<char>, usize)| #[trigger] heads2.count(e) > 0 implies {
        &&& e.1 < runs.len()
        &&& cursors[e.1 as int] >= 1
        &&& e.0 == runs[e.1 as int][cursors[e.1 as int] - 1]
    } by {
        assert(heads.count(e) > 0);
    }
    assert forall|e: (Seq<char>, usize)| #[trigger] heads2.count(e) <= 1 by {
        assert(heads.count(e) <= 1);
    }
    assert(heads_ok(runs, cursors, heads2));
    assert forall|e: (Seq<char>, usize)| #[trigger]
        heads2.count(e) > 0 && out2.len() > 0 implies line_le(out2.last(), e.0) by {
        assert(heads.count(e) > 0);
    }
    assert forall|r: int, j: int|
        0 <= r < runs.len() && 0 <= j < cursors[r] && !(has_head(runs, cursors, heads2, r) && j
            == cursors[r] - 1) implies out2.contains(#[trigger] runs[r][j]) by {
        if r == r0 {
            if j < c - 1 {
                assert(out.contains(runs[r][j]));
            }
        } else {
            assert(out.contains(runs[r][j]));
        }
    }
}

/// With no head left every line of every run has been written.
proof fn lemma_all_written(
    runs: Seq<Seq<Seq<char>>>,
    cursors: Seq<usize>,
    heads: Multiset<(Seq<char>, usize)>,
    out: Seq<Seq<char>>,
)
    requires
        heads_ok(runs, cursors, heads),
        out_ok(runs, cursors, heads, out),
        heads.len() == 0,
    ensures
        is_merge_of(out, runs),
{
    broadcast use vstd::multiset::group_multiset_axioms;

    assert forall|e: (Seq<char>, usize)| heads.count(e) == 0 by {
        assert(heads.count(e) <= heads.len());
    }
    assert forall|x: Seq<char>| out.to_set().contains(x) <==> lines_in(runs).contains(x) by {
        if in_some_run(runs, x) {
            let r = choose|r: int| 0 <= r < runs.len() && #[trigger] runs[r].contains(x);
            let j = choose|j: int| 0 <= j < runs[r].len() && runs[r][j] == x;
            assert(!has_head(runs, cursors, heads, r));
            assert(!(cursors[r] < runs[r].len()));
            assert(out.contains(runs[r][j]));
        }
    }
    assert(out.to_set() =~= lines_in(runs));
}

/// Merges runs into one sorted, duplicate-free vector of lines: it holds
/// every line that occurs in any of the runs once, whatever the number of
/// runs that hold it. Without runs the result is empty.
pub fn merge_runs(runs: &Vec<Run>) -> (out: Vec<String>)
    ensures
        is_merge_of(out.deep_view(), runs.deep_view()),
{
    let ghost rv = runs.deep_view();
    let n = runs.len();
    let mut merger = Merger::new();
    let mut cursors: Vec<usize> = Vec::new();
    let mut k: usize = 0;
    proof {
        broadcast use vstd::multiset::group_multiset_axioms;

        assert(rv.take(0) =~= Seq::<Seq<Seq<char>>>::empty());
        assert(heads_ok(rv.take(0), cursors@, merger.heads()));
    }
    while k < n
        invariant
            n == runs.len(),
            rv == runs.deep_view(),
            k <= n,
            cursors.len() == k,
            heads_ok(rv.take(k as int), cursors@, merger.heads()),
            all_waiting(rv.take(k as int), cursors@, merger.heads()),
            merger.last() is None,
        decreases n - k,
    {
        proof {
            lemma_open_run(rv, k as int, cursors@, merger.heads());
        }
        match runs[k].get(0) {
            Some(line) => {
                merger.push_head(line.clone(), k);
                cursors.push(1);
            },
            None => {
                cursors.push(0);
            },
        }
        k = k + 1;
    }
    let mut out: Vec<String> = Vec::new();
    proof {
        assert(rv.take(k as int) =~= rv);
        lemma_nothing_written(rv, cursors@, merger.heads());
        assert(out.deep_view() =~= Seq::<Seq<char>>::empty());
    }
    loop
        invariant
            n == runs.len(),
            rv == runs.deep_view(),
            heads_ok(rv, cursors@, merger.heads()),
            out_ok(rv, cursors@, merger.heads(), out.deep_view()),
            merger.last() == last_of(out.deep_view()),
        ensures
            is_merge_of(out.deep_view(), rv),
        decreases merger.heads().len() + 2 * remaining(rv, cursors@),
    {
        let ghost heads0 = merger.heads();
        let ghost out0 = out.deep_view();

        match merger.advance() {
            None => {
                proof {
                    lemma_all_written(rv, cursors@, heads0, out0);
                }
                break;
            },
            Some(step) => {
                let r0 = step.run;
                let ghost line = merger.last()->0;
                if step.emit {
                    match merger.last_written() {
                        Some(written) => {
                            out.push(written.clone());
                        },
                        None => {},
                    }
                }
                let ghost out2 = out.deep_view();
                proof {
                    if step.emit {
                        assert(out2 =~= out0.push(line));
                    }
                    lemma_take_head(rv, cursors@, heads0, out0, out2, line, r0);
                }
                let c = cursors[r0];
                match runs[r0].get(c) {
                    Some(next) => {
                        proof {
                            lemma_run_goes_on(rv, cursors@, heads0, out0, out2, line, r0);
                        }
                        merger.push_head(next.clone(), r0);
                        cursors[r0] = c + 1;
                    },
                    None => {
                        proof {
                            lemma_run_ends(rv, cursors@, heads0, out0, out2, line, r0);
                        }
                    },
                }
            },
        }
        proof {
            lemma_remaining_bounds(rv, cursors@);
        }
    }
    out
}

} // verus!
