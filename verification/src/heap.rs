//! The priority structure of the merge: a binary min-heap of the lines that
//! stand at the heads of the runs, each with the run it came from.

use vstd::multiset::Multiset;
use vstd::prelude::*;
use crate::order::{line_le, line_less, lemma_le_transitive, lemma_lt_trichotomy};

verus! {

/// A line waiting to be merged, and the run that it was read from. Entries
/// are ordered by the line alone; the run only tells them apart.
pub struct Entry {
    pub line: String,
    pub run: usize,
}

impl View for Entry {
    type V = (Seq<char>, usize);

    open spec fn view(&self) -> (Seq<char>, usize) {
        (self.line@, self.run)
    }
}

/// The entries of a sequence, each as a pair of line and run.
spec fn keys(s: Seq<Entry>) -> Seq<(Seq<char>, usize)> {
    s.map_values(|e: Entry| e@)
}

/// The position above `k` in the heap.
spec fn parent(k: int) -> int {
    (k - 1) / 2
}

/// The entry at `k` does not come before the one above it.
spec fn ordered_at(s: Seq<Entry>, k: int) -> bool {
    line_le(s[parent(k)].line@, s[k].line@)
}

/// No entry comes before the one above it.
spec fn heap_ordered(s: Seq<Entry>) -> bool {
    forall|k: int| 0 < k < s.len() ==> #[trigger] ordered_at(s, k)
}

/// In an ordered heap no entry comes before the first one.
proof fn lemma_root_is_least(s: Seq<Entry>, k: int)
    requires
        heap_ordered(s),
        0 <= k < s.len(),
    ensures
        line_le(s[0].line@, s[k].line@),
    decreases k,
{
    if k == 0 {
        lemma_lt_trichotomy(s[0].line@, s[0].line@);
    } else {
        assert(ordered_at(s, k));
        lemma_root_is_least(s, parent(k));
        lemma_le_transitive(s[0].line@, s[parent(k)].line@, s[k].line@);
    }
}

/// Exchanging two entries changes nothing in what the sequence holds.
proof fn lemma_swap_keeps_entries(s: Seq<Entry>, i: int, j: int)
    requires
        0 <= i < s.len(),
        0 <= j < s.len(),
    ensures
        keys(s.update(i, s[j]).update(j, s[i])).to_multiset() == keys(s).to_multiset(),
{
    broadcast use vstd::multiset::group_multiset_axioms;

    let k0 = keys(s);
    let k1 = k0.update(i, s[j]@);
    let k2 = k1.update(j, s[i]@);
    assert(keys(s.update(i, s[j]).update(j, s[i])) =~= k2);
    vstd::seq_lib::to_multiset_update(k0, i, s[j]@);
    vstd::seq_lib::to_multiset_update(k1, j, s[i]@);
    vstd::seq_lib::to_multiset_contains(k0, s[j]@);
    vstd::seq_lib::to_multiset_contains(k0, s[i]@);
    assert(k0[i] == s[i]@ && k0[j] == s[j]@);
    assert(k0.contains(s[i]@) && k0.contains(s[j]@));
    assert(k2.to_multiset() =~= k0.to_multiset());
}

/// Exchanges the entries at two different positions.
fn swap_entries(v: &mut Vec<Entry>, i: usize, j: usize)
    requires
        i < old(v).len(),
        j < old(v).len(),
        i != j,
    ensures
        final(v)@ == old(v)@.update(i as int, old(v)@[j as int]).update(j as int, old(v)@[i as int]),
        keys(final(v)@).to_multiset() == keys(old(v)@).to_multiset(),
{
    let mut hold = Entry { line: String::new(), run: 0 };
    core::mem::swap(&mut v[i], &mut hold);
    core::mem::swap(&mut v[j], &mut hold);
    core::mem::swap(&mut v[i], &mut hold);
    proof {
        assert(v@ =~= old(v)@.update(i as int, old(v)@[j as int]).update(
            j as int,
            old(v)@[i as int],
        ));
        lemma_swap_keeps_entries(old(v)@, i as int, j as int);
    }
}

/// Moves the entry at `start` up until the one above it no longer comes
/// after it. Every other entry must already be in order with the one above.
fn sift_up(v: &mut Vec<Entry>, start: usize)
    requires
        start < old(v).len(),
        forall|k: int| 0 < k < old(v).len() && k != start ==> #[trigger] ordered_at(old(v)@, k),
        forall|k: int|
            0 < k < old(v).len() && parent(k) == start && start > 0 ==> line_le(
                old(v)@[parent(start as int)].line@,
                (#[trigger] old(v)@[k]).line@,
            ),
    ensures
        heap_ordered(final(v)@),
        keys(final(v)@).to_multiset() == keys(old(v)@).to_multiset(),
        final(v)@.len() == old(v)@.len(),
{
    let mut i = start;
    while i > 0
        invariant
            i < v.len(),
            v@.len() == old(v)@.len(),
            keys(v@).to_multiset() == keys(old(v)@).to_multiset(),
            forall|k: int| 0 < k < v.len() && k != i ==> #[trigger] ordered_at(v@, k),
            forall|k: int|
                0 < k < v.len() && parent(k) == i && i > 0 ==> line_le(
                    v@[parent(i as int)].line@,
                    (#[trigger] v@[k]).line@,
                ),
        ensures
            heap_ordered(v@),
            v@.len() == old(v)@.len(),
            keys(v@).to_multiset() == keys(old(v)@).to_multiset(),
        decreases i,
    {
        let up = (i - 1) / 2;
        if !line_less(v[i].line.as_str(), v[up].line.as_str()) {
            proof {
                assert(ordered_at(v@, i as int));
            }
            break;
        }
        let ghost s = v@;
        swap_entries(v, i, up);
        proof {
            let t = v@;
            lemma_lt_trichotomy(s[i as int].line@, s[up as int].line@);
            assert forall|k: int| 0 < k < t.len() && k != up implies #[trigger] ordered_at(t, k) by {
                if k == i {
                } else if parent(k) == i {
                    assert(line_le(s[parent(i as int)].line@, s[k].line@));
                } else if parent(k) == up {
                    assert(ordered_at(s, k));
                    lemma_le_transitive(s[i as int].line@, s[up as int].line@, s[k].line@);
                } else {
                    assert(ordered_at(s, k));
                }
            }
            assert forall|k: int| 0 < k < t.len() && parent(k) == up && up > 0 implies line_le(
                t[parent(up as int)].line@,
                (#[trigger] t[k]).line@,
            ) by {
                assert(ordered_at(s, up as int));
                if k != i {
                    assert(ordered_at(s, k));
                    lemma_le_transitive(
                        s[parent(up as int)].line@,
                        s[up as int].line@,
                        s[k].line@,
                    );
                }
            }
        }
        i = up;
    }
}

/// Moves the first entry down until neither entry below it comes before it.
/// Every other entry must already be in order with the one above.
fn sift_down(v: &mut Vec<Entry>)
    requires
        forall|k: int| 0 < k < old(v).len() && parent(k) != 0 ==> #[trigger] ordered_at(old(v)@, k),
    ensures
        heap_ordered(final(v)@),
        keys(final(v)@).to_multiset() == keys(old(v)@).to_multiset(),
        final(v)@.len() == old(v)@.len(),
{
    let n = v.len();
    let mut i: usize = 0;
    while i < n / 2
        invariant
            n == v.len(),
            v@.len() == old(v)@.len(),
            keys(v@).to_multiset() == keys(old(v)@).to_multiset(),
            forall|k: int| 0 < k < v.len() && parent(k) != i ==> #[trigger] ordered_at(v@, k),
            forall|k: int|
                0 < k < v.len() && parent(k) == i && i > 0 ==> line_le(
                    v@[parent(i as int)].line@,
                    (#[trigger] v@[k]).line@,
                ),
        ensures
            heap_ordered(v@),
            v@.len() == old(v)@.len(),
            keys(v@).to_multiset() == keys(old(v)@).to_multiset(),
        decreases n - i,
    {
        let left = 2 * i + 1;
        let right = left + 1;
        let low = if right < n && line_less(v[right].line.as_str(), v[left].line.as_str()) {
            right
        } else {
            left
        };
        let ghost other = if low == left { right as int } else { left as int };
        if !line_less(v[low].line.as_str(), v[i].line.as_str()) {
            proof {
                let s = v@;
                assert forall|k: int| 0 < k < s.len() implies #[trigger] ordered_at(s, k) by {
                    if parent(k) == i {
                        if k != low {
                            assert(k == other);
                            lemma_lt_trichotomy(s[left as int].line@, s[right as int].line@);
                            lemma_le_transitive(s[i as int].line@, s[low as int].line@, s[k].line@);
                        }
                    }
                }
            }
            break;
        }
        let ghost s = v@;
        swap_entries(v, i, low);
        proof {
            let t = v@;
            lemma_lt_trichotomy(s[low as int].line@, s[i as int].line@);
            assert forall|k: int| 0 < k < t.len() && parent(k) != low implies #[trigger] ordered_at(
                t,
                k,
            ) by {
                if k == low {
                } else if parent(k) == i {
                    assert(k == other);
                    lemma_lt_trichotomy(s[left as int].line@, s[right as int].line@);
                } else if k == i {
                    assert(line_le(s[parent(i as int)].line@, s[low as int].line@));
                } else {
                    assert(ordered_at(s, k));
                }
            }
            assert forall|k: int| 0 < k < t.len() && parent(k) == low && low > 0 implies line_le(
                t[parent(low as int)].line@,
                (#[trigger] t[k]).line@,
            ) by {
                assert(ordered_at(s, k));
            }
        }
        i = low;
    }
}

/// What was added on both sides can be taken away again.
proof fn lemma_cancel_insert(
    a: Multiset<(Seq<char>, usize)>,
    m: Multiset<(Seq<char>, usize)>,
    added: (Seq<char>, usize),
    taken: (Seq<char>, usize),
)
    requires
        a.insert(added) == m.insert(added).remove(taken),
        m.count(taken) > 0,
    ensures
        a == m.remove(taken),
{
    broadcast use vstd::multiset::group_multiset_axioms;

    assert forall|x: (Seq<char>, usize)| a.count(x) == m.remove(taken).count(x) by {
        let one_added = Multiset::singleton(added);
        let one_taken = Multiset::singleton(taken);
        assert(a.insert(added).count(x) == m.insert(added).remove(taken).count(x));
        assert(a.add(one_added).count(x) == a.count(x) + one_added.count(x));
        assert(m.add(one_added).count(x) == m.count(x) + one_added.count(x));
        assert(m.add(one_added).sub(one_taken).count(x) == if m.add(one_added).count(x)
            >= one_taken.count(x) {
            m.add(one_added).count(x) - one_taken.count(x)
        } else {
            0
        });
        assert(m.sub(one_taken).count(x) == if m.count(x) >= one_taken.count(x) {
            m.count(x) - one_taken.count(x)
        } else {
            0
        });
        assert(one_taken.count(taken) == 1);
        if x != taken {
            assert(one_taken.count(x) == 0);
        }
    }
    assert(a =~= m.remove(taken));
}

/// Adds an entry to an ordered heap.
fn heap_insert(v: &mut Vec<Entry>, entry: Entry)
    requires
        heap_ordered(old(v)@),
    ensures
        heap_ordered(final(v)@),
        keys(final(v)@).to_multiset() == keys(old(v)@).to_multiset().insert(entry@),
{
    let n = v.len();
    v.push(entry);
    proof {
        let s = old(v)@;
        let t = v@;
        assert(keys(t) =~= keys(s).push(entry@));
        vstd::seq_lib::to_multiset_build(keys(s), entry@);
        assert forall|k: int| 0 < k < t.len() && k != n implies #[trigger] ordered_at(t, k) by {
            assert(ordered_at(s, k));
        }
    }
    sift_up(v, n);
}

/// Takes a least entry out of an ordered heap, if it holds any.
fn heap_remove_least(v: &mut Vec<Entry>) -> (top: Option<Entry>)
    requires
        heap_ordered(old(v)@),
    ensures
        heap_ordered(final(v)@),
        match top {
            None => old(v)@.len() == 0 && final(v)@ == old(v)@,
            Some(e) => {
                &&& e == old(v)@[0]
                &&& old(v)@.len() > 0
                &&& keys(final(v)@).to_multiset() == keys(old(v)@).to_multiset().remove(e@)
            },
        },
{
    if v.len() == 0 {
        return None;
    }
    let top = v.swap_remove(0);
    proof {
        broadcast use vstd::multiset::group_multiset_axioms;

        let s = old(v)@;
        let t = v@;
        let moved = s.update(0, s.last());
        assert(keys(moved) =~= keys(s).update(0, s.last()@));
        assert(keys(moved) =~= keys(t).push(s.last()@));
        vstd::seq_lib::to_multiset_update(keys(s), 0, s.last()@);
        vstd::seq_lib::to_multiset_build(keys(t), s.last()@);
        assert(keys(s)[0] == top@);
        assert(keys(s).contains(top@));
        vstd::seq_lib::to_multiset_contains(keys(s), top@);
        lemma_cancel_insert(keys(t).to_multiset(), keys(s).to_multiset(), s.last()@, top@);
        assert forall|k: int| 0 < k < t.len() && parent(k) != 0 implies #[trigger] ordered_at(
            t,
            k,
        ) by {
            assert(ordered_at(s, k));
        }
    }
    sift_down(v);
    Some(top)
}

/// `line` comes before or equals every line among `heads`.
pub open spec fn is_least(line: Seq<char>, heads: Multiset<(Seq<char>, usize)>) -> bool {
    forall|x: (Seq<char>, usize)| #[trigger] heads.count(x) > 0 ==> line_le(line, x.0)
}

/// A min-heap of entries. What it holds is a multiset of pairs of line and
/// run; `pop` hands out an entry whose line is least.
pub struct MinHeap {
    entries: Vec<Entry>,
}

impl View for MinHeap {
    type V = Multiset<(Seq<char>, usize)>;

    closed spec fn view(&self) -> Multiset<(Seq<char>, usize)> {
        keys(self.entries@).to_multiset()
    }
}

impl MinHeap {
    #[verifier::type_invariant]
    spec fn ordered(&self) -> bool {
        heap_ordered(self.entries@)
    }

    /// A heap that holds nothing.
    pub fn new() -> (heap: MinHeap)
        ensures
            heap@ == Multiset::<(Seq<char>, usize)>::empty(),
    {
        let heap = MinHeap { entries: Vec::new() };
        proof {
            broadcast use vstd::multiset::group_multiset_axioms;

            vstd::seq_lib::to_multiset_len(keys(heap.entries@));
            assert(heap@ =~= Multiset::<(Seq<char>, usize)>::empty());
        }
        heap
    }

    /// The number of entries.
    pub fn len(&self) -> (n: usize)
        ensures
            n == self@.len(),
    {
        proof {
            vstd::seq_lib::to_multiset_len(keys(self.entries@));
        }
        self.entries.len()
    }

    /// Whether the heap holds nothing.
    pub fn is_empty(&self) -> (empty: bool)
        ensures
            empty == (self@.len() == 0),
    {
        proof {
            vstd::seq_lib::to_multiset_len(keys(self.entries@));
        }
        self.entries.len() == 0
    }

    /// Adds the line `line`, read from run `run`.
    pub fn push(&mut self, line: String, run: usize)
        ensures
            final(self)@ == old(self)@.insert((line@, run)),
    {
        proof {
            use_type_invariant(&*self);
        }
        let mut entries: Vec<Entry> = Vec::new();
        core::mem::swap(&mut self.entries, &mut entries);
        heap_insert(&mut entries, Entry { line, run });
        core::mem::swap(&mut self.entries, &mut entries);
    }

    /// Takes out an entry that no other entry comes before. Among entries
    /// with equal lines any one may be taken. `None` means the heap was empty.
    pub fn pop(&mut self) -> (top: Option<Entry>)
        ensures
            match top {
                None => old(self)@.len() == 0 && final(self)@ == old(self)@,
                Some(e) => {
                    &&& old(self)@.count(e@) > 0
                    &&& is_least(e.line@, old(self)@)
                    &&& final(self)@ == old(self)@.remove(e@)
                },
            },
    {
        proof {
            use_type_invariant(&*self);
            vstd::seq_lib::to_multiset_len(keys(self.entries@));
        }
        let ghost s = self.entries@;
        let mut entries: Vec<Entry> = Vec::new();
        core::mem::swap(&mut self.entries, &mut entries);
        let top = heap_remove_least(&mut entries);
        core::mem::swap(&mut self.entries, &mut entries);
        proof {
            if top is Some {
                let e = top->0;
                assert(keys(s)[0] == e@);
                assert(keys(s).contains(e@));
                vstd::seq_lib::to_multiset_contains(keys(s), e@);
                assert forall|x: (Seq<char>, usize)| #[trigger]
                    keys(s).to_multiset().count(x) > 0 implies line_le(e.line@, x.0) by {
                    vstd::seq_lib::to_multiset_contains(keys(s), x);
                    let k = choose|k: int| 0 <= k < keys(s).len() && keys(s)[k] == x;
                    lemma_root_is_least(s, k);
                }
            }
        }
        top
    }
}

} // verus!
