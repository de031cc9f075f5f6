//! Sorting a batch of lines in memory, and removing the repeats that
//! sorting has brought together.

use vstd::prelude::*;
use crate::order::{
    line_le, line_less, line_lt, lemma_le_transitive, lemma_lt_transitive, lemma_lt_trichotomy,
};
use crate::sorted::{is_dedup_of, non_decreasing};

verus! {

/// Moves the line at index `i` out of `v`. An empty line takes its place;
/// the other lines stay where they are.
pub(crate) fn take_line(v: &mut Vec<String>, i: usize) -> (line: String)
    requires
        i < old(v).len(),
    ensures
        line == old(v)@[i as int],
        final(v)@.len() == old(v)@.len(),
        final(v)@[i as int]@ == Seq::<char>::empty(),
        forall|k: int| 0 <= k < old(v)@.len() && k != i ==> final(v)@[k] == old(v)@[k],
{
    let mut line = String::new();
    core::mem::swap(&mut v[i], &mut line);
    line
}

/// Merges two sorted vectors of lines into one sorted vector that holds all
/// the lines of both, each as often as the two hold it together.
fn merge_sorted(left: Vec<String>, right: Vec<String>) -> (out: Vec<String>)
    requires
        non_decreasing(left.deep_view()),
        non_decreasing(right.deep_view()),
    ensures
        non_decreasing(out.deep_view()),
        out.deep_view().to_multiset() == left.deep_view().to_multiset().add(
            right.deep_view().to_multiset(),
        ),
{
    let ghost l0 = left.deep_view();
    let ghost r0 = right.deep_view();
    let mut left = left;
    let mut right = right;
    let mut out: Vec<String> = Vec::new();
    let mut i: usize = 0;
    let mut j: usize = 0;
    proof {
        assert(out.deep_view() =~= l0.take(0) + r0.take(0));
    }
    while i < left.len() || j < right.len()
        invariant
            left.len() == l0.len(),
            right.len() == r0.len(),
            i <= left.len(),
            j <= right.len(),
            forall|k: int| i <= k < left.len() ==> (#[trigger] left@[k])@ == l0[k],
            forall|k: int| j <= k < right.len() ==> (#[trigger] right@[k])@ == r0[k],
            non_decreasing(l0),
            non_decreasing(r0),
            non_decreasing(out.deep_view()),
            out.deep_view().to_multiset() == (l0.take(i as int) + r0.take(j as int)).to_multiset(),
            forall|a: int, k: int|
                #![trigger out.deep_view()[a], l0[k]]
                0 <= a < out.len() && i <= k < l0.len() ==> line_le(out.deep_view()[a], l0[k]),
            forall|a: int, k: int|
                #![trigger out.deep_view()[a], r0[k]]
                0 <= a < out.len() && j <= k < r0.len() ==> line_le(out.deep_view()[a], r0[k]),
        decreases (left.len() - i) + (right.len() - j),
    {
        let from_left = if i == left.len() {
            false
        } else if j == right.len() {
            true
        } else {
            !line_less(right[j].as_str(), left[i].as_str())
        };
        let ghost before = out.deep_view();
        if from_left {
            let line = take_line(&mut left, i);
            out.push(line);
            proof {
                let x = l0[i as int];
                assert(out.deep_view() =~= before.push(x));
                assert(l0.take(i + 1) =~= l0.take(i as int).push(x));
                lemma_push_either_side(before, l0.take(i as int), r0.take(j as int), x);
                assert forall|a: int, k: int|
                    #![trigger out.deep_view()[a], r0[k]]
                    0 <= a < out.len() && j <= k < r0.len() implies line_le(
                    out.deep_view()[a],
                    r0[k],
                ) by {
                    if a == before.len() {
                        assert(line_le(x, r0[j as int]));
                        if k > j {
                            assert(line_le(r0[j as int], r0[k]));
                        } else {
                            lemma_lt_trichotomy(r0[k], r0[k]);
                        }
                        lemma_le_transitive(x, r0[j as int], r0[k]);
                    } else {
                        assert(line_le(before[a], r0[k]));
                    }
                }
                assert forall|a: int, k: int|
                    #![trigger out.deep_view()[a], l0[k]]
                    0 <= a < out.len() && i + 1 <= k < l0.len() implies line_le(
                    out.deep_view()[a],
                    l0[k],
                ) by {
                    if a == before.len() {
                        assert(line_le(l0[i as int], l0[k]));
                    } else {
                        assert(line_le(before[a], l0[k]));
                    }
                }
                assert forall|a: int, b: int|
                    #![trigger out.deep_view()[a], out.deep_view()[b]]
                    0 <= a < b < out.len() implies line_le(out.deep_view()[a], out.deep_view()[b]) by {
                    if b == before.len() {
                        assert(line_le(before[a], l0[i as int]));
                    } else {
                        assert(line_le(before[a], before[b]));
                    }
                }
            }
            i = i + 1;
        } else {
            let line = take_line(&mut right, j);
            out.push(line);
            proof {
                let x = r0[j as int];
                assert(out.deep_view() =~= before.push(x));
                assert(r0.take(j + 1) =~= r0.take(j as int).push(x));
                lemma_push_either_side(before, l0.take(i as int), r0.take(j as int), x);
                assert forall|a: int, k: int|
                    #![trigger out.deep_view()[a], l0[k]]
                    0 <= a < out.len() && i <= k < l0.len() implies line_le(
                    out.deep_view()[a],
                    l0[k],
                ) by {
                    if a == before.len() {
                        lemma_lt_trichotomy(x, l0[i as int]);
                        assert(line_le(x, l0[i as int]));
                        if k > i {
                            assert(line_le(l0[i as int], l0[k]));
                        } else {
                            lemma_lt_trichotomy(l0[k], l0[k]);
                        }
                        lemma_le_transitive(x, l0[i as int], l0[k]);
                    } else {
                        assert(line_le(before[a], l0[k]));
                    }
                }
                assert forall|a: int, k: int|
                    #![trigger out.deep_view()[a], r0[k]]
                    0 <= a < out.len() && j + 1 <= k < r0.len() implies line_le(
                    out.deep_view()[a],
                    r0[k],
                ) by {
                    if a == before.len() {
                        assert(line_le(r0[j as int], r0[k]));
                    } else {
                        assert(line_le(before[a], r0[k]));
                    }
                }
                assert forall|a: int, b: int|
                    #![trigger out.deep_view()[a], out.deep_view()[b]]
                    0 <= a < b < out.len() implies line_le(out.deep_view()[a], out.deep_view()[b]) by {
                    if b == before.len() {
                        assert(line_le(before[a], r0[j as int]));
                    } else {
                        assert(line_le(before[a], before[b]));
                    }
                }
            }
            j = j + 1;
        }
    }
    proof {
        assert(l0.take(i as int) =~= l0);
        assert(r0.take(j as int) =~= r0);
        vstd::seq_lib::lemma_multiset_commutative(l0, r0);
    }
    out
}

/// Appending a line to a sequence, and to either of two sequences that
/// together hold the same lines as it, keeps the two sides alike.
proof fn lemma_push_either_side(
    out: Seq<Seq<char>>,
    l: Seq<Seq<char>>,
    r: Seq<Seq<char>>,
    x: Seq<char>,
)
    requires
        out.to_multiset() == (l + r).to_multiset(),
    ensures
        out.push(x).to_multiset() == (l.push(x) + r).to_multiset(),
        out.push(x).to_multiset() == (l + r.push(x)).to_multiset(),
{
    broadcast use vstd::multiset::group_multiset_axioms;

    vstd::seq_lib::to_multiset_build(out, x);
    vstd::seq_lib::to_multiset_build(l, x);
    vstd::seq_lib::to_multiset_build(r, x);
    vstd::seq_lib::lemma_multiset_commutative(l, r);
    vstd::seq_lib::lemma_multiset_commutative(l.push(x), r);
    vstd::seq_lib::lemma_multiset_commutative(l, r.push(x));
    assert(out.push(x).to_multiset() =~= (l.push(x) + r).to_multiset());
    assert(out.push(x).to_multiset() =~= (l + r.push(x)).to_multiset());
}

/// Sorts lines ascending. The result holds the same lines as the input,
/// each as often as the input holds it.
pub fn sort_lines(lines: Vec<String>) -> (out: Vec<String>)
    ensures
        non_decreasing(out.deep_view()),
        out.deep_view().to_multiset() == lines.deep_view().to_multiset(),
    decreases lines.len(),
{
    if lines.len() <= 1 {
        return lines;
    }
    let ghost whole = lines.deep_view();
    let mut left = lines;
    let mid = left.len() / 2;
    let right = left.split_off(mid);
    proof {
        assert(whole =~= left.deep_view() + right.deep_view());
        vstd::seq_lib::lemma_multiset_commutative(left.deep_view(), right.deep_view());
    }
    let left = sort_lines(left);
    let right = sort_lines(right);
    merge_sorted(left, right)
}

/// The sequence without its consecutive repeats: a line stays unless it
/// equals the line that was kept last before it.
pub open spec fn without_repeats(s: Seq<Seq<char>>) -> Seq<Seq<char>>
    decreases s.len(),
{
    if s.len() == 0 {
        s
    } else {
        let kept = without_repeats(s.drop_last());
        if kept.len() > 0 && kept.last() == s.last() {
            kept
        } else {
            kept.push(s.last())
        }
    }
}

/// What is kept is taken from the sequence, and ends with its last line.
pub proof fn lemma_without_repeats_lines(s: Seq<Seq<char>>)
    ensures
        without_repeats(s).to_set() == s.to_set(),
        s.len() > 0 ==> without_repeats(s).len() > 0 && without_repeats(s).last() == s.last(),
    decreases s.len(),
{
    if s.len() == 0 {
    } else {
        let front = s.drop_last();
        let kept = without_repeats(front);
        let out = without_repeats(s);
        lemma_without_repeats_lines(front);
        assert forall|x: Seq<char>| out.to_set().contains(x) <==> s.to_set().contains(x) by {
            if out.contains(x) {
                let i = choose|i: int| 0 <= i < out.len() && out[i] == x;
                if i < kept.len() {
                    assert(kept.contains(x));
                    assert(front.to_set().contains(x));
                    let k = choose|k: int| 0 <= k < front.len() && front[k] == x;
                    assert(s[k] == x);
                } else {
                    assert(s[s.len() - 1] == x);
                }
            }
            if s.contains(x) {
                let k = choose|k: int| 0 <= k < s.len() && s[k] == x;
                if k < front.len() {
                    assert(front[k] == x);
                    assert(front.to_set().contains(x));
                    assert(kept.contains(x));
                    let i = choose|i: int| 0 <= i < kept.len() && kept[i] == x;
                    assert(out[i] == x);
                } else {
                    assert(out[out.len() - 1] == x);
                }
            }
        }
        assert(out.to_set() =~= s.to_set());
    }
}

/// Removing the consecutive repeats of a sorted sequence leaves its sorted,
/// duplicate-free form.
pub proof fn lemma_without_repeats_of_sorted(s: Seq<Seq<char>>)
    requires
        non_decreasing(s),
    ensures
        is_dedup_of(without_repeats(s), s),
    decreases s.len(),
{
    lemma_without_repeats_lines(s);
    if s.len() > 0 {
        let front = s.drop_last();
        let kept = without_repeats(front);
        let out = without_repeats(s);
        assert forall|i: int, j: int| #![trigger front[i], front[j]] 0 <= i < j < front.len() implies line_le(
            front[i],
            front[j],
        ) by {
            assert(line_le(s[i], s[j]));
        }
        lemma_without_repeats_of_sorted(front);
        lemma_without_repeats_lines(front);
        if !(kept.len() > 0 && kept.last() == s.last()) {
            assert forall|i: int, j: int| #![trigger out[i], out[j]] 0 <= i < j < out.len() implies line_lt(
                out[i],
                out[j],
            ) by {
                if j < kept.len() {
                    assert(line_lt(kept[i], kept[j]));
                } else {
                    let m = kept.len() - 1;
                    assert(kept.last() == front.last());
                    assert(line_le(s[front.len() - 1], s[s.len() - 1]));
                    lemma_lt_trichotomy(kept[m], s.last());
                    assert(line_lt(kept[m], s.last()));
                    if i < m {
                        assert(line_lt(kept[i], kept[m]));
                        lemma_lt_transitive(kept[i], kept[m], s.last());
                    }
                }
            }
        }
    }
}

/// Removes consecutive repeats: of each stretch of equal neighbouring lines
/// the first one stays.
pub fn dedup_consecutive(lines: Vec<String>) -> (out: Vec<String>)
    ensures
        out.deep_view() == without_repeats(lines.deep_view()),
{
    let ghost s0 = lines.deep_view();
    let mut lines = lines;
    let mut out: Vec<String> = Vec::new();
    let mut i: usize = 0;
    proof {
        assert(s0.take(0) =~= Seq::<Seq<char>>::empty());
        assert(out.deep_view() =~= Seq::<Seq<char>>::empty());
    }
    while i < lines.len()
        invariant
            lines.len() == s0.len(),
            i <= lines.len(),
            forall|k: int| i <= k < lines.len() ==> (#[trigger] lines@[k])@ == s0[k],
            out.deep_view() == without_repeats(s0.take(i as int)),
        decreases lines.len() - i,
    {
        let ghost before = out.deep_view();
        let keep = out.len() == 0 || !(out[out.len() - 1] == lines[i]);
        proof {
            assert(s0.take(i + 1).drop_last() =~= s0.take(i as int));
            assert(s0.take(i + 1).last() == s0[i as int]);
            if before.len() > 0 {
                assert(before.last() == out@[out.len() - 1]@);
            }
        }
        if keep {
            let line = take_line(&mut lines, i);
            out.push(line);
            proof {
                assert(out.deep_view() =~= before.push(s0[i as int]));
            }
        }
        i = i + 1;
    }
    proof {
        assert(s0.take(i as int) =~= s0);
    }
    out
}

} // verus!
