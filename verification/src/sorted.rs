//! Sequences of lines in order: the predicates that runs and outputs are
//! stated with, and the facts about them that the algorithms rest on.

use vstd::multiset::Multiset;
use vstd::prelude::*;
use crate::order::{line_lt, line_le, lemma_lt_irreflexive, lemma_lt_trichotomy, lemma_lt_transitive};

verus! {

/// Every line comes strictly before all later ones: the sequence is sorted
/// ascending and holds no line twice.
pub open spec fn strictly_increasing(s: Seq<Seq<char>>) -> bool {
    forall|i: int, j: int| #![trigger s[i], s[j]] 0 <= i < j < s.len() ==> line_lt(s[i], s[j])
}

/// No line comes after a later one: the sequence is sorted ascending, and
/// equal lines may repeat.
pub open spec fn non_decreasing(s: Seq<Seq<char>>) -> bool {
    forall|i: int, j: int| #![trigger s[i], s[j]] 0 <= i < j < s.len() ==> line_le(s[i], s[j])
}

/// `out` is the sorted, duplicate-free form of `input`: strictly increasing,
/// and holding exactly the lines that occur in `input`.
pub open spec fn is_dedup_of(out: Seq<Seq<char>>, input: Seq<Seq<char>>) -> bool {
    &&& strictly_increasing(out)
    &&& out.to_set() == input.to_set()
}

/// A strictly increasing sequence is in particular sorted.
pub proof fn lemma_increasing_is_sorted(s: Seq<Seq<char>>)
    requires
        strictly_increasing(s),
    ensures
        non_decreasing(s),
{
    assert forall|i: int, j: int| #![trigger s[i], s[j]] 0 <= i < j < s.len() implies line_le(
        s[i],
        s[j],
    ) by {
        lemma_lt_trichotomy(s[i], s[j]);
    }
}

/// It is enough to compare neighbours: a sequence whose every line comes
/// strictly before the next one is strictly increasing, and conversely.
pub proof fn lemma_increasing_by_neighbours(s: Seq<Seq<char>>)
    ensures
        strictly_increasing(s) <==> (forall|i: int| 0 <= i < s.len() - 1 ==> line_lt(
            #[trigger] s[i],
            s[i + 1],
        )),
{
    if forall|i: int| 0 <= i < s.len() - 1 ==> line_lt(#[trigger] s[i], s[i + 1]) {
        assert forall|i: int, j: int| #![trigger s[i], s[j]] 0 <= i < j < s.len() implies line_lt(
            s[i],
            s[j],
        ) by {
            lemma_neighbours_reach(s, i, j);
        }
    }
    if strictly_increasing(s) {
        assert forall|i: int| 0 <= i < s.len() - 1 implies line_lt(#[trigger] s[i], s[i + 1]) by {
            let j = i + 1;
            assert(line_lt(s[i], s[j]));
        }
    }
}

proof fn lemma_neighbours_reach(s: Seq<Seq<char>>, i: int, j: int)
    requires
        forall|k: int| 0 <= k < s.len() - 1 ==> line_lt(#[trigger] s[k], s[k + 1]),
        0 <= i < j < s.len(),
    ensures
        line_lt(s[i], s[j]),
    decreases j - i,
{
    if j > i + 1 {
        lemma_neighbours_reach(s, i, j - 1);
        assert(line_lt(s[j - 1], s[j - 1 + 1]));
        lemma_lt_transitive(s[i], s[j - 1], s[j]);
    }
}

/// A strictly increasing sequence holds each of its lines exactly once.
pub proof fn lemma_increasing_no_duplicates(s: Seq<Seq<char>>)
    requires
        strictly_increasing(s),
    ensures
        s.no_duplicates(),
        forall|x: Seq<char>| s.contains(x) ==> s.to_multiset().count(x) == 1,
{
    assert forall|i: int, j: int| 0 <= i < s.len() && 0 <= j < s.len() && i != j implies s[i]
        != s[j] by {
        lemma_lt_irreflexive(s[i]);
        if i < j {
            assert(line_lt(s[i], s[j]));
        } else {
            assert(line_lt(s[j], s[i]));
        }
    }
    s.lemma_multiset_has_no_duplicates();
    assert forall|x: Seq<char>| s.contains(x) implies s.to_multiset().count(x) == 1 by {
        s.to_multiset_ensures();
    }
}

/// Two strictly increasing sequences that hold the same lines are equal: the
/// sorted, duplicate-free form of an input is unique.
pub proof fn lemma_increasing_unique(a: Seq<Seq<char>>, b: Seq<Seq<char>>)
    requires
        strictly_increasing(a),
        strictly_increasing(b),
        a.to_set() == b.to_set(),
    ensures
        a == b,
    decreases a.len(),
{
    if a.len() == 0 {
        if b.len() > 0 {
            assert(b.contains(b[0]));
            assert(b.to_set().contains(b[0]));
            assert(a.to_set().contains(b[0]));
        }
        assert(a =~= b);
    } else if b.len() == 0 {
        assert(a.contains(a[0]));
        assert(a.to_set().contains(a[0]));
        assert(b.to_set().contains(a[0]));
    } else {
        let x = a.last();
        let y = b.last();
        assert(a.contains(x));
        assert(b.contains(y));
        assert(a.to_set().contains(x) && b.to_set().contains(x));
        assert(b.to_set().contains(y) && a.to_set().contains(y));
        let i = choose|i: int| 0 <= i < b.len() && b[i] == x;
        let j = choose|j: int| 0 <= j < a.len() && a[j] == y;
        lemma_lt_trichotomy(x, y);
        lemma_lt_irreflexive(x);
        if i < b.len() - 1 {
            assert(line_lt(b[i], b[b.len() - 1]));
        }
        if j < a.len() - 1 {
            assert(line_lt(a[j], a[a.len() - 1]));
        }
        assert(x == y);
        lemma_drop_last_set(a);
        lemma_drop_last_set(b);
        lemma_increasing_unique(a.drop_last(), b.drop_last());
        assert(a =~= a.drop_last().push(x));
        assert(b =~= b.drop_last().push(y));
    }
}

/// The sorted, duplicate-free form of an input is determined by the input:
/// two such forms of one input are equal.
pub proof fn lemma_dedup_unique(a: Seq<Seq<char>>, b: Seq<Seq<char>>, input: Seq<Seq<char>>)
    requires
        is_dedup_of(a, input),
        is_dedup_of(b, input),
    ensures
        a == b,
{
    lemma_increasing_unique(a, b);
}

/// An input that is already sorted and free of duplicates is its own sorted,
/// duplicate-free form: deduplicating it again changes nothing.
pub proof fn lemma_dedup_idempotent(out: Seq<Seq<char>>, input: Seq<Seq<char>>)
    requires
        strictly_increasing(input),
        is_dedup_of(out, input),
    ensures
        out == input,
{
    lemma_increasing_unique(out, input);
}

/// Nothing is lost and nothing invented: the sorted, duplicate-free form
/// holds every line of the input exactly once and no other line.
pub proof fn lemma_dedup_complete(out: Seq<Seq<char>>, input: Seq<Seq<char>>)
    requires
        is_dedup_of(out, input),
    ensures
        out.no_duplicates(),
        forall|x: Seq<char>| input.contains(x) ==> #[trigger] out.to_multiset().count(x) == 1,
        forall|x: Seq<char>| !input.contains(x) ==> #[trigger] out.to_multiset().count(x) == 0,
        out.to_multiset() == Multiset::from_set(input.to_set()),
{
    broadcast use vstd::multiset::group_multiset_axioms;

    lemma_increasing_no_duplicates(out);
    vstd::seq_lib::seq_to_set_is_finite(input);
    assert forall|x: Seq<char>|
        out.to_multiset().count(x) == Multiset::from_set(input.to_set()).count(x) by {
        let m = Map::new(|k: Seq<char>| input.to_set().contains(k), |v: Seq<char>| 1nat);
        assert(m.dom() =~= input.to_set());
        vstd::seq_lib::to_multiset_contains(out, x);
        if input.contains(x) {
            assert(input.to_set().contains(x));
            assert(out.to_set().contains(x));
            assert(m.dom().contains(x));
        } else {
            if out.contains(x) {
                assert(out.to_set().contains(x));
                assert(input.to_set().contains(x));
            }
            assert(!m.dom().contains(x));
        }
    }
    assert(out.to_multiset() =~= Multiset::from_set(input.to_set()));
    assert forall|x: Seq<char>| input.contains(x) implies #[trigger] out.to_multiset().count(x)
        == 1 by {
        assert(input.to_set().contains(x));
        assert(out.to_set().contains(x));
    }
    assert forall|x: Seq<char>| !input.contains(x) implies #[trigger] out.to_multiset().count(x)
        == 0 by {
        vstd::seq_lib::to_multiset_contains(out, x);
        if out.contains(x) {
            assert(out.to_set().contains(x));
            assert(input.to_set().contains(x));
        }
    }
}

/// Without its last line a strictly increasing sequence is still strictly
/// increasing, and holds every line but that one.
proof fn lemma_drop_last_set(s: Seq<Seq<char>>)
    requires
        strictly_increasing(s),
        s.len() > 0,
    ensures
        strictly_increasing(s.drop_last()),
        s.drop_last().to_set() == s.to_set().remove(s.last()),
{
    let d = s.drop_last();
    assert forall|i: int, j: int| #![trigger d[i], d[j]] 0 <= i < j < d.len() implies line_lt(
        d[i],
        d[j],
    ) by {
        assert(line_lt(s[i], s[j]));
    }
    assert forall|x: Seq<char>| d.to_set().contains(x) <==> s.to_set().remove(s.last()).contains(
        x,
    ) by {
        if d.contains(x) {
            let i = choose|i: int| 0 <= i < d.len() && d[i] == x;
            assert(s[i] == x);
            assert(line_lt(s[i], s[s.len() - 1]));
            lemma_lt_irreflexive(x);
            assert(s.contains(x));
        }
        if s.contains(x) && x != s.last() {
            let i = choose|i: int| 0 <= i < s.len() && s[i] == x;
            assert(d[i] == x);
        }
    }
    assert(d.to_set() =~= s.to_set().remove(s.last()));
}

} // verus!
