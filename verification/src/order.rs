//! The order on lines: lexicographic by Unicode scalar value.

use vstd::prelude::*;
use vstd::std_specs::iter::IteratorSpec;

verus! {

/// `a` comes strictly before `b`: at the first position where the two lines
/// differ `a` has the smaller scalar value, or `a` is a proper prefix of `b`.
pub open spec fn line_lt(a: Seq<char>, b: Seq<char>) -> bool
    decreases a.len(),
{
    if b.len() == 0 {
        false
    } else if a.len() == 0 {
        true
    } else if a[0] != b[0] {
        (a[0] as u32) < (b[0] as u32)
    } else {
        line_lt(a.drop_first(), b.drop_first())
    }
}

/// `a` comes before `b` or equals it.
pub open spec fn line_le(a: Seq<char>, b: Seq<char>) -> bool {
    !line_lt(b, a)
}

/// No line comes before itself.
pub proof fn lemma_lt_irreflexive(a: Seq<char>)
    ensures
        !line_lt(a, a),
    decreases a.len(),
{
    if a.len() > 0 {
        lemma_lt_irreflexive(a.drop_first());
    }
}

/// Of two different lines exactly one comes before the other.
pub proof fn lemma_lt_trichotomy(a: Seq<char>, b: Seq<char>)
    ensures
        line_lt(a, b) || line_lt(b, a) || a == b,
        !(line_lt(a, b) && line_lt(b, a)),
    decreases a.len(),
{
    if a.len() == 0 || b.len() == 0 {
        if a.len() == 0 && b.len() == 0 {
            assert(a =~= b);
        }
    } else if a[0] == b[0] {
        lemma_lt_trichotomy(a.drop_first(), b.drop_first());
        if a.drop_first() == b.drop_first() {
            assert(a =~= seq![a[0]] + a.drop_first());
            assert(b =~= seq![b[0]] + b.drop_first());
        }
    } else {
        assert(a[0] as u32 != b[0] as u32) by {
            vstd::utf8::char_u32_cast(a[0], a[0] as u32);
            vstd::utf8::char_u32_cast(b[0], b[0] as u32);
        }
    }
}

/// The order is transitive.
pub proof fn lemma_lt_transitive(a: Seq<char>, b: Seq<char>, c: Seq<char>)
    requires
        line_lt(a, b),
        line_lt(b, c),
    ensures
        line_lt(a, c),
    decreases a.len(),
{
    if a.len() > 0 {
        assert(a[0] as u32 != b[0] as u32 || a[0] == b[0]) by {
            vstd::utf8::char_u32_cast(a[0], a[0] as u32);
            vstd::utf8::char_u32_cast(b[0], b[0] as u32);
        }
        assert(b[0] as u32 != c[0] as u32 || b[0] == c[0]) by {
            vstd::utf8::char_u32_cast(b[0], b[0] as u32);
            vstd::utf8::char_u32_cast(c[0], c[0] as u32);
        }
        if a[0] == b[0] && b[0] == c[0] {
            lemma_lt_transitive(a.drop_first(), b.drop_first(), c.drop_first());
        }
    }
}

/// "Comes before or equals" is transitive too.
pub proof fn lemma_le_transitive(a: Seq<char>, b: Seq<char>, c: Seq<char>)
    requires
        line_le(a, b),
        line_le(b, c),
    ensures
        line_le(a, c),
{
    lemma_lt_trichotomy(a, b);
    lemma_lt_trichotomy(b, c);
    if line_lt(c, a) {
        if line_lt(a, b) {
            lemma_lt_transitive(c, a, b);
        }
    }
}

/// Decides whether line `a` comes strictly before line `b`.
pub fn line_less(a: &str, b: &str) -> (r: bool)
    ensures
        r == line_lt(a@, b@),
{
    let mut rest_a = a.chars();
    let mut rest_b = b.chars();
    let ghost mut k: int = 0;
    loop
        invariant
            0 <= k <= a@.len(),
            k <= b@.len(),
            rest_a.remaining() == a@.skip(k),
            rest_b.remaining() == b@.skip(k),
            line_lt(a@, b@) == line_lt(a@.skip(k), b@.skip(k)),
        decreases a@.len() - k,
    {
        let next_b = rest_b.next();
        let next_a = rest_a.next();
        match next_b {
            None => {
                return false;
            },
            Some(cb) => match next_a {
                None => {
                    return true;
                },
                Some(ca) => {
                    if ca != cb {
                        return (ca as u32) < (cb as u32);
                    }
                    proof {
                        assert(a@.skip(k).drop_first() =~= a@.skip(k + 1));
                        assert(b@.skip(k).drop_first() =~= b@.skip(k + 1));
                        k = k + 1;
                    }
                },
            },
        }
    }
}

} // verus!
