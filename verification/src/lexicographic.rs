//! Lexicographic order of key sequences.
use core::cmp::Ordering;
use vstd::prelude::*;

verus! {

/// Compare key by key; where one sequence ends first, it comes first.
pub open spec fn lexicographic(a: Seq<int>, b: Seq<int>) -> Ordering
    decreases a.len(),
{
    if a.len() == 0 {
        if b.len() == 0 {
            Ordering::Equal
        } else {
            Ordering::Less
        }
    } else if b.len() == 0 {
        Ordering::Greater
    } else if a[0] < b[0] {
        Ordering::Less
    } else if a[0] > b[0] {
        Ordering::Greater
    } else {
        lexicographic(a.drop_first(), b.drop_first())
    }
}

/// The opposite of an order.
pub open spec fn opposite(order: Ordering) -> Ordering {
    match order {
        Ordering::Less => Ordering::Greater,
        Ordering::Equal => Ordering::Equal,
        Ordering::Greater => Ordering::Less,
    }
}

/// Swapping the two sides turns the order round; equal means the same keys.
pub proof fn lemma_lexicographic_opposite(a: Seq<int>, b: Seq<int>)
    ensures
        lexicographic(b, a) == opposite(lexicographic(a, b)),
        lexicographic(a, b) == Ordering::Equal <==> a == b,
    decreases a.len(),
{
    if a.len() == 0 || b.len() == 0 {
        assert(a.len() == 0 && b.len() == 0 ==> a =~= b);
    } else if a[0] == b[0] {
        lemma_lexicographic_opposite(a.drop_first(), b.drop_first());
        if a.drop_first() == b.drop_first() {
            assert(a =~= seq![a[0]] + a.drop_first());
            assert(b =~= seq![b[0]] + b.drop_first());
        }
    }
}

/// Lexicographic order is transitive.
pub proof fn lemma_lexicographic_transitive(a: Seq<int>, b: Seq<int>, c: Seq<int>)
    requires
        lexicographic(a, b) != Ordering::Greater,
        lexicographic(b, c) != Ordering::Greater,
    ensures
        lexicographic(a, c) != Ordering::Greater,
    decreases a.len(),
{
    if a.len() > 0 && b.len() > 0 && c.len() > 0 && a[0] == b[0] && b[0] == c[0] {
        lemma_lexicographic_transitive(a.drop_first(), b.drop_first(), c.drop_first());
    }
}

/// A common beginning decides nothing.
pub proof fn lemma_lexicographic_prefix(p: Seq<int>, a: Seq<int>, b: Seq<int>)
    ensures
        lexicographic(p + a, p + b) == lexicographic(a, b),
    decreases p.len(),
{
    if p.len() == 0 {
        assert(p + a =~= a);
        assert(p + b =~= b);
    } else {
        lemma_lexicographic_prefix(p.drop_first(), a, b);
        assert((p + a).drop_first() =~= p.drop_first() + a);
        assert((p + b).drop_first() =~= p.drop_first() + b);
    }
}

/// The first difference decides.
pub proof fn lemma_lexicographic_differs(a: Seq<int>, b: Seq<int>, at: int)
    requires
        0 <= at < a.len(),
        at < b.len(),
        a.take(at) == b.take(at),
        a[at] != b[at],
    ensures
        lexicographic(a, b) == (if a[at] < b[at] {
            Ordering::Less
        } else {
            Ordering::Greater
        }),
{
    assert(a =~= a.take(at) + a.skip(at));
    assert(b =~= b.take(at) + b.skip(at));
    lemma_lexicographic_prefix(a.take(at), a.skip(at), b.skip(at));
}

} // verus!
