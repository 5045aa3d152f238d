//! What a slot comparator promises, stated without naming any particular key.
use core::cmp::Ordering;
use vstd::prelude::*;

verus! {

/// The mathematical position of a machine index.
#[verifier::inline]
pub open spec fn ix(i: usize) -> int {
    i as int
}

/// `order` ranks every pair, and consistently so: a total preorder.
pub open spec fn total_preorder(order: spec_fn(u32, u32) -> Ordering) -> bool {
    &&& forall|a: u32| #[trigger] order(a, a) == Ordering::Equal
    &&& forall|a: u32, b: u32| (#[trigger] order(a, b) == Ordering::Less) == (order(b, a) == Ordering::Greater)
    &&& forall|a: u32, b: u32, c: u32|
        #[trigger] order(a, b) != Ordering::Greater && #[trigger] order(b, c) != Ordering::Greater
            ==> order(a, c) != Ordering::Greater
}

/// `order` is a total preorder that answers every comparison as `compare` does.
pub open spec fn fits<F: Fn(u32, u32) -> Ordering>(
    compare: F,
    order: spec_fn(u32, u32) -> Ordering,
) -> bool {
    &&& total_preorder(order)
    &&& forall|a: u32, b: u32, o: Ordering| #[trigger]
        call_ensures(compare, (a, b), o) ==> o == order(a, b)
}

/// `compare` may be called on every pair and answers by some total preorder.
pub open spec fn consistent<F: Fn(u32, u32) -> Ordering>(compare: F) -> bool {
    &&& forall|a: u32, b: u32| #[trigger] call_requires(compare, (a, b))
    &&& exists|order: spec_fn(u32, u32) -> Ordering| #[trigger] fits(compare, order)
}

/// `a` does not follow `b`, whichever fitting order is meant.
pub open spec fn at_most<F: Fn(u32, u32) -> Ordering>(compare: F, a: u32, b: u32) -> bool {
    forall|order: spec_fn(u32, u32) -> Ordering| #[trigger]
        fits(compare, order) ==> order(a, b) != Ordering::Greater
}

/// `a` follows `b`, whichever fitting order is meant.
pub open spec fn above<F: Fn(u32, u32) -> Ordering>(compare: F, a: u32, b: u32) -> bool {
    forall|order: spec_fn(u32, u32) -> Ordering| #[trigger]
        fits(compare, order) ==> order(a, b) == Ordering::Greater
}

/// `slots` are in the order of `compare`.
pub open spec fn in_order<F: Fn(u32, u32) -> Ordering>(compare: F, slots: Seq<u32>) -> bool {
    forall|i: int, j: int|
        0 <= i < j < slots.len() ==> at_most(compare, #[trigger] slots[i], #[trigger] slots[j])
}

/// `s` never goes down by `order`.
pub open spec fn sorted_by_order(s: Seq<u32>, order: spec_fn(u32, u32) -> Ordering) -> bool {
    forall|i: int, j: int|
        0 <= i < j < s.len() ==> order(#[trigger] s[i], #[trigger] s[j]) != Ordering::Greater
}

pub proof fn lemma_at_most_reflexive<F: Fn(u32, u32) -> Ordering>(compare: F, a: u32)
    ensures
        at_most(compare, a, a),
{
}

pub proof fn lemma_at_most_transitive<F: Fn(u32, u32) -> Ordering>(
    compare: F,
    a: u32,
    b: u32,
    c: u32,
)
    requires
        at_most(compare, a, b),
        at_most(compare, b, c),
    ensures
        at_most(compare, a, c),
{
}

/// What follows something that `b` does not precede follows `b` too.
pub proof fn lemma_above_extends<F: Fn(u32, u32) -> Ordering>(
    compare: F,
    a: u32,
    b: u32,
    c: u32,
    d: u32,
)
    requires
        above(compare, a, b),
        at_most(compare, a, c),
        at_most(compare, d, b),
    ensures
        above(compare, c, d),
{
    assert forall|order: spec_fn(u32, u32) -> Ordering| #[trigger]
        fits(compare, order) implies order(c, d) == Ordering::Greater by {
        if order(c, d) != Ordering::Greater {
            assert(order(a, c) != Ordering::Greater);
            assert(order(a, d) != Ordering::Greater);
            assert(order(d, b) != Ordering::Greater);
            assert(order(a, b) != Ordering::Greater);
        }
    }
}

/// A comparison that was made says which of the two may stand first.
pub proof fn lemma_compared<F: Fn(u32, u32) -> Ordering>(compare: F, a: u32, b: u32, o: Ordering)
    requires
        call_ensures(compare, (a, b), o),
    ensures
        o != Ordering::Greater ==> at_most(compare, a, b),
        o != Ordering::Less ==> at_most(compare, b, a),
        o == Ordering::Greater ==> above(compare, a, b),
        forall|order: spec_fn(u32, u32) -> Ordering| #[trigger] fits(compare, order) ==> order(a, b) == o,
{
}

} // verus!
