//! Insert a sorted delta without repeatedly shifting an entire slot vector.
use crate::comparator;
use core::cmp::Ordering;
use vstd::prelude::*;

verus! {

/// Merge two sorted sequences; on equal keys the items of `old` come first.
pub open spec fn stable_merge(
    old: Seq<u32>,
    new: Seq<u32>,
    order: spec_fn(u32, u32) -> Ordering,
) -> Seq<u32>
    decreases old.len() + new.len(),
{
    if new.len() == 0 {
        old
    } else if old.len() == 0 {
        new
    } else if order(old[0], new[0]) != Ordering::Greater {
        seq![old[0]] + stable_merge(old.drop_first(), new, order)
    } else {
        seq![new[0]] + stable_merge(old, new.drop_first(), order)
    }
}

/// Merging what is sorted gives what is sorted, out of the same items.
pub proof fn lemma_stable_merge_sorted(
    old: Seq<u32>,
    new: Seq<u32>,
    order: spec_fn(u32, u32) -> Ordering,
)
    requires
        comparator::total_preorder(order),
        comparator::sorted_by_order(old, order),
        comparator::sorted_by_order(new, order),
    ensures
        comparator::sorted_by_order(stable_merge(old, new, order), order),
        stable_merge(old, new, order).to_multiset() == old.to_multiset().add(new.to_multiset()),
    decreases old.len() + new.len(),
{
    broadcast use vstd::seq_lib::group_to_multiset_ensures;

    if new.len() == 0 {
        assert(stable_merge(old, new, order).to_multiset() =~= old.to_multiset().add(
            new.to_multiset(),
        ));
    } else if old.len() == 0 {
        assert(stable_merge(old, new, order).to_multiset() =~= old.to_multiset().add(
            new.to_multiset(),
        ));
    } else if order(old[0], new[0]) != Ordering::Greater {
        let rest = stable_merge(old.drop_first(), new, order);
        assert(comparator::sorted_by_order(old.drop_first(), order));
        lemma_stable_merge_sorted(old.drop_first(), new, order);
        lemma_first_sorted(old[0], rest, old.drop_first(), new, order);
        vstd::seq_lib::lemma_multiset_commutative(seq![old[0]], rest);
        vstd::seq_lib::lemma_multiset_commutative(seq![old[0]], old.drop_first());
        assert(seq![old[0]] + old.drop_first() =~= old);
        assert(stable_merge(old, new, order).to_multiset() =~= old.to_multiset().add(
            new.to_multiset(),
        ));
    } else {
        let rest = stable_merge(old, new.drop_first(), order);
        assert(comparator::sorted_by_order(new.drop_first(), order));
        lemma_stable_merge_sorted(old, new.drop_first(), order);
        lemma_first_sorted(new[0], rest, old, new.drop_first(), order);
        vstd::seq_lib::lemma_multiset_commutative(seq![new[0]], rest);
        vstd::seq_lib::lemma_multiset_commutative(seq![new[0]], new.drop_first());
        assert(seq![new[0]] + new.drop_first() =~= new);
        assert(stable_merge(old, new, order).to_multiset() =~= old.to_multiset().add(
            new.to_multiset(),
        ));
    }
}

proof fn lemma_first_sorted(
    first: u32,
    rest: Seq<u32>,
    left: Seq<u32>,
    right: Seq<u32>,
    order: spec_fn(u32, u32) -> Ordering,
)
    requires
        comparator::total_preorder(order),
        comparator::sorted_by_order(rest, order),
        rest.to_multiset() == left.to_multiset().add(right.to_multiset()),
        comparator::sorted_by_order(left, order),
        comparator::sorted_by_order(right, order),
        right.len() == 0 || order(first, right[0]) != Ordering::Greater,
        left.len() == 0 || order(first, left[0]) != Ordering::Greater,
    ensures
        comparator::sorted_by_order(seq![first] + rest, order),
{
    broadcast use vstd::seq_lib::group_to_multiset_ensures;

    let all = seq![first] + rest;
    assert forall|i: int, j: int| 0 <= i < j < all.len() implies order(
        #[trigger] all[i],
        #[trigger] all[j],
    ) != Ordering::Greater by {
        if i == 0 {
            let v = rest[j - 1];
            assert(all[j] == v);
            assert(rest.contains(v));
            assert(rest.to_multiset().count(v) > 0);
            if left.to_multiset().count(v) > 0 {
                assert(left.contains(v));
                let k = choose|k: int| 0 <= k < left.len() && left[k] == v;
                if k > 0 {
                    assert(order(left[0], left[k]) != Ordering::Greater);
                }
            } else {
                assert(right.to_multiset().count(v) > 0);
                assert(right.contains(v));
                let k = choose|k: int| 0 <= k < right.len() && right[k] == v;
                if k > 0 {
                    assert(order(right[0], right[k]) != Ordering::Greater);
                }
            }
        } else {
            assert(all[i] == rest[i - 1] && all[j] == rest[j - 1]);
        }
    }
}

/// What every fitting order merges is sorted by the comparator.
pub proof fn lemma_merged_is_sorted<F: Fn(u32, u32) -> Ordering>(
    compare: F,
    old: Seq<u32>,
    new: Seq<u32>,
    merged: Seq<u32>,
)
    requires
        comparator::in_order(compare, old),
        comparator::in_order(compare, new),
        forall|order: spec_fn(u32, u32) -> Ordering| #[trigger]
            comparator::fits(compare, order) ==> merged == stable_merge(old, new, order),
    ensures
        comparator::in_order(compare, merged),
{
    assert forall|i: int, j: int| 0 <= i < j < merged.len() implies comparator::at_most(
        compare,
        #[trigger] merged[i],
        #[trigger] merged[j],
    ) by {
        assert forall|order: spec_fn(u32, u32) -> Ordering| #[trigger]
            comparator::fits(compare, order) implies order(merged[i], merged[j])
            != Ordering::Greater by {
            assert forall|k: int, l: int| 0 <= k < l < old.len() implies order(
                #[trigger] old[k],
                #[trigger] old[l],
            ) != Ordering::Greater by {
                assert(comparator::at_most(compare, old[k], old[l]));
            }
            assert forall|k: int, l: int| 0 <= k < l < new.len() implies order(
                #[trigger] new[k],
                #[trigger] new[l],
            ) != Ordering::Greater by {
                assert(comparator::at_most(compare, new[k], new[l]));
            }
            lemma_stable_merge_sorted(old, new, order);
        }
    }
}

/// `new[k]` put in front of `old[positions[k]]`, for every `k`.
pub open spec fn weave(old: Seq<u32>, new: Seq<u32>, positions: Seq<int>) -> Seq<u32>
    decreases new.len(),
{
    if new.len() == 0 {
        old
    } else {
        let cut = positions.last();
        weave(old.take(cut), new.drop_last(), positions.drop_last()).push(new.last()) + old.skip(cut)
    }
}

/// Positions in `old` that never go back.
pub open spec fn ascending(positions: Seq<int>, old: Seq<u32>) -> bool {
    &&& forall|i: int| 0 <= i < positions.len() ==> 0 <= #[trigger] positions[i] <= old.len()
    &&& forall|i: int, j: int|
        0 <= i <= j < positions.len() ==> #[trigger] positions[i] <= #[trigger] positions[j]
}

/// The first `cut` items of `old` do not follow `item`; the others do.
pub open spec fn cut_by<F: Fn(u32, u32) -> Ordering>(
    compare: F,
    old: Seq<u32>,
    cut: int,
    item: u32,
) -> bool {
    &&& forall|j: int| 0 <= j < cut ==> comparator::at_most(compare, #[trigger] old[j], item)
    &&& forall|j: int|
        cut <= j < old.len() ==> comparator::above(compare, #[trigger] old[j], item)
}

proof fn lemma_weave_multiset(old: Seq<u32>, new: Seq<u32>, positions: Seq<int>)
    requires
        positions.len() == new.len(),
        ascending(positions, old),
    ensures
        weave(old, new, positions).to_multiset() == old.to_multiset().add(new.to_multiset()),
        weave(old, new, positions).len() == old.len() + new.len(),
    decreases new.len(),
{
    broadcast use vstd::seq_lib::group_to_multiset_ensures;
    if new.len() == 0 {
        assert(old.to_multiset().add(new.to_multiset()) =~= old.to_multiset());
    } else {
        let cut = positions.last();
        let head = weave(old.take(cut), new.drop_last(), positions.drop_last());
        assert(ascending(positions.drop_last(), old.take(cut))) by {
            assert forall|i: int| 0 <= i < positions.drop_last().len() implies 0
                <= #[trigger] positions.drop_last()[i] <= cut by {
                assert(positions.drop_last()[i] == positions[i]);
            }
        }
        lemma_weave_multiset(old.take(cut), new.drop_last(), positions.drop_last());
        vstd::seq_lib::lemma_multiset_commutative(head.push(new.last()), old.skip(cut));
        vstd::seq_lib::lemma_multiset_commutative(old.take(cut), old.skip(cut));
        assert(old.take(cut) + old.skip(cut) =~= old);
        assert(new.drop_last().push(new.last()) =~= new);
        assert(weave(old, new, positions).to_multiset() =~= old.to_multiset().add(
            new.to_multiset(),
        ));
    }
}

/// A merge may be done from its last new item backwards.
proof fn lemma_merge_last(
    old: Seq<u32>,
    new: Seq<u32>,
    cut: int,
    order: spec_fn(u32, u32) -> Ordering,
)
    requires
        comparator::total_preorder(order),
        new.len() > 0,
        0 <= cut <= old.len(),
        forall|j: int| 0 <= j < cut ==> order(#[trigger] old[j], new.last()) != Ordering::Greater,
        forall|j: int|
            cut <= j < old.len() ==> order(#[trigger] old[j], new.last()) == Ordering::Greater,
        forall|i: int|
            0 <= i < new.len() ==> order(#[trigger] new[i], new.last()) != Ordering::Greater,
    ensures
        stable_merge(old, new, order) == stable_merge(
            old.take(cut),
            new.drop_last(),
            order,
        ).push(new.last()) + old.skip(cut),
    decreases old.len() + new.len(),
{
    let last = new.last();
    let head = new.drop_last();
    if old.len() == 0 {
        assert(old.take(cut) =~= old);
        assert(old.skip(cut) =~= Seq::<u32>::empty());
        assert(stable_merge(old.take(cut), head, order) =~= head);
        assert(head.push(last) + old.skip(cut) =~= new);
    } else if order(old[0], new[0]) != Ordering::Greater {
        if cut == 0 {
            assert(order(old[0], last) == Ordering::Greater);
            assert(order(new[0], last) != Ordering::Greater);
            assert(false);
        }
        let rest = old.drop_first();
        lemma_merge_last(rest, new, cut - 1, order);
        assert(old.take(cut).drop_first() =~= rest.take(cut - 1));
        assert(old.skip(cut) =~= rest.skip(cut - 1));
        assert(old.take(cut) =~= seq![old[0]] + rest.take(cut - 1));
        if head.len() > 0 {
            assert(head[0] == new[0]);
        }
        assert(stable_merge(old.take(cut), head, order) =~= seq![old[0]] + stable_merge(
            rest.take(cut - 1),
            head,
            order,
        ));
        assert(stable_merge(old, new, order) =~= stable_merge(old.take(cut), head, order).push(last)
            + old.skip(cut));
    } else if new.len() == 1 {
        if cut > 0 {
            assert(order(old[0], last) != Ordering::Greater);
            assert(false);
        }
        assert(old.take(cut) =~= Seq::<u32>::empty());
        assert(old.skip(cut) =~= old);
        assert(stable_merge(old, new.drop_first(), order) == old);
        assert(stable_merge(old, new, order) =~= seq![last] + old);
        assert(stable_merge(old.take(cut), head, order) =~= Seq::<u32>::empty());
        assert(seq![last] + old =~= Seq::<u32>::empty().push(last) + old.skip(cut));
    } else {
        let rest = new.drop_first();
        assert(rest.last() == last);
        assert forall|i: int| 0 <= i < rest.len() implies order(#[trigger] rest[i], rest.last())
            != Ordering::Greater by {
            assert(rest[i] == new[i + 1]);
        }
        lemma_merge_last(old, rest, cut, order);
        assert(rest.drop_last() =~= head.drop_first());
        if cut == 0 {
            assert(old.take(cut) =~= Seq::<u32>::empty());
            assert(stable_merge(old.take(cut), head, order) =~= head);
            assert(stable_merge(old.take(cut), head.drop_first(), order) =~= head.drop_first());
        } else {
            assert(old.take(cut)[0] == old[0]);
        }
        assert(stable_merge(old.take(cut), head, order) =~= seq![new[0]] + stable_merge(
            old.take(cut),
            head.drop_first(),
            order,
        ));
        assert(stable_merge(old, new, order) =~= stable_merge(old.take(cut), head, order).push(last)
            + old.skip(cut));
    }
}

/// Weaving at the cuts of a comparator is the stable merge.
proof fn lemma_weave_is_merge<F: Fn(u32, u32) -> Ordering>(
    compare: F,
    old: Seq<u32>,
    new: Seq<u32>,
    positions: Seq<int>,
    order: spec_fn(u32, u32) -> Ordering,
)
    requires
        comparator::fits(compare, order),
        comparator::in_order(compare, new),
        positions.len() == new.len(),
        ascending(positions, old),
        forall|k: int| 0 <= k < new.len() ==> cut_by(compare, old, positions[k], #[trigger] new[k]),
    ensures
        weave(old, new, positions) == stable_merge(old, new, order),
    decreases new.len(),
{
    if new.len() > 0 {
        let cut = positions.last();
        let last = new.last();
        let n = new.len() - 1;
        assert(cut_by(compare, old, positions[n], new[n]));
        assert forall|i: int| 0 <= i < new.len() implies order(#[trigger] new[i], last)
            != Ordering::Greater by {
            if i == n {
                comparator::lemma_at_most_reflexive(compare, last);
            }
            assert(comparator::at_most(compare, new[i], new[n]));
        }
        lemma_merge_last(old, new, cut, order);
        let (head, few) = (new.drop_last(), positions.drop_last());
        assert(ascending(few, old.take(cut))) by {
            assert forall|i: int| 0 <= i < few.len() implies 0 <= #[trigger] few[i] <= cut by {
                assert(few[i] == positions[i]);
            }
        }
        assert forall|k: int| 0 <= k < head.len() implies cut_by(
            compare,
            old.take(cut),
            few[k],
            #[trigger] head[k],
        ) by {
            assert(cut_by(compare, old, positions[k], new[k]));
            assert forall|j: int| few[k] <= j < cut implies comparator::above(
                compare,
                #[trigger] old.take(cut)[j],
                head[k],
            ) by {
                assert(old.take(cut)[j] == old[j]);
            }
            assert forall|j: int| 0 <= j < few[k] implies comparator::at_most(
                compare,
                #[trigger] old.take(cut)[j],
                head[k],
            ) by {
                assert(positions[k] <= positions[n]);
                assert(old.take(cut)[j] == old[j]);
            }
        }
        assert(comparator::in_order(compare, head)) by {
            assert forall|i: int, j: int| 0 <= i < j < head.len() implies comparator::at_most(
                compare,
                #[trigger] head[i],
                #[trigger] head[j],
            ) by {
                assert(head[i] == new[i] && head[j] == new[j]);
            }
        }
        lemma_weave_is_merge(compare, old.take(cut), head, few, order);
    }
}

/// Put `replacements` into `slots` so that the whole is sorted by `compare`.
///
/// Both inputs are meant to be sorted already; existing items then precede new
/// items with equal keys. Whatever their order, nothing is lost or added.
pub fn insert_sorted<F: Fn(u32, u32) -> Ordering>(
    slots: &mut Vec<u32>,
    replacements: &[u32],
    compare: F,
)
    requires
        forall|a: u32, b: u32| #[trigger] call_requires(compare, (a, b)),
        old(slots)@.len() + replacements@.len() <= usize::MAX,
    ensures
        final(slots)@.to_multiset() == old(slots)@.to_multiset().add(replacements@.to_multiset()),
        comparator::in_order(compare, old(slots)@) && comparator::in_order(compare, replacements@)
            ==> forall|order: spec_fn(u32, u32) -> Ordering| #[trigger]
            comparator::fits(compare, order) ==> final(slots)@ == stable_merge(
                old(slots)@,
                replacements@,
                order,
            ),
{
    insert_borrowed(slots, replacements, &compare)
}

/// As `insert_sorted`, for a comparator that is still needed afterwards.
pub(crate) fn insert_borrowed<F: Fn(u32, u32) -> Ordering>(
    slots: &mut Vec<u32>,
    replacements: &[u32],
    compare: &F,
)
    requires
        forall|a: u32, b: u32| #[trigger] call_requires(*compare, (a, b)),
        old(slots)@.len() + replacements@.len() <= usize::MAX,
    ensures
        final(slots)@.to_multiset() == old(slots)@.to_multiset().add(replacements@.to_multiset()),
        comparator::in_order(*compare, old(slots)@) && comparator::in_order(*compare, replacements@)
            ==> forall|order: spec_fn(u32, u32) -> Ordering| #[trigger]
            comparator::fits(*compare, order) ==> final(slots)@ == stable_merge(
                old(slots)@,
                replacements@,
                order,
            ),
{
    let ghost before = slots@;
    let ghost ordered = comparator::in_order(*compare, before) && comparator::in_order(
        *compare,
        replacements@,
    );
    let ghost mut cuts: Seq<int> = Seq::empty();
    let mut positions: Vec<usize> = Vec::with_capacity(replacements.len());
    let mut cursor: usize = 0;
    let mut next: usize = 0;
    while next < replacements.len()
        invariant
            next <= replacements.len(),
            slots@ == before,
            forall|a: u32, b: u32| #[trigger] call_requires(*compare, (a, b)),
            ordered == (comparator::in_order(*compare, before) && comparator::in_order(
                *compare,
                replacements@,
            )),
            cursor <= before.len(),
            positions@.len() == next,
            cuts.len() == next,
            forall|k: int| 0 <= k < next ==> cuts[k] == positions@[k],
            ascending(cuts, before),
            next > 0 ==> cursor == cuts[next - 1],
            next == 0 ==> cursor == 0,
            ordered ==> forall|k: int|
                0 <= k < next ==> cut_by(*compare, before, cuts[k], #[trigger] replacements@[k]),
        decreases replacements.len() - next,
    {
        let replacement = replacements[next];
        let remaining: usize = slots.len() - cursor;
        let mut low: usize = 0;
        let mut high: usize = 0;
        proof {
            if ordered {
                assert forall|j: int| 0 <= j < cursor implies comparator::at_most(
                    *compare,
                    #[trigger] before[j],
                    replacement,
                ) by {
                    assert(cut_by(*compare, before, cuts[next - 1], replacements@[next - 1]));
                    comparator::lemma_at_most_transitive(
                        *compare,
                        before[j],
                        replacements@[next - 1],
                        replacement,
                    );
                }
            }
        }
        // Probe 0, 1, 3, 7, ... instead of re-reading every intervening key.
        while high < remaining
            invariant_except_break
                low <= high,
            invariant
                slots@ == before,
                cursor + remaining == before.len() <= usize::MAX,
                low <= remaining,
                forall|a: u32, b: u32| #[trigger] call_requires(*compare, (a, b)),
                ordered ==> comparator::in_order(*compare, before),
                ordered ==> forall|j: int|
                    0 <= j < cursor + low ==> comparator::at_most(
                        *compare,
                        #[trigger] before[j],
                        replacement,
                    ),
            ensures
                low <= high,
                ordered && high < remaining ==> comparator::above(
                    *compare,
                    before[cursor + high],
                    replacement,
                ),
            decreases remaining - low,
        {
            let order = compare(slots[cursor + high], replacement);
            proof {
                comparator::lemma_compared(*compare, before[cursor + high], replacement, order);
            }
            if matches!(order, Ordering::Greater) {
                break;
            }
            proof {
                if ordered {
                    assert forall|j: int| 0 <= j < cursor + high + 1 implies comparator::at_most(
                        *compare,
                        #[trigger] before[j],
                        replacement,
                    ) by {
                        if j < cursor + high {
                            comparator::lemma_at_most_transitive(
                                *compare,
                                before[j],
                                before[cursor + high],
                                replacement,
                            );
                        }
                    }
                }
            }
            low = high + 1;
            high = if high > (usize::MAX - 1) / 2 {
                usize::MAX
            } else {
                2 * high + 1
            };
        }
        let mut end: usize = if high < remaining {
            high
        } else {
            remaining
        };
        proof {
            if ordered {
                assert forall|j: int| cursor + end <= j < before.len() implies comparator::above(
                    *compare,
                    #[trigger] before[j],
                    replacement,
                ) by {
                    if j > cursor + high {
                        comparator::lemma_at_most_reflexive(*compare, replacement);
                        comparator::lemma_above_extends(
                            *compare,
                            before[cursor + high],
                            replacement,
                            before[j],
                            replacement,
                        );
                    }
                }
            }
        }
        while low < end
            invariant
                slots@ == before,
                low <= end <= remaining,
                cursor + remaining == before.len() <= usize::MAX,
                forall|a: u32, b: u32| #[trigger] call_requires(*compare, (a, b)),
                ordered ==> comparator::in_order(*compare, before),
                ordered ==> forall|j: int|
                    0 <= j < cursor + low ==> comparator::at_most(
                        *compare,
                        #[trigger] before[j],
                        replacement,
                    ),
                ordered ==> forall|j: int|
                    cursor + end <= j < before.len() ==> comparator::above(
                        *compare,
                        #[trigger] before[j],
                        replacement,
                    ),
            decreases end - low,
        {
            let middle = low + (end - low) / 2;
            let order = compare(slots[cursor + middle], replacement);
            proof {
                comparator::lemma_compared(*compare, before[cursor + middle], replacement, order);
            }
            if matches!(order, Ordering::Greater) {
                proof {
                    if ordered {
                        assert forall|j: int|
                            cursor + middle <= j < before.len() implies comparator::above(
                            *compare,
                            #[trigger] before[j],
                            replacement,
                        ) by {
                            if j > cursor + middle {
                                comparator::lemma_at_most_reflexive(*compare, replacement);
                                comparator::lemma_above_extends(
                                    *compare,
                                    before[cursor + middle],
                                    replacement,
                                    before[j],
                                    replacement,
                                );
                            }
                        }
                    }
                }
                end = middle;
            } else {
                proof {
                    if ordered {
                        assert forall|j: int|
                            0 <= j < cursor + middle + 1 implies comparator::at_most(
                            *compare,
                            #[trigger] before[j],
                            replacement,
                        ) by {
                            if j < cursor + middle {
                                comparator::lemma_at_most_transitive(
                                    *compare,
                                    before[j],
                                    before[cursor + middle],
                                    replacement,
                                );
                            }
                        }
                    }
                }
                low = middle + 1;
            }
        }
        let ghost earlier = cuts;
        cursor = cursor + low;
        positions.push(cursor);
        proof {
            cuts = cuts.push(comparator::ix(cursor));
            assert(ascending(cuts, before)) by {
                assert forall|i: int, j: int| 0 <= i <= j < cuts.len() implies #[trigger] cuts[i]
                    <= #[trigger] cuts[j] by {
                    if j == next && i < next {
                        assert(earlier[i] <= earlier[next - 1]);
                    }
                }
            }
        }
        next = next + 1;
    }
    let ghost goal = weave(before, replacements@, cuts);
    proof {
        lemma_weave_multiset(before, replacements@, cuts);
        if ordered {
            assert forall|order: spec_fn(u32, u32) -> Ordering| #[trigger]
                comparator::fits(*compare, order) implies goal == stable_merge(
                before,
                replacements@,
                order,
            ) by {
                lemma_weave_is_merge(*compare, before, replacements@, cuts, order);
            }
        }
    }
    let mut end: usize = slots.len();
    slots.resize(end + replacements.len(), 0);
    let mut index: usize = replacements.len();
    proof {
        assert(before.take(before.len() + 0int) =~= before);
        assert(replacements@.take(replacements@.len() + 0int) =~= replacements@);
        assert(cuts.take(cuts.len() + 0int) =~= cuts);
        assert(goal =~= goal + slots@.skip(slots@.len() + 0int));
        assert(slots@.take(end + 0) =~= before.take(end + 0));
    }
    while index > 0
        invariant
            index <= replacements.len(),
            end <= before.len(),
            slots@.len() == before.len() + replacements@.len() <= usize::MAX,
            positions@.len() == replacements@.len(),
            cuts.len() == replacements@.len(),
            forall|k: int| 0 <= k < cuts.len() ==> cuts[k] == positions@[k],
            ascending(cuts, before),
            forall|k: int| 0 <= k < index ==> cuts[k] <= end,
            slots@.take(end + 0) == before.take(end + 0),
            goal == weave(
                before.take(end + 0),
                replacements@.take(index + 0),
                cuts.take(index + 0),
            ) + slots@.skip(end + index),
        decreases index,
    {
        index = index - 1;
        let start = positions[index];
        let ghost old_slots = slots@;
        let ghost old_end: int = comparator::ix(end);
        assert(cuts[comparator::ix(index)] == start);
        let mut cell: usize = end;
        while cell > start
            invariant
                start <= cell <= end <= before.len(),
                index < replacements.len(),
                slots@.len() == before.len() + replacements@.len() <= usize::MAX,
                old_slots.len() == slots@.len(),
                forall|j: int| 0 <= j < cell ==> #[trigger] slots@[j] == old_slots[j],
                forall|j: int|
                    cell + index + 1 <= j < end + index + 1 ==> #[trigger] slots@[j]
                        == old_slots[j - index - 1],
                forall|j: int|
                    end + index + 1 <= j < slots@.len() ==> #[trigger] slots@[j] == old_slots[j],
            decreases cell,
        {
            cell = cell - 1;
            let moved = slots[cell];
            slots.set(cell + index + 1, moved);
        }
        slots.set(start + index, replacements[index]);
        end = start;
        proof {
            let head = before.take(old_end);
            let few = replacements@.take(index + 1);
            let marks = cuts.take(index + 1);
            assert(few.last() == replacements@[comparator::ix(index)]);
            assert(few.drop_last() =~= replacements@.take(index + 0));
            assert(marks.drop_last() =~= cuts.take(index + 0));
            assert(head.take(start + 0) =~= before.take(start + 0));
            let inner = weave(
                before.take(start + 0),
                replacements@.take(index + 0),
                cuts.take(index + 0),
            );
            assert(weave(head, few, marks) == inner.push(few.last()) + head.skip(start + 0));
            assert(slots@.skip(start + index) =~= seq![few.last()] + head.skip(start + 0)
                + old_slots.skip(old_end + index + 1)) by {
                assert forall|j: int| 0 <= j < old_end implies old_slots[j] == #[trigger] before[j] by {
                    assert(old_slots.take(old_end)[j] == before.take(old_end)[j]);
                }
                let left = slots@.skip(start + index);
                let right = seq![few.last()] + head.skip(start + 0) + old_slots.skip(
                    old_end + index + 1,
                );
                assert forall|j: int| 0 <= j < left.len() implies left[j] == right[j] by {
                    assert(left[j] == slots@[start + index + j]);
                    if 0 < j <= old_end - start {
                        assert(right[j] == before[start + j - 1]);
                    }
                }
            }
            assert(goal =~= inner + slots@.skip(start + index));
            assert(slots@.take(end + 0) =~= before.take(end + 0)) by {
                assert forall|j: int| 0 <= j < end implies slots@[j] == #[trigger] before[j] by {
                    assert(old_slots.take(old_end)[j] == before.take(old_end)[j]);
                }
            }
        }
    }
    proof {
        assert(ascending(cuts.take(0), before.take(end + 0)));
        assert(goal =~= before.take(end + 0) + slots@.skip(end + 0));
        assert(slots@ =~= slots@.take(end + 0) + slots@.skip(end + 0));
    }
}

} // verus!
