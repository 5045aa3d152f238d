//! Cancellable sorting and prefix selection of row slots.
use crate::cancellation;
use crate::comparator;
use core::cmp::Ordering;
use vstd::prelude::*;

verus! {

/// Rows that are handled between two looks at the cancellation token.
pub const RUN: usize = 1024;

/// `s` cut into runs of `width` items, the last one possibly shorter, each sorted.
pub open spec fn runs_sorted<F: Fn(u32, u32) -> Ordering>(
    compare: F,
    s: Seq<u32>,
    width: int,
) -> bool
    decreases s.len(),
{
    if width <= 0 || s.len() <= width {
        comparator::in_order(compare, s)
    } else {
        comparator::in_order(compare, s.take(width)) && runs_sorted(compare, s.skip(width), width)
    }
}

/// `s` cut into runs of exactly `width` items, each sorted.
pub open spec fn full_runs<F: Fn(u32, u32) -> Ordering>(
    compare: F,
    s: Seq<u32>,
    width: int,
) -> bool
    decreases s.len(),
{
    s.len() == 0 || (0 < width <= s.len() && comparator::in_order(compare, s.take(width))
        && full_runs(compare, s.skip(width), width))
}

proof fn lemma_append_run<F: Fn(u32, u32) -> Ordering>(
    compare: F,
    head: Seq<u32>,
    run: Seq<u32>,
    width: int,
)
    requires
        0 < width,
        run.len() <= width,
        full_runs(compare, head, width),
        comparator::in_order(compare, run),
    ensures
        runs_sorted(compare, head + run, width),
        run.len() == width ==> full_runs(compare, head + run, width),
    decreases head.len(),
{
    let all = head + run;
    if head.len() == 0 {
        assert(all =~= run);
        if run.len() == width {
            assert(run.take(width) =~= run);
            assert(run.skip(width) =~= Seq::<u32>::empty());
            assert(full_runs(compare, run.skip(width), width));
        }
    } else {
        lemma_append_run(compare, head.skip(width), run, width);
        assert(all.take(width) =~= head.take(width));
        assert(all.skip(width) =~= head.skip(width) + run);
        if all.len() <= width {
            assert(head.skip(width) =~= Seq::<u32>::empty());
            assert(all =~= head.take(width));
        }
    }
}

/// `std`'s `sort_unstable_by` on `slots[start..end]`: it permutes those items into the
/// comparator's order and leaves the others alone. It may panic on a comparator that is no
/// total preorder, which `requires` excludes.
#[verifier::external_body]
fn sort_unstable_range<F: Fn(u32, u32) -> Ordering>(
    slots: &mut Vec<u32>,
    start: usize,
    end: usize,
    compare: &F,
)
    requires
        start <= end <= old(slots)@.len(),
        comparator::consistent(*compare),
    ensures
        final(slots)@.len() == old(slots)@.len(),
        final(slots)@.take(comparator::ix(start)) == old(slots)@.take(comparator::ix(start)),
        final(slots)@.skip(comparator::ix(end)) == old(slots)@.skip(comparator::ix(end)),
        final(slots)@.subrange(comparator::ix(start), comparator::ix(end)).to_multiset() == old(
            slots,
        )@.subrange(comparator::ix(start), comparator::ix(end)).to_multiset(),
        comparator::in_order(
            *compare,
            final(slots)@.subrange(comparator::ix(start), comparator::ix(end)),
        ),
{
    slots[start..end].sort_unstable_by(|a, b| compare(*a, *b));
}

/// Equal parts make equal multisets.
proof fn lemma_split_multiset(a: Seq<u32>, b: Seq<u32>, cut: int)
    requires
        0 <= cut <= a.len(),
        a.len() == b.len(),
        a.take(cut).to_multiset() == b.take(cut).to_multiset(),
        a.skip(cut).to_multiset() == b.skip(cut).to_multiset(),
    ensures
        a.to_multiset() == b.to_multiset(),
{
    vstd::seq_lib::lemma_multiset_commutative(a.take(cut), a.skip(cut));
    vstd::seq_lib::lemma_multiset_commutative(b.take(cut), b.skip(cut));
    assert(a.take(cut) + a.skip(cut) =~= a);
    assert(b.take(cut) + b.skip(cut) =~= b);
}

/// Append the merge of two neighbouring sorted runs to `merged`. Returns false when the
/// work was given up because `cancelled` said so.
fn merge_runs<F: Fn(u32, u32) -> Ordering, C: Fn() -> bool>(
    slots: &Vec<u32>,
    start: usize,
    middle: usize,
    end: usize,
    merged: &mut Vec<u32>,
    compare: &F,
    cancelled: &C,
) -> (finished: bool)
    requires
        start <= middle <= end <= slots@.len(),
        comparator::consistent(*compare),
        call_requires(*cancelled, ()),
        comparator::in_order(*compare, slots@.subrange(comparator::ix(start), comparator::ix(middle))),
        comparator::in_order(*compare, slots@.subrange(comparator::ix(middle), comparator::ix(end))),
    ensures
        !finished ==> call_ensures(*cancelled, (), true),
        finished ==> {
            let run = final(merged)@.skip(old(merged)@.len() + 0int);
            &&& final(merged)@ == old(merged)@ + run
            &&& run.len() == end - start
            &&& run.to_multiset() == slots@.subrange(
                comparator::ix(start),
                comparator::ix(end),
            ).to_multiset()
            &&& comparator::in_order(*compare, run)
        },
{
    broadcast use vstd::seq_lib::group_to_multiset_ensures;

    let ghost before = merged@;
    let ghost mut run: Seq<u32> = Seq::empty();
    let ghost (s, m, e) = (
        comparator::ix(start),
        comparator::ix(middle),
        comparator::ix(end),
    );
    let mut left: usize = start;
    let mut right: usize = middle;
    let mut position: usize = 0;
    proof {
        assert(slots@.subrange(s, s) =~= Seq::<u32>::empty());
        assert(slots@.subrange(m, m) =~= Seq::<u32>::empty());
    }
    while position < end - start
        invariant
            s == start && m == middle && e == end,
            start <= left <= middle <= right <= end <= slots@.len(),
            position == (left - start) + (right - middle),
            merged@ == before + run,
            run.len() == position,
            comparator::consistent(*compare),
            call_requires(*cancelled, ()),
            comparator::in_order(*compare, slots@.subrange(s, m)),
            comparator::in_order(*compare, slots@.subrange(m, e)),
            comparator::in_order(*compare, run),
            run.to_multiset() == slots@.subrange(s, comparator::ix(left)).to_multiset().add(
                slots@.subrange(m, comparator::ix(right)).to_multiset(),
            ),
            forall|i: int, j: int|
                0 <= i < run.len() && left <= j < middle ==> comparator::at_most(
                    *compare,
                    #[trigger] run[i],
                    #[trigger] slots@[j],
                ),
            forall|i: int, j: int|
                0 <= i < run.len() && right <= j < end ==> comparator::at_most(
                    *compare,
                    #[trigger] run[i],
                    #[trigger] slots@[j],
                ),
        decreases end - start - position,
    {
        if position % RUN == 0 && cancelled() {
            return false;
        }
        let take_left = if right == end {
            true
        } else if left < middle {
            let order = compare(slots[left], slots[right]);
            proof {
                comparator::lemma_compared(
                    *compare,
                    slots@[comparator::ix(left)],
                    slots@[comparator::ix(right)],
                    order,
                );
            }
            !matches!(order, Ordering::Greater)
        } else {
            false
        };
        let ghost old_run = run;
        let ghost (l, r) = (comparator::ix(left), comparator::ix(right));
        let chosen = if take_left {
            slots[left]
        } else {
            slots[right]
        };
        proof {
            assert forall|j: int| l <= j < m implies comparator::at_most(
                *compare,
                chosen,
                #[trigger] slots@[j],
            ) by {
                comparator::lemma_at_most_reflexive(*compare, chosen);
                assert(slots@.subrange(s, m)[j - s] == slots@[j]);
                assert(slots@.subrange(s, m)[l - s] == slots@[l]);
                if j > l {
                    assert(comparator::at_most(*compare, slots@[l], slots@[j]));
                } else {
                    comparator::lemma_at_most_reflexive(*compare, slots@[l]);
                }
                if !take_left {
                    comparator::lemma_at_most_transitive(*compare, chosen, slots@[l], slots@[j]);
                }
            }
            assert forall|j: int| r <= j < e implies comparator::at_most(
                *compare,
                chosen,
                #[trigger] slots@[j],
            ) by {
                comparator::lemma_at_most_reflexive(*compare, chosen);
                assert(slots@.subrange(m, e)[j - m] == slots@[j]);
                assert(slots@.subrange(m, e)[r - m] == slots@[r]);
                if j > r {
                    assert(comparator::at_most(*compare, slots@[r], slots@[j]));
                } else {
                    comparator::lemma_at_most_reflexive(*compare, slots@[r]);
                }
                if take_left {
                    comparator::lemma_at_most_transitive(*compare, chosen, slots@[r], slots@[j]);
                }
            }
            run = run.push(chosen);
            old_run.to_multiset_ensures();
            if take_left {
                assert(slots@.subrange(s, l + 1) =~= slots@.subrange(s, l).push(slots@[l]));
                slots@.subrange(s, l).to_multiset_ensures();
            } else {
                assert(slots@.subrange(m, r + 1) =~= slots@.subrange(m, r).push(slots@[r]));
                slots@.subrange(m, r).to_multiset_ensures();
            }
        }
        merged.push(chosen);
        if take_left {
            left = left + 1;
        } else {
            right = right + 1;
        }
        position = position + 1;
        proof {
            assert(merged@ =~= before + run);
            assert(run.to_multiset() =~= slots@.subrange(s, comparator::ix(left)).to_multiset().add(
                slots@.subrange(m, comparator::ix(right)).to_multiset(),
            ));
        }
    }
    proof {
        assert(merged@.skip(before.len() + 0int) =~= run);
        vstd::seq_lib::lemma_multiset_commutative(slots@.subrange(s, m), slots@.subrange(m, e));
        assert(slots@.subrange(s, m) + slots@.subrange(m, e) =~= slots@.subrange(s, e));
    }
    true
}

/// Merge neighbouring runs of `width` items into runs of twice that, into `merged`.
fn merge_pass<F: Fn(u32, u32) -> Ordering, C: Fn() -> bool>(
    slots: &Vec<u32>,
    width: usize,
    merged: &mut Vec<u32>,
    compare: &F,
    cancelled: &C,
) -> (finished: bool)
    requires
        0 < width < slots@.len(),
        old(merged)@.len() == 0,
        comparator::consistent(*compare),
        call_requires(*cancelled, ()),
        runs_sorted(*compare, slots@, comparator::ix(width)),
    ensures
        !finished ==> call_ensures(*cancelled, (), true),
        finished ==> final(merged)@.to_multiset() == slots@.to_multiset(),
        finished ==> final(merged)@.len() == slots@.len(),
        finished ==> runs_sorted(*compare, final(merged)@, 2 * width),
{
    let ghost w = comparator::ix(width);
    let mut start: usize = 0;
    proof {
        assert(slots@.skip(0) =~= slots@);
        assert(slots@.take(0) =~= merged@);
    }
    while start < slots.len()
        invariant
            w == width,
            0 < width < slots@.len(),
            start <= slots@.len(),
            comparator::consistent(*compare),
            call_requires(*cancelled, ()),
            merged@.len() == start,
            merged@.to_multiset() == slots@.take(comparator::ix(start)).to_multiset(),
            start < slots@.len() ==> full_runs(*compare, merged@, 2 * w),
            start < slots@.len() ==> runs_sorted(*compare, slots@.skip(comparator::ix(start)), w),
            start == slots@.len() ==> runs_sorted(*compare, merged@, 2 * w),
        decreases slots@.len() - start,
    {
        let rest: usize = slots.len() - start;
        let middle: usize = if width < rest {
            start + width
        } else {
            slots.len()
        };
        let tail: usize = slots.len() - middle;
        let end: usize = if width < tail {
            middle + width
        } else {
            slots.len()
        };
        let ghost (s, m, e) = (
            comparator::ix(start),
            comparator::ix(middle),
            comparator::ix(end),
        );
        proof {
            let here = slots@.skip(s);
            if here.len() <= w {
                assert(slots@.subrange(s, m) =~= here);
                assert(slots@.subrange(m, e) =~= Seq::<u32>::empty());
            } else {
                assert(slots@.subrange(s, m) =~= here.take(w));
                let next = here.skip(w);
                assert(runs_sorted(*compare, next, w));
                if next.len() <= w {
                    assert(slots@.subrange(m, e) =~= next);
                } else {
                    assert(slots@.subrange(m, e) =~= next.take(w));
                    assert(slots@.skip(e) =~= next.skip(w));
                }
            }
        }
        let ghost before = merged@;
        let finished = merge_runs(slots, start, middle, end, merged, compare, cancelled);
        if !finished {
            return false;
        }
        proof {
            let run = merged@.skip(s);
            lemma_append_run(*compare, before, run, 2 * w);
            vstd::seq_lib::lemma_multiset_commutative(before, run);
            vstd::seq_lib::lemma_multiset_commutative(slots@.take(s), slots@.subrange(s, e));
            assert(slots@.take(s) + slots@.subrange(s, e) =~= slots@.take(e));
        }
        start = end;
    }
    proof {
        assert(slots@.take(slots@.len() + 0int) =~= slots@);
    }
    true
}

/// Sort bounded runs, then merge them. The slots keep their number and values even where
/// the sort is given up; it is given up only where `cancelled` said so.
pub fn sort_slots<F: Fn(u32, u32) -> Ordering, C: Fn() -> bool>(
    slots: &mut Vec<u32>,
    compare: F,
    cancelled: C,
) -> (result: Result<(), String>)
    requires
        comparator::consistent(compare),
        call_requires(cancelled, ()),
    ensures
        final(slots)@.to_multiset() == old(slots)@.to_multiset(),
        final(slots)@.len() == old(slots)@.len(),
        result is Ok ==> comparator::in_order(compare, final(slots)@),
        cancellation::always(cancelled) && old(slots)@.len() > 0 ==> result is Err,
        result matches Err(reason) ==> reason@ == "Query cancelled"@ && call_ensures(
            cancelled,
            (),
            true,
        ),
{
    sort_borrowed(slots, &compare, &cancelled)
}

pub(crate) fn sort_borrowed<F: Fn(u32, u32) -> Ordering, C: Fn() -> bool>(
    slots: &mut Vec<u32>,
    compare: &F,
    cancelled: &C,
) -> (result: Result<(), String>)
    requires
        comparator::consistent(*compare),
        call_requires(*cancelled, ()),
    ensures
        final(slots)@.to_multiset() == old(slots)@.to_multiset(),
        final(slots)@.len() == old(slots)@.len(),
        result is Ok ==> comparator::in_order(*compare, final(slots)@),
        cancellation::always(*cancelled) && old(slots)@.len() > 0 ==> result is Err,
        result matches Err(reason) ==> reason@ == "Query cancelled"@ && call_ensures(
            *cancelled,
            (),
            true,
        ),
{
    let ghost before = slots@;
    let ghost run = comparator::ix(RUN);
    let mut start: usize = 0;
    proof {
        assert(slots@.take(0) =~= Seq::<u32>::empty());
    }
    while start < slots.len()
        invariant
            run == RUN,
            start <= slots@.len(),
            slots@.len() == before.len(),
            before == old(slots)@,
            slots@.to_multiset() == before.to_multiset(),
            comparator::consistent(*compare),
            call_requires(*cancelled, ()),
            start > 0 ==> !cancellation::always(*cancelled),
            start < slots@.len() ==> full_runs(*compare, slots@.take(comparator::ix(start)), run),
            start == slots@.len() ==> runs_sorted(*compare, slots@, run),
        decreases slots@.len() - start,
    {
        if cancelled() {
            return Err("Query cancelled".to_owned());
        }
        let rest: usize = slots.len() - start;
        let end: usize = if RUN < rest {
            start + RUN
        } else {
            slots.len()
        };
        let ghost (s, e) = (comparator::ix(start), comparator::ix(end));
        let ghost unsorted = slots@;
        sort_unstable_range(slots, start, end, compare);
        proof {
            lemma_range_multiset(unsorted, slots@, s, e);
            lemma_append_run(*compare, slots@.take(s), slots@.subrange(s, e), run);
            assert(slots@.take(s) + slots@.subrange(s, e) =~= slots@.take(e));
            if end == slots@.len() {
                assert(slots@.take(e) =~= slots@);
            }
        }
        start = end;
    }
    if slots.len() <= RUN {
        return Ok(());
    }
    let mut width: usize = RUN;
    while width < slots.len()
        invariant
            0 < width,
            !cancellation::always(*cancelled),
            slots@.len() == before.len(),
            before == old(slots)@,
            slots@.to_multiset() == before.to_multiset(),
            comparator::consistent(*compare),
            call_requires(*cancelled, ()),
            runs_sorted(*compare, slots@, comparator::ix(width)),
        decreases usize::MAX - width,
    {
        let mut merged: Vec<u32> = Vec::with_capacity(slots.len());
        let finished = merge_pass(slots, width, &mut merged, compare, cancelled);
        if !finished {
            return Err("Query cancelled".to_owned());
        }
        *slots = merged;
        width = if width > usize::MAX / 2 {
            proof {
                lemma_wide_run(*compare, slots@, 2 * width, comparator::ix(usize::MAX));
            }
            usize::MAX
        } else {
            2 * width
        };
    }
    Ok(())
}

/// Only `b[start..end]` differs from `a`, and by a permutation.
proof fn lemma_range_multiset(a: Seq<u32>, b: Seq<u32>, start: int, end: int)
    requires
        0 <= start <= end <= a.len(),
        a.len() == b.len(),
        a.take(start) == b.take(start),
        a.skip(end) == b.skip(end),
        a.subrange(start, end).to_multiset() == b.subrange(start, end).to_multiset(),
    ensures
        a.to_multiset() == b.to_multiset(),
{
    vstd::seq_lib::lemma_multiset_commutative(a.take(start), a.subrange(start, end));
    vstd::seq_lib::lemma_multiset_commutative(b.take(start), b.subrange(start, end));
    assert(a.take(start) + a.subrange(start, end) =~= a.take(end));
    assert(b.take(start) + b.subrange(start, end) =~= b.take(end));
    lemma_split_multiset(a, b, end);
}

/// A run that covers everything is the whole sequence, however wide.
proof fn lemma_wide_run<F: Fn(u32, u32) -> Ordering>(
    compare: F,
    s: Seq<u32>,
    width: int,
    wider: int,
)
    requires
        s.len() <= width,
        s.len() <= wider,
        0 < width,
        runs_sorted(compare, s, width),
    ensures
        runs_sorted(compare, s, wider),
{
}

/// No item before `cut` follows one from `cut` on.
pub open spec fn divided_at<F: Fn(u32, u32) -> Ordering>(compare: F, s: Seq<u32>, cut: int) -> bool {
    forall|i: int, j: int|
        0 <= i < cut <= j < s.len() ==> comparator::at_most(
            compare,
            #[trigger] s[i],
            #[trigger] s[j],
        )
}

/// `b` is `a` with the items of one range permuted.
pub open spec fn permuted_range(a: Seq<u32>, b: Seq<u32>, start: int, end: int) -> bool {
    &&& a.len() == b.len()
    &&& a.take(start) == b.take(start)
    &&& a.skip(end) == b.skip(end)
    &&& a.subrange(start, end).to_multiset() == b.subrange(start, end).to_multiset()
}

/// `prefix` holds what sorts first among `all`.
pub open spec fn selects_prefix<F: Fn(u32, u32) -> Ordering>(
    compare: F,
    all: Seq<u32>,
    prefix: Seq<u32>,
) -> bool {
    exists|rest: Seq<u32>|
        {
            &&& #[trigger] (prefix + rest).to_multiset() == all.to_multiset()
            &&& forall|i: int, j: int|
                0 <= i < prefix.len() && 0 <= j < rest.len() ==> comparator::at_most(
                    compare,
                    #[trigger] prefix[i],
                    #[trigger] rest[j],
                )
        }
}

/// Equal multisets that differ only in a range have equal multisets there.
proof fn lemma_range_cancels(a: Seq<u32>, b: Seq<u32>, start: int, end: int)
    requires
        0 <= start <= end <= a.len(),
        a.len() == b.len(),
        a.take(start) == b.take(start),
        a.skip(end) == b.skip(end),
        a.to_multiset() == b.to_multiset(),
    ensures
        a.subrange(start, end).to_multiset() == b.subrange(start, end).to_multiset(),
{
    let (ra, rb) = (a.subrange(start, end), b.subrange(start, end));
    vstd::seq_lib::lemma_multiset_commutative(a.take(start), ra);
    vstd::seq_lib::lemma_multiset_commutative(b.take(start), rb);
    vstd::seq_lib::lemma_multiset_commutative(a.take(start) + ra, a.skip(end));
    vstd::seq_lib::lemma_multiset_commutative(b.take(start) + rb, b.skip(end));
    assert(a.take(start) + ra + a.skip(end) =~= a);
    assert(b.take(start) + rb + b.skip(end) =~= b);
    assert forall|v: u32| ra.to_multiset().count(v) == rb.to_multiset().count(v) by {
        assert(a.to_multiset().count(v) == a.take(start).to_multiset().count(v)
            + ra.to_multiset().count(v) + a.skip(end).to_multiset().count(v));
        assert(b.to_multiset().count(v) == b.take(start).to_multiset().count(v)
            + rb.to_multiset().count(v) + b.skip(end).to_multiset().count(v));
    }
    assert(ra.to_multiset() =~= rb.to_multiset());
}

/// What a permuted range holds, it held before.
proof fn lemma_range_source(a: Seq<u32>, b: Seq<u32>, start: int, end: int, j: int) -> (from: int)
    requires
        0 <= start <= j < end <= a.len(),
        permuted_range(a, b, start, end),
    ensures
        start <= from < end,
        a[from] == b[j],
{
    let (ra, rb) = (a.subrange(start, end), b.subrange(start, end));
    assert(rb[j - start] == b[j]);
    rb.to_multiset_ensures();
    ra.to_multiset_ensures();
    assert(rb.contains(b[j]));
    assert(rb.to_multiset().count(b[j]) > 0);
    assert(ra.contains(b[j]));
    let k = choose|k: int| 0 <= k < ra.len() && ra[k] == b[j];
    start + k
}

/// Permuting a range keeps every split outside its inside.
proof fn lemma_split_kept<F: Fn(u32, u32) -> Ordering>(
    compare: F,
    a: Seq<u32>,
    b: Seq<u32>,
    start: int,
    end: int,
    cut: int,
)
    requires
        0 <= start <= end <= a.len(),
        permuted_range(a, b, start, end),
        divided_at(compare, a, cut),
        cut <= start || end <= cut,
    ensures
        divided_at(compare, b, cut),
{
    assert forall|i: int, j: int| 0 <= i < cut <= j < b.len() implies comparator::at_most(
        compare,
        #[trigger] b[i],
        #[trigger] b[j],
    ) by {
        let from_i = if start <= i < end {
            lemma_range_source(a, b, start, end, i)
        } else {
            if i < start {
                assert(a.take(start)[i] == b.take(start)[i]);
            } else {
                assert(a.skip(end)[i - end] == b.skip(end)[i - end]);
            }
            i
        };
        let from_j = if start <= j < end {
            lemma_range_source(a, b, start, end, j)
        } else {
            if j < start {
                assert(a.take(start)[j] == b.take(start)[j]);
            } else {
                assert(a.skip(end)[j - end] == b.skip(end)[j - end]);
            }
            j
        };
        assert(a[from_i] == b[i] && a[from_j] == b[j]);
    }
}

fn swap_slots(slots: &mut Vec<u32>, first: usize, second: usize)
    requires
        first < old(slots)@.len(),
        second < old(slots)@.len(),
    ensures
        final(slots)@ == old(slots)@.update(
            first as int,
            old(slots)@[second as int],
        ).update(second as int, old(slots)@[first as int]),
        final(slots)@.to_multiset() == old(slots)@.to_multiset(),
{
    broadcast use vstd::seq_lib::group_to_multiset_ensures;

    let ghost before = slots@;
    let value = slots[first];
    let other = slots[second];
    slots.set(first, other);
    slots.set(second, value);
    assert(slots@.to_multiset() =~= before.to_multiset());
}

/// Order `slots[low..high]` into what precedes, equals and follows `pivot`; returns where the
/// second and the third part begin, or nothing when `cancelled` said to stop.
fn partition_range<F: Fn(u32, u32) -> Ordering, C: Fn() -> bool>(
    slots: &mut Vec<u32>,
    low: usize,
    high: usize,
    pivot: u32,
    compare: &F,
    cancelled: &C,
) -> (parts: Option<(usize, usize)>)
    requires
        low <= high <= old(slots)@.len(),
        comparator::consistent(*compare),
        call_requires(*cancelled, ()),
    ensures
        permuted_range(old(slots)@, final(slots)@, comparator::ix(low), comparator::ix(high)),
        parts is None ==> call_ensures(*cancelled, (), true),
        parts matches Some((less, greater)) ==> {
            &&& low <= less <= greater <= high
            &&& forall|i: int|
                low <= i < greater ==> comparator::at_most(
                    *compare,
                    #[trigger] final(slots)@[i],
                    pivot,
                )
            &&& forall|i: int|
                less <= i < high ==> comparator::at_most(
                    *compare,
                    pivot,
                    #[trigger] final(slots)@[i],
                )
        },
{
    let ghost before = slots@;
    let ghost (l, h) = (comparator::ix(low), comparator::ix(high));
    let mut less: usize = low;
    let mut current: usize = low;
    let mut greater: usize = high;
    let mut comparisons: usize = 0;
    while current < greater
        invariant
            l == low && h == high,
            low <= less <= current <= greater <= high <= slots@.len(),
            before == old(slots)@,
            slots@.len() == before.len(),
            slots@.to_multiset() == before.to_multiset(),
            slots@.take(l) == before.take(l),
            slots@.skip(h) == before.skip(h),
            comparator::consistent(*compare),
            call_requires(*cancelled, ()),
            comparisons + greater - current <= high - low,
            forall|i: int|
                low <= i < current ==> comparator::at_most(*compare, #[trigger] slots@[i], pivot),
            forall|i: int|
                less <= i < current ==> comparator::at_most(*compare, pivot, #[trigger] slots@[i]),
            forall|i: int|
                greater <= i < high ==> comparator::at_most(*compare, pivot, #[trigger] slots@[i]),
        decreases greater - current,
    {
        if comparisons % RUN == 0 && cancelled() {
            proof {
                lemma_range_cancels(before, slots@, l, h);
            }
            return None;
        }
        comparisons = comparisons + 1;
        let value = slots[current];
        let order = compare(value, pivot);
        proof {
            comparator::lemma_compared(*compare, value, pivot, order);
        }
        let ghost step = slots@;
        match order {
            Ordering::Less => {
                swap_slots(slots, less, current);
                less = less + 1;
                current = current + 1;
            },
            Ordering::Greater => {
                greater = greater - 1;
                swap_slots(slots, current, greater);
            },
            Ordering::Equal => {
                current = current + 1;
            },
        }
        proof {
            assert(slots@.take(l) =~= step.take(l));
            assert(slots@.skip(h) =~= step.skip(h));
        }
    }
    proof {
        lemma_range_cancels(before, slots@, l, h);
    }
    Some((less, greater))
}

/// The items of `slots[low..high]`.
fn copy_range(slots: &Vec<u32>, low: usize, high: usize) -> (range: Vec<u32>)
    requires
        low <= high <= slots@.len(),
    ensures
        range@ == slots@.subrange(low as int, high as int),
{
    let mut range: Vec<u32> = Vec::with_capacity(high - low);
    let mut next: usize = low;
    while next < high
        invariant
            low <= next <= high <= slots@.len(),
            range@ == slots@.subrange(low as int, next as int),
        decreases high - next,
    {
        range.push(slots[next]);
        next = next + 1;
        assert(range@ =~= slots@.subrange(low as int, next as int));
    }
    range
}

/// Put `range` over `slots[low..]`.
fn write_range(slots: &mut Vec<u32>, low: usize, range: &Vec<u32>)
    requires
        low + range@.len() <= old(slots)@.len(),
    ensures
        final(slots)@ == old(slots)@.take(low as int) + range@ + old(slots)@.skip(
            low + range@.len(),
        ),
{
    let ghost before = slots@;
    let mut next: usize = 0;
    assert(slots.len() <= usize::MAX);
    while next < range.len()
        invariant
            next <= range@.len(),
            low + range@.len() <= slots@.len() <= usize::MAX,
            slots@.len() == before.len(),
            forall|i: int| low <= i < low + next ==> slots@[i] == range@[i - low],
            forall|i: int|
                0 <= i < low || low + next <= i < before.len() ==> slots@[i] == before[i],
        decreases range@.len() - next,
    {
        slots.set(low + next, range[next]);
        next = next + 1;
    }
    assert(slots@ =~= before.take(low as int) + range@ + before.skip(low + range@.len()));
}

/// A sorted range between two splits is split everywhere.
proof fn lemma_split_inside<F: Fn(u32, u32) -> Ordering>(
    compare: F,
    s: Seq<u32>,
    low: int,
    high: int,
    cut: int,
)
    requires
        0 <= low <= cut <= high <= s.len(),
        divided_at(compare, s, low),
        divided_at(compare, s, high),
        comparator::in_order(compare, s.subrange(low, high)),
    ensures
        divided_at(compare, s, cut),
{
    assert forall|i: int, j: int| 0 <= i < cut <= j < s.len() implies comparator::at_most(
        compare,
        #[trigger] s[i],
        #[trigger] s[j],
    ) by {
        if low <= i && j < high {
            assert(s.subrange(low, high)[i - low] == s[i]);
            assert(s.subrange(low, high)[j - low] == s[j]);
        }
    }
}

/// A range split by a pivot is split at both ends of what equals the pivot, and anywhere
/// between.
proof fn lemma_split_by_pivot<F: Fn(u32, u32) -> Ordering>(
    compare: F,
    s: Seq<u32>,
    low: int,
    high: int,
    less: int,
    greater: int,
    pivot: u32,
)
    requires
        0 <= low <= less <= greater <= high <= s.len(),
        divided_at(compare, s, low),
        divided_at(compare, s, high),
        forall|i: int| low <= i < greater ==> comparator::at_most(compare, #[trigger] s[i], pivot),
        forall|i: int| less <= i < high ==> comparator::at_most(compare, pivot, #[trigger] s[i]),
    ensures
        forall|cut: int| less <= cut <= greater ==> #[trigger] divided_at(compare, s, cut),
{
    assert forall|cut: int| less <= cut <= greater implies #[trigger] divided_at(compare, s, cut) by {
        assert forall|i: int, j: int| 0 <= i < cut <= j < s.len() implies comparator::at_most(
            compare,
            #[trigger] s[i],
            #[trigger] s[j],
        ) by {
            if low <= i && j < high {
                comparator::lemma_at_most_transitive(compare, s[i], pivot, s[j]);
            }
        }
    }
}

/// Keep what sorts first, sorted: the first `end` of all the slots, or all of them where there
/// are fewer. Only the requested prefix is sorted; three-way partitioning handles equal keys,
/// and a depth budget bounds adversarial partition choices. The work is given up only where
/// `cancelled` said so.
pub fn select_prefix<F: Fn(u32, u32) -> Ordering, C: Fn() -> bool>(
    slots: &mut Vec<u32>,
    end: usize,
    compare: F,
    cancelled: C,
) -> (result: Result<(), String>)
    requires
        comparator::consistent(compare),
        call_requires(cancelled, ()),
    ensures
        result is Ok ==> {
            &&& final(slots)@.len() == vstd::math::min(end + 0, old(slots)@.len() + 0int)
            &&& comparator::in_order(compare, final(slots)@)
            &&& selects_prefix(compare, old(slots)@, final(slots)@)
        },
        end == 0 ==> result is Ok,
        cancellation::always(cancelled) && end > 0 && old(slots)@.len() > 0 ==> result is Err,
        result matches Err(reason) ==> reason@ == "Query cancelled"@ && call_ensures(
            cancelled,
            (),
            true,
        ),
{
    select_borrowed(slots, end, &compare, &cancelled)
}

pub(crate) fn select_borrowed<F: Fn(u32, u32) -> Ordering, C: Fn() -> bool>(
    slots: &mut Vec<u32>,
    end: usize,
    compare: &F,
    cancelled: &C,
) -> (result: Result<(), String>)
    requires
        comparator::consistent(*compare),
        call_requires(*cancelled, ()),
    ensures
        result is Ok ==> {
            &&& final(slots)@.len() == vstd::math::min(end + 0, old(slots)@.len() + 0int)
            &&& comparator::in_order(*compare, final(slots)@)
            &&& selects_prefix(*compare, old(slots)@, final(slots)@)
        },
        end == 0 ==> result is Ok,
        cancellation::always(*cancelled) && end > 0 && old(slots)@.len() > 0 ==> result is Err,
        result matches Err(reason) ==> reason@ == "Query cancelled"@ && call_ensures(
            *cancelled,
            (),
            true,
        ),
{
    let ghost before = slots@;
    let count: usize = if end < slots.len() {
        end
    } else {
        slots.len()
    };
    if count == 0 {
        slots.clear();
        proof {
            assert(slots@ + before =~= before);
            assert((slots@ + before).to_multiset() == before.to_multiset());
        }
        return Ok(());
    }
    let target: usize = count - 1;
    let ghost cut = comparator::ix(count);
    let mut low: usize = 0;
    let mut high: usize = slots.len();
    let mut budget: usize = 1;
    let mut size: usize = slots.len();
    while size > 1
        decreases size,
    {
        size = size / 2;
        budget = budget.saturating_add(2);
    }
    let mut placed = false;
    while !placed && high - low > RUN
        invariant
            before == old(slots)@,
            slots@.len() == before.len(),
            slots@.to_multiset() == before.to_multiset(),
            comparator::consistent(*compare),
            call_requires(*cancelled, ()),
            end > 0,
            low <= target < high <= slots@.len(),
            cut == target + 1,
            divided_at(*compare, slots@, comparator::ix(low)),
            divided_at(*compare, slots@, comparator::ix(high)),
            placed ==> divided_at(*compare, slots@, cut),
        decreases budget + (if placed { 0int } else { 1int }),
    {
        if cancelled() {
            return Err("Query cancelled".to_owned());
        }
        let ghost step = slots@;
        let ghost (l, h) = (comparator::ix(low), comparator::ix(high));
        if budget == 0 {
            let mut remainder = copy_range(slots, low, high);
            if let Err(reason) = sort_borrowed(&mut remainder, compare, cancelled) {
                return Err(reason);
            }
            write_range(slots, low, &remainder);
            proof {
                assert(slots@.subrange(l, h) =~= remainder@);
                assert(slots@.take(l) =~= step.take(l));
                assert(slots@.skip(h) =~= step.skip(h));
                lemma_range_multiset(step, slots@, l, h);
                lemma_split_kept(*compare, step, slots@, l, h, l);
                lemma_split_kept(*compare, step, slots@, l, h, h);
                lemma_split_inside(*compare, slots@, l, h, cut);
            }
            placed = true;
        } else {
            budget = budget - 1;
            let mut pivots: Vec<u32> = Vec::new();
            pivots.push(slots[low]);
            pivots.push(slots[low + (high - low) / 2]);
            pivots.push(slots[high - 1]);
            sort_unstable_range(&mut pivots, 0, 3, compare);
            let pivot = pivots[1];
            match partition_range(slots, low, high, pivot, compare, cancelled) {
                None => {
                    return Err("Query cancelled".to_owned());
                },
                Some((less, greater)) => {
                    proof {
                        lemma_range_multiset(step, slots@, l, h);
                        lemma_split_kept(*compare, step, slots@, l, h, l);
                        lemma_split_kept(*compare, step, slots@, l, h, h);
                        lemma_split_by_pivot(
                            *compare,
                            slots@,
                            l,
                            h,
                            comparator::ix(less),
                            comparator::ix(greater),
                            pivot,
                        );
                    }
                    if target < less {
                        high = less;
                    } else if target >= greater {
                        low = greater;
                    } else {
                        placed = true;
                    }
                },
            }
        }
    }
    if !placed {
        let ghost step = slots@;
        let ghost (l, h) = (comparator::ix(low), comparator::ix(high));
        sort_unstable_range(slots, low, high, compare);
        proof {
            lemma_range_multiset(step, slots@, l, h);
            lemma_split_kept(*compare, step, slots@, l, h, l);
            lemma_split_kept(*compare, step, slots@, l, h, h);
            lemma_split_inside(*compare, slots@, l, h, cut);
        }
    }
    if cancelled() {
        return Err("Query cancelled".to_owned());
    }
    let ghost all = slots@;
    slots.truncate(count);
    let ghost chosen = slots@;
    let result = sort_borrowed(slots, compare, cancelled);
    proof {
        let rest = all.skip(cut);
        assert(chosen =~= all.take(cut));
        assert(chosen + rest =~= all);
        vstd::seq_lib::lemma_multiset_commutative(chosen, rest);
        vstd::seq_lib::lemma_multiset_commutative(slots@, rest);
        assert((slots@ + rest).to_multiset() == before.to_multiset());
        assert forall|i: int, j: int|
            0 <= i < slots@.len() && 0 <= j < rest.len() implies comparator::at_most(
            *compare,
            #[trigger] slots@[i],
            #[trigger] rest[j],
        ) by {
            slots@.to_multiset_ensures();
            chosen.to_multiset_ensures();
            assert(slots@.contains(slots@[i]));
            assert(chosen.to_multiset().count(slots@[i]) > 0);
            assert(chosen.contains(slots@[i]));
            let k = choose|k: int| 0 <= k < chosen.len() && chosen[k] == slots@[i];
            assert(all[k] == slots@[i]);
            assert(all[j + cut] == rest[j]);
        }
    }
    result
}

} // verus!
