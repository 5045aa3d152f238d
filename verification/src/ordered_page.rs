//! A page of matches in a given order.
use crate::bitmaps;
use crate::cancellation;
use roaring::RoaringBitmap;
use vstd::prelude::*;

verus! {

/// The slots of an order that match.
pub open spec fn matching(order: Seq<u32>, matched: Set<u32>) -> Seq<u32>
    decreases order.len(),
{
    if order.len() == 0 {
        order
    } else {
        let before = matching(order.drop_last(), matched);
        if matched.contains(order.last()) {
            before.push(order.last())
        } else {
            before
        }
    }
}

/// So many of a list, from a place on.
pub open spec fn window(list: Seq<u32>, offset: int, limit: int) -> Seq<u32> {
    if offset >= list.len() {
        Seq::empty()
    } else if offset + limit >= list.len() {
        list.skip(offset)
    } else {
        list.subrange(offset, offset + limit)
    }
}

proof fn lemma_matching_grows(order: Seq<u32>, matched: Set<u32>, count: int)
    requires
        0 <= count <= order.len(),
    ensures
        matching(order.take(count), matched).len() <= matching(order, matched).len(),
        matching(order.take(count), matched) == matching(order, matched).take(
            matching(order.take(count), matched).len() as int,
        ),
    decreases order.len() - count,
{
    let part = matching(order.take(count), matched);
    let all = matching(order, matched);
    if count == order.len() {
        assert(order.take(count) =~= order);
        assert(all.take(all.len() as int) =~= all);
    } else {
        lemma_matching_grows(order, matched, count + 1);
        let more = matching(order.take(count + 1), matched);
        assert(order.take(count + 1).drop_last() =~= order.take(count));
        assert(part =~= more.take(part.len() as int));
        assert(all.take(more.len() as int).take(part.len() as int) =~= all.take(
            part.len() as int,
        ));
    }
}

/// The page of an order: from `offset` on, at most `limit` of the slots that match.
pub fn select<C: Fn() -> bool>(
    order: &[u32],
    matched: &RoaringBitmap,
    offset: usize,
    limit: usize,
    cancelled: C,
) -> (result: Result<Vec<u32>, String>)
    requires
        call_requires(cancelled, ()),
    ensures
        match result {
            Ok(page) => page@ == window(
                matching(order@, bitmaps::slots_in(*matched)),
                offset as int,
                limit as int,
            ) && !cancellation::always(cancelled),
            Err(reason) => reason@ == "Query cancelled"@ && call_ensures(cancelled, (), true),
        },
{
    let ghost set = bitmaps::slots_in(*matched);
    let ghost all = matching(order@, set);
    if cancelled() {
        return Err("Query cancelled".to_owned());
    }
    let mut page: Vec<u32> = Vec::new();
    if limit == 0 {
        assert(page@ =~= window(all, offset as int, 0));
        return Ok(page);
    }
    let mut rank: usize = 0;
    let mut next: usize = 0;
    assert(order@.take(0) =~= Seq::<u32>::empty());
    assert(page@ =~= window(matching(order@.take(0), set), offset as int, limit as int));
    while next < order.len()
        invariant
            next <= order@.len(),
            set == bitmaps::slots_in(*matched),
            all == matching(order@, set),
            limit > 0,
            call_requires(cancelled, ()),
            call_ensures(cancelled, (), false),
            rank == matching(order@.take(next as int), set).len(),
            rank <= next,
            page@ == window(matching(order@.take(next as int), set), offset as int, limit as int),
            page@.len() < limit,
        decreases order@.len() - next,
    {
        if next % 1024 == 0 {
            if cancelled() {
                return Err("Query cancelled".to_owned());
            }
        }
        let slot = order[next];
        let ghost before = matching(order@.take(next as int), set);
        let ghost part = order@.take(next + 1);
        assert(part.drop_last() =~= order@.take(next as int));
        assert(part.last() == slot);
        if matched.contains(slot) {
            if rank >= offset {
                page.push(slot);
            }
            rank = rank + 1;
            assert(page@ =~= window(before.push(slot), offset as int, limit as int));
            if page.len() == limit {
                proof {
                    lemma_matching_grows(order@, set, next + 1);
                    let now = before.push(slot);
                    assert(now.len() == offset + limit);
                    assert(all.take(now.len() as int) == now);
                    assert(page@ =~= window(all, offset as int, limit as int));
                }
                return Ok(page);
            }
        }
        next = next + 1;
    }
    assert(order@.take(next as int) =~= order@);
    Ok(page)
}

} // verus!
