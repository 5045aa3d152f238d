//! One page of the rows that a query matches.
use crate::bitmaps;
use crate::cancellation;
use crate::bitmaps::slot_list;
use crate::comparator;
use crate::files::IndexedFile;
use crate::result_order;
use crate::result_order::{ResultOrder, SortField};
use crate::slot_order::SlotOrder;
use crate::slot_sort;
use crate::snapshot;
use crate::snapshot::Snapshot;
use crate::text::same_text;
use core::cmp::Ordering;
use roaring::RoaringBitmap;
use vstd::prelude::*;

pub mod laws;

verus! {

/// Results of this size are worth a complete order of the index.
pub const LARGE_RESULT: usize = 10_000;

/// Which rows of a result are wanted. A page may be anchored at a row: it then begins so many
/// rows before it, wherever the row has moved to. The slot is only a hint where that row is.
#[derive(Clone, Debug)]
pub struct PageRequest {
    pub offset: usize,
    pub limit: usize,
    pub anchor: Option<String>,
    pub anchor_slot: Option<u32>,
    pub anchor_delta: i64,
}

/// The wanted rows and where they stand in the result.
#[derive(Clone, Debug)]
pub struct Page {
    pub slots: Vec<u32>,
    pub total: usize,
    pub offset: usize,
    pub anchor_index: Option<usize>,
}

/// A number, or 0 where it is negative.
pub open spec fn at_least_zero(value: int) -> int {
    if value < 0 {
        0
    } else {
        value
    }
}

pub open spec fn smaller(a: int, b: int) -> int {
    if a < b {
        a
    } else {
        b
    }
}

/// Where a page begins: as far before its anchor as it is asked to, but inside the result; or,
/// without the anchor, where it was, but not behind the last page.
pub open spec fn anchored(
    offset: int,
    limit: int,
    total: int,
    requested: bool,
    anchor: Option<int>,
    delta: int,
) -> int {
    if !requested {
        offset
    } else {
        match anchor {
            Some(rank) => smaller(at_least_zero(rank - delta), at_least_zero(total - 1)),
            None => smaller(
                offset,
                at_least_zero(
                    total - (if limit < 1 {
                        1
                    } else {
                        limit
                    }),
                ),
            ),
        }
    }
}

pub open spec fn as_rank(index: Option<usize>) -> Option<int> {
    match index {
        Some(rank) => Some(rank as int),
        None => None,
    }
}

pub fn anchored_offset(
    offset: usize,
    limit: usize,
    total: usize,
    requested: bool,
    anchor: Option<usize>,
    delta: i64,
) -> (start: usize)
    ensures
        start == anchored(
            offset as int,
            limit as int,
            total as int,
            requested,
            as_rank(anchor),
            delta as int,
        ),
{
    if !requested {
        return offset;
    }
    match anchor {
        Some(rank) => {
            let last: usize = if total > 0 {
                total - 1
            } else {
                0
            };
            let wanted: i128 = rank as i128 - delta as i128;
            if wanted <= 0 {
                0
            } else if wanted < last as i128 {
                wanted as usize
            } else {
                last
            }
        },
        None => {
            let rows: usize = if limit < 1 {
                1
            } else {
                limit
            };
            let last: usize = if total > rows {
                total - rows
            } else {
                0
            };
            if offset < last {
                offset
            } else {
                last
            }
        },
    }
}

/// The row of a slot has a path.
pub open spec fn has_path(rows: Seq<IndexedFile>, slot: u32, path: Seq<char>) -> bool {
    rows[slot as int].path@ == path
}

/// Where in a listing the row with a path stands.
pub open spec fn path_rank(
    rows: Seq<IndexedFile>,
    listing: Seq<u32>,
    path: Seq<char>,
) -> Option<int> {
    if exists|i: int| 0 <= i < listing.len() && has_path(rows, #[trigger] listing[i], path) {
        Some(choose|i: int| 0 <= i < listing.len() && has_path(rows, #[trigger] listing[i], path))
    } else {
        None
    }
}

/// The page of a listing that a request asks for.
pub open spec fn shows(
    page: Page,
    rows: Seq<IndexedFile>,
    listing: Seq<u32>,
    request: PageRequest,
) -> bool {
    let total = listing.len() as int;
    let looked_up = total != 0 && request.anchor is Some;
    let rank = if looked_up {
        path_rank(rows, listing, request.anchor->0@)
    } else {
        None
    };
    let offset = anchored(
        request.offset as int,
        request.limit as int,
        total,
        request.anchor is Some,
        rank,
        request.anchor_delta as int,
    );
    &&& page.total == total
    &&& page.offset == offset
    &&& as_rank(page.anchor_index) == rank
    &&& page.slots@ == listing.subrange(
        smaller(offset, total),
        smaller(offset + request.limit, total),
    )
}

/// The slots of a listing that are in a set.
pub open spec fn kept_in(listing: Seq<u32>, set: Set<u32>) -> Seq<u32>
    decreases listing.len(),
{
    if listing.len() == 0 {
        listing
    } else if set.contains(listing.last()) {
        kept_in(listing.drop_last(), set).push(listing.last())
    } else {
        kept_in(listing.drop_last(), set)
    }
}

proof fn lemma_kept_members(listing: Seq<u32>, set: Set<u32>, slot: u32)
    ensures
        kept_in(listing, set).contains(slot) == (listing.contains(slot) && set.contains(slot)),
    decreases listing.len(),
{
    if listing.len() > 0 {
        let (init, last) = (listing.drop_last(), listing.last());
        lemma_kept_members(init, set, slot);
        let (before, after) = (kept_in(init, set), kept_in(listing, set));
        assert(listing[listing.len() - 1] == last);
        if init.contains(slot) {
            let k = choose|k: int| 0 <= k < init.len() && init[k] == slot;
            assert(listing[k] == slot);
        }
        if listing.contains(slot) {
            let k = choose|k: int| 0 <= k < listing.len() && listing[k] == slot;
            if k < init.len() {
                assert(init[k] == slot);
            }
        }
        if set.contains(last) {
            assert(after[before.len() as int] == last);
            if before.contains(slot) {
                let k = choose|k: int| 0 <= k < before.len() && before[k] == slot;
                assert(after[k] == slot);
            }
            if after.contains(slot) {
                let k = choose|k: int| 0 <= k < after.len() && after[k] == slot;
                if k < before.len() {
                    assert(before[k] == slot);
                }
            }
        }
    }
}

proof fn lemma_kept_order(
    rows: Seq<IndexedFile>,
    keys: Seq<(SortField, bool)>,
    listing: Seq<u32>,
    set: Set<u32>,
)
    requires
        snapshot::listed_in_order(rows, keys, listing),
    ensures
        snapshot::listed_in_order(rows, keys, kept_in(listing, set)),
    decreases listing.len(),
{
    if listing.len() > 0 {
        let (init, last) = (listing.drop_last(), listing.last());
        assert(snapshot::listed_in_order(rows, keys, init)) by {
            assert forall|i: int, j: int|
                0 <= i < j < init.len() implies result_order::comes_before(
                rows,
                keys,
                #[trigger] init[i],
                #[trigger] init[j],
            ) by {
                assert(result_order::comes_before(rows, keys, listing[i], listing[j]));
            }
        }
        lemma_kept_order(rows, keys, init, set);
        let before = kept_in(init, set);
        let after = kept_in(listing, set);
        assert forall|i: int, j: int|
            0 <= i < j < after.len() implies result_order::comes_before(
            rows,
            keys,
            #[trigger] after[i],
            #[trigger] after[j],
        ) by {
            if j < before.len() {
                assert(result_order::comes_before(rows, keys, before[i], before[j]));
            } else {
                lemma_kept_members(init, set, before[i]);
                assert(before.contains(before[i]));
                let k = choose|k: int| 0 <= k < init.len() && init[k] == before[i];
                assert(result_order::comes_before(
                    rows,
                    keys,
                    listing[k],
                    listing[listing.len() - 1],
                ));
            }
        }
    }
}

/// The slots of an order of all live slots that a query matches are the matching slots in
/// order.
pub proof fn law_filtering_keeps_the_order(
    rows: Seq<IndexedFile>,
    keys: Seq<(SortField, bool)>,
    live: Set<u32>,
    listing: Seq<u32>,
    matched: Set<u32>,
)
    requires
        snapshot::is_listing(rows, keys, live, listing),
        matched.subset_of(live),
    ensures
        snapshot::is_listing(rows, keys, matched, kept_in(listing, matched)),
{
    lemma_kept_order(rows, keys, listing, matched);
    let kept = kept_in(listing, matched);
    assert forall|t: u32| #[trigger] kept.to_set().contains(t) == matched.contains(t) by {
        lemma_kept_members(listing, matched, t);
        assert(kept.to_set().contains(t) == kept.contains(t));
        assert(listing.to_set().contains(t) == listing.contains(t));
        if matched.contains(t) {
            assert(live.contains(t));
        }
    }
    assert(kept.to_set() =~= matched);
}

/// What is kept of a beginning is a beginning of what is kept.
proof fn lemma_kept_prefix(listing: Seq<u32>, set: Set<u32>, count: int)
    requires
        0 <= count <= listing.len(),
    ensures
        kept_in(listing.take(count), set).len() <= kept_in(listing, set).len(),
        kept_in(listing, set).take(kept_in(listing.take(count), set).len() as int) == kept_in(
            listing.take(count),
            set,
        ),
    decreases listing.len(),
{
    if count == listing.len() {
        assert(listing.take(count) =~= listing);
        assert(kept_in(listing, set).take(kept_in(listing, set).len() as int) =~= kept_in(
            listing,
            set,
        ));
    } else {
        let init = listing.drop_last();
        lemma_kept_prefix(init, set, count);
        assert(init.take(count) =~= listing.take(count));
        let part = kept_in(listing.take(count), set);
        assert(kept_in(listing, set).take(part.len() as int) =~= kept_in(init, set).take(
            part.len() as int,
        ));
    }
}

/// In rows of different paths, a path has one rank.
proof fn lemma_rank(rows: Seq<IndexedFile>, listing: Seq<u32>, path: Seq<char>, rank: int)
    requires
        snapshot::different_rows(rows, listing.to_set()),
        listing.no_duplicates(),
        0 <= rank < listing.len(),
        has_path(rows, listing[rank], path),
    ensures
        path_rank(rows, listing, path) == Some(rank),
{
    let chosen = choose|i: int| 0 <= i < listing.len() && has_path(rows, #[trigger] listing[i], path);
    assert(listing.to_set().contains(listing[rank]));
    assert(listing.to_set().contains(listing[chosen]));
    assert(rows[listing[rank] + 0].path@ == rows[listing[chosen] + 0].path@);
}

/// Whether the row of a slot has a path.
fn path_is(rows: &Vec<IndexedFile>, slot: u32, path: &str) -> (same: bool)
    requires
        slot < rows@.len(),
    ensures
        same == has_path(rows@, slot, path@),
{
    same_text(rows[slot as usize].path.as_str(), path)
}

/// The slot that a request hints at, where its row is live and has the path.
fn hinted(rows: &Vec<IndexedFile>, live: &RoaringBitmap, hint: Option<u32>, path: &str) -> (slot:
    Option<u32>)
    ensures
        slot matches Some(found) ==> found < rows@.len() && bitmaps::slots_in(*live).contains(found)
            && has_path(rows@, found, path@),
{
    match hint {
        Some(slot) => if (slot as usize) < rows.len() && live.contains(slot) && path_is(
            rows,
            slot,
            path,
        ) {
            Some(slot)
        } else {
            None
        },
        None => None,
    }
}

/// The rank of a live slot in an order of all live slots.
fn rank_of(rows: &Vec<IndexedFile>, keys: &ResultOrder, order: &SlotOrder, slot: u32) -> (rank:
    Option<usize>)
    requires
        order.wf(),
        snapshot::listed_in_order(rows@, keys.keys@, order@),
        snapshot::different_rows(rows@, order@.to_set()),
        order@.contains(slot),
    ensures
        rank matches Some(found) && found < order@.len() && order@[comparator::ix(found)] == slot,
{
    let compare = |candidate: &u32| -> (o: Ordering)
        ensures
            o == result_order::slot_order_in(rows@, keys.keys@, *candidate, slot),
        { keys.compare_slots(rows, *candidate, slot) };
    let result = order.binary_search_by(compare);
    proof {
        let probe = |v: u32| result_order::slot_order_in(rows@, keys.keys@, v, slot);
        let list = order@;
        let at = choose|i: int| 0 <= i < list.len() && list[i] == slot;
        assert(crate::slot_order::probe_fits(compare, probe));
        let full = |a: u32, b: u32| result_order::slot_order_in(rows@, keys.keys@, a, b);
        result_order::law_slots_are_totally_ordered(rows@, keys.keys@, full);
        assert(full(slot, slot) == Ordering::Equal);
        assert forall|i: int| 0 <= i < list.len() implies probe(#[trigger] list[i]) == (if i < at {
            Ordering::Less
        } else if i == at {
            Ordering::Equal
        } else {
            Ordering::Greater
        }) by {
            if i < at {
                assert(result_order::comes_before(rows@, keys.keys@, list[i], list[at]));
            } else if i > at {
                assert(result_order::comes_before(rows@, keys.keys@, list[at], list[i]));
                assert((full(list[at], list[i]) == Ordering::Less) == (full(list[i], list[at])
                    == Ordering::Greater));
            }
        }
        assert(crate::slot_order::graded(probe, list));
        assert(crate::slot_order::search_answer(probe, list, result));
        if let Err(rank) = result {
            assert(probe(list[at]) == Ordering::Equal);
        }
    }
    match result {
        Ok(rank) => Some(rank),
        Err(_) => None,
    }
}

/// Where a path stands in an order of all live rows: first at the rank that it had, then by
/// the slot that it is said to have, then anywhere.
fn find_anchor<C: Fn() -> bool>(
    state: &Snapshot,
    keys: &ResultOrder,
    order: &SlotOrder,
    request: &PageRequest,
    anchor: &str,
    cancelled: &C,
) -> (rank: Result<Option<usize>, String>)
    requires
        state.wf(),
        order.wf(),
        snapshot::is_listing(state.rows(), keys.keys@, state.slots(), order@),
        call_requires(*cancelled, ()),
    ensures
        match rank {
            Ok(found) => as_rank(found) == path_rank(state.rows(), order@, anchor@),
            Err(reason) => reason@ == "Query cancelled"@ && call_ensures(*cancelled, (), true),
        },
{
    let rows = &state.entries;
    let ghost list = order@;
    proof {
        snapshot::lemma_listing_distinct(rows@, keys.keys@, list);
    }
    let expected = expected_rank(request.offset, request.anchor_delta);
    if let Some(found_slot) = order.get(expected) {
        let slot: u32 = *found_slot;
        assert(list.to_set().contains(slot)) by {
            assert(list[expected as int] == slot);
        }
        if path_is(rows, slot, anchor) {
            proof {
                lemma_rank(rows@, list, anchor@, expected as int);
            }
            return Ok(Some(expected));
        }
    }
    if let Some(slot) = hinted(rows, &state.live, request.anchor_slot, anchor) {
        assert(list.to_set().contains(slot));
        assert(list.contains(slot));
        let rank = rank_of(rows, keys, order, slot);
        proof {
            let found = rank->0;
            lemma_rank(rows@, list, anchor@, found as int);
        }
        return Ok(rank);
    }
    let count = order.len();
    let mut rank: usize = 0;
    while rank < count
        invariant
            rank <= count == list.len(),
            list == order@,
            order.wf(),
            rows == &state.entries,
            call_requires(*cancelled, ()),
            list.no_duplicates(),
            snapshot::different_rows(rows@, list.to_set()),
            forall|i: int| 0 <= i < rank ==> !has_path(rows@, #[trigger] list[i], anchor@),
        decreases count - rank,
    {
        if rank % 1024 == 0 && cancelled() {
            return Err("Query cancelled".to_owned());
        }
        if let Some(found_slot) = order.get(rank) {
            let slot: u32 = *found_slot;
            assert(list[rank as int] == slot);
            assert(list.to_set().contains(slot));
            if path_is(rows, slot, anchor) {
                proof {
                    lemma_rank(rows@, list, anchor@, rank as int);
                }
                return Ok(Some(rank));
            }
        }
        rank = rank + 1;
    }
    Ok(None)
}

/// The rank that an anchor had when its page was shown.
fn expected_rank(offset: usize, delta: i64) -> (rank: usize)
{
    let sum: i128 = offset as i128 + delta as i128;
    if sum <= 0 {
        0
    } else if sum < usize::MAX as i128 {
        sum as usize
    } else {
        usize::MAX
    }
}

/// Where a path stands among the rows of an order that a query matches.
fn find_kept_anchor<C: Fn() -> bool>(
    rows: &Vec<IndexedFile>,
    order: &SlotOrder,
    matching: &RoaringBitmap,
    anchor: &str,
    cancelled: &C,
) -> (rank: Result<Option<usize>, String>)
    requires
        order.wf(),
        order@.no_duplicates(),
        snapshot::different_rows(rows@, order@.to_set()),
        call_requires(*cancelled, ()),
    ensures
        match rank {
            Ok(found) => as_rank(found) == path_rank(
                rows@,
                kept_in(order@, bitmaps::slots_in(*matching)),
                anchor@,
            ),
            Err(reason) => reason@ == "Query cancelled"@ && call_ensures(*cancelled, (), true),
        },
{
    let ghost list = order@;
    let ghost set = bitmaps::slots_in(*matching);
    let ghost kept = kept_in(list, set);
    proof {
        lemma_kept_distinct(list, set);
        assert forall|t: u32| #[trigger] kept.to_set().contains(t) implies list.to_set().contains(
            t,
        ) by {
            lemma_kept_members(list, set, t);
        }
        assert(snapshot::different_rows(rows@, kept.to_set()));
        assert(list.take(0) =~= Seq::<u32>::empty());
    }
    let count = order.len();
    let mut position: usize = 0;
    let mut rank: usize = 0;
    while position < count
        invariant
            position <= count == list.len(),
            rank <= position,
            list == order@,
            set == bitmaps::slots_in(*matching),
            kept == kept_in(list, set),
            kept.no_duplicates(),
            snapshot::different_rows(rows@, kept.to_set()),
            snapshot::different_rows(rows@, list.to_set()),
            order.wf(),
            call_requires(*cancelled, ()),
            rank == kept_in(list.take(position as int), set).len(),
            forall|i: int| 0 <= i < rank ==> !has_path(rows@, #[trigger] kept[i], anchor@),
        decreases count - position,
    {
        if position % 1024 == 0 && cancelled() {
            return Err("Query cancelled".to_owned());
        }
        let ghost part = list.take(position + 1);
        proof {
            assert(part.drop_last() =~= list.take(position as int));
            assert(part.last() == list[position as int]);
            lemma_kept_prefix(list, set, position + 1);
        }
        if let Some(found_slot) = order.get(position) {
            let slot: u32 = *found_slot;
            assert(list[position as int] == slot);
            assert(list.to_set().contains(slot));
            if matching.contains(slot) {
                proof {
                    assert(kept_in(part, set).last() == slot);
                    assert(kept.take(kept_in(part, set).len() as int)[rank as int] == slot);
                    assert(kept[rank as int] == slot);
                }
                if path_is(rows, slot, anchor) {
                    proof {
                        lemma_rank(rows@, kept, anchor@, rank as int);
                    }
                    return Ok(Some(rank));
                }
                rank = rank + 1;
            }
        }
        position = position + 1;
    }
    assert(list.take(position as int) =~= list);
    Ok(None)
}

proof fn lemma_kept_distinct(listing: Seq<u32>, set: Set<u32>)
    requires
        listing.no_duplicates(),
    ensures
        kept_in(listing, set).no_duplicates(),
    decreases listing.len(),
{
    if listing.len() > 0 {
        let (init, last) = (listing.drop_last(), listing.last());
        lemma_kept_distinct(init, set);
        let before = kept_in(init, set);
        lemma_kept_members(init, set, last);
        if init.contains(last) {
            let k = choose|k: int| 0 <= k < init.len() && init[k] == last;
            assert(listing[k] == listing[listing.len() - 1]);
        }
        assert forall|i: int, j: int|
            0 <= i < kept_in(listing, set).len() && 0 <= j < kept_in(listing, set).len() && i
                != j implies kept_in(listing, set)[i] != kept_in(listing, set)[j] by {
            if set.contains(last) {
                if i < before.len() && j == before.len() {
                    assert(before.contains(before[i]));
                }
                if j < before.len() && i == before.len() {
                    assert(before.contains(before[j]));
                }
            }
        }
    }
}

/// The slots of a page among the rows of an order that a query matches.
fn take_kept<C: Fn() -> bool>(
    order: &SlotOrder,
    matching: &RoaringBitmap,
    offset: usize,
    limit: usize,
    cancelled: &C,
) -> (slots: Result<Vec<u32>, String>)
    requires
        order.wf(),
        call_requires(*cancelled, ()),
    ensures
        match slots {
            Ok(found) => {
                let kept = kept_in(order@, bitmaps::slots_in(*matching));
                found@ == kept.subrange(
                    smaller(offset as int, kept.len() as int),
                    smaller(offset + limit, kept.len() as int),
                )
            },
            Err(reason) => reason@ == "Query cancelled"@ && call_ensures(*cancelled, (), true),
        },
{
    let ghost list = order@;
    let ghost set = bitmaps::slots_in(*matching);
    let ghost kept = kept_in(list, set);
    let count = order.len();
    let mut found: Vec<u32> = Vec::new();
    let mut position: usize = 0;
    let mut rank: usize = 0;
    assert(list.take(0) =~= Seq::<u32>::empty());
    while position < count
        invariant
            position <= count == list.len(),
            rank <= position,
            list == order@,
            set == bitmaps::slots_in(*matching),
            kept == kept_in(list, set),
            order.wf(),
            call_requires(*cancelled, ()),
            rank == kept_in(list.take(position as int), set).len(),
            rank <= kept.len(),
            found@ == kept.subrange(
                smaller(offset as int, rank as int),
                smaller(offset + limit, rank as int),
            ),
        decreases count - position,
    {
        if position % 1024 == 0 && cancelled() {
            return Err("Query cancelled".to_owned());
        }
        let ghost part = list.take(position + 1);
        proof {
            assert(part.drop_last() =~= list.take(position as int));
            assert(part.last() == list[position as int]);
            lemma_kept_prefix(list, set, position + 1);
        }
        if let Some(found_slot) = order.get(position) {
            let slot: u32 = *found_slot;
            if matching.contains(slot) {
                proof {
                    assert(kept_in(part, set).last() == slot);
                    assert(kept.take(kept_in(part, set).len() as int)[rank as int] == slot);
                    assert(kept[rank as int] == slot);
                }
                let ghost before = found@;
                if rank >= offset && found.len() < limit {
                    found.push(slot);
                    assert(found@ =~= before.push(slot));
                }
                rank = rank + 1;
                assert(found@ =~= kept.subrange(
                    smaller(offset as int, rank as int),
                    smaller(offset + limit, rank as int),
                ));
                if found.len() == limit {
                    proof {
                        assert(limit > 0 ==> rank >= offset + limit);
                        assert(found@ =~= kept.subrange(
                            smaller(offset as int, kept.len() as int),
                            smaller(offset + limit, kept.len() as int),
                        ));
                    }
                    return Ok(found);
                }
            }
        }
        position = position + 1;
    }
    assert(list.take(position as int) =~= list);
    Ok(found)
}

/// A page of an order of all live rows: of all of them, or of those that a query matches.
fn page_in_order<C: Fn() -> bool>(
    state: &Snapshot,
    matching: Option<&RoaringBitmap>,
    total: usize,
    keys: &ResultOrder,
    order: &SlotOrder,
    request: &PageRequest,
    cancelled: &C,
) -> (page: Result<Page, String>)
    requires
        state.wf(),
        order.wf(),
        snapshot::is_listing(state.rows(), keys.keys@, state.slots(), order@),
        matching matches Some(set) ==> bitmaps::slots_in(*set).subset_of(state.slots()),
        total > 0,
        total == wanted_slots(order@, matching).len(),
        call_requires(*cancelled, ()),
    ensures
        match page {
            Ok(found) => shows(found, state.rows(), wanted_slots(order@, matching), *request),
            Err(reason) => reason@ == "Query cancelled"@ && call_ensures(*cancelled, (), true),
        },
{
    proof {
        snapshot::lemma_listing_distinct(state.rows(), keys.keys@, order@);
    }
    let anchor_index = match &request.anchor {
        None => None,
        Some(anchor) => {
            let found = match matching {
                None => find_anchor(state, keys, order, request, anchor.as_str(), cancelled),
                Some(set) => find_kept_anchor(
                    &state.entries,
                    order,
                    set,
                    anchor.as_str(),
                    cancelled,
                ),
            };
            match found {
                Ok(rank) => rank,
                Err(reason) => {
                    return Err(reason);
                },
            }
        },
    };
    let offset = anchored_offset(
        request.offset,
        request.limit,
        total,
        request.anchor.is_some(),
        anchor_index,
        request.anchor_delta,
    );
    match matching {
        None => {
            let count = order.len();
            let start: usize = if offset < count {
                offset
            } else {
                count
            };
            let end: usize = if request.limit < count - start {
                start + request.limit
            } else {
                count
            };
            let mut slots: Vec<u32> = Vec::new();
            order.extend_range(&mut slots, start, end);
            assert(slots@ =~= order@.subrange(start as int, end as int));
            Ok(Page { slots, total, offset, anchor_index })
        },
        Some(set) => match take_kept(order, set, offset, request.limit, cancelled) {
            Ok(slots) => Ok(Page { slots, total, offset, anchor_index }),
            Err(reason) => Err(reason),
        },
    }
}

/// The slots of an order that are wanted: all, or those of a set.
pub open spec fn wanted_slots(listing: Seq<u32>, matching: Option<&RoaringBitmap>) -> Seq<u32> {
    match matching {
        None => listing,
        Some(set) => kept_in(listing, bitmaps::slots_in(*set)),
    }
}

/// How many slots of a list come before another.
pub open spec fn count_before(
    rows: Seq<IndexedFile>,
    keys: Seq<(SortField, bool)>,
    list: Seq<u32>,
    slot: u32,
) -> int
    decreases list.len(),
{
    if list.len() == 0 {
        0
    } else {
        count_before(rows, keys, list.drop_last(), slot) + (if result_order::comes_before(
            rows,
            keys,
            list.last(),
            slot,
        ) {
            1int
        } else {
            0int
        })
    }
}

proof fn lemma_count_remove(
    rows: Seq<IndexedFile>,
    keys: Seq<(SortField, bool)>,
    list: Seq<u32>,
    at: int,
    slot: u32,
)
    requires
        0 <= at < list.len(),
    ensures
        count_before(rows, keys, list, slot) == count_before(rows, keys, list.remove(at), slot) + (
        if result_order::comes_before(rows, keys, list[at], slot) {
            1int
        } else {
            0int
        }),
    decreases list.len(),
{
    if at == list.len() - 1 {
        assert(list.remove(at) =~= list.drop_last());
    } else {
        lemma_count_remove(rows, keys, list.drop_last(), at, slot);
        assert(list.remove(at).drop_last() =~= list.drop_last().remove(at));
        assert(list.remove(at).last() == list.last());
    }
}

proof fn lemma_count_permuted(
    rows: Seq<IndexedFile>,
    keys: Seq<(SortField, bool)>,
    a: Seq<u32>,
    b: Seq<u32>,
    slot: u32,
)
    requires
        a.no_duplicates(),
        b.no_duplicates(),
        a.to_set() == b.to_set(),
    ensures
        count_before(rows, keys, a, slot) == count_before(rows, keys, b, slot),
        a.len() == b.len(),
    decreases a.len(),
{
    assert forall|t: u32| a.contains(t) == #[trigger] b.contains(t) by {
        assert(a.to_set().contains(t) == a.contains(t));
        assert(b.to_set().contains(t) == b.contains(t));
    }
    if a.len() == 0 {
        if b.len() > 0 {
            assert(b.contains(b[0]));
        }
    } else {
        let (init, last) = (a.drop_last(), a.last());
        assert(a.contains(last));
        assert(b.contains(last));
        let at = choose|k: int| 0 <= k < b.len() && b[k] == last;
        let rest = b.remove(at);
        assert forall|t: u32| #[trigger] init.to_set().contains(t) == rest.to_set().contains(t) by {
            if init.contains(t) {
                let k = choose|k: int| 0 <= k < init.len() && init[k] == t;
                assert(a[k] == t && t != last);
                assert(a.contains(t));
                assert(b.contains(t));
                let m = choose|m: int| 0 <= m < b.len() && b[m] == t;
                if m < at {
                    assert(rest[m] == t);
                } else {
                    assert(rest[m - 1] == t);
                }
            }
            if rest.contains(t) {
                let m = choose|m: int| 0 <= m < rest.len() && rest[m] == t;
                let k = if m < at {
                    m
                } else {
                    m + 1
                };
                assert(b[k] == t && k != at);
                assert(b.contains(t));
                assert(a.contains(t));
                let n = choose|n: int| 0 <= n < a.len() && a[n] == t;
                assert(n < init.len());
                assert(init[n] == t);
            }
        }
        assert(init.to_set() =~= rest.to_set());
        assert(rest.no_duplicates()) by {
            assert forall|i: int, j: int|
                0 <= i < rest.len() && 0 <= j < rest.len() && i != j implies rest[i] != rest[j] by {
                let x = if i < at {
                    i
                } else {
                    i + 1
                };
                let y = if j < at {
                    j
                } else {
                    j + 1
                };
                assert(b[x] != b[y]);
            }
        }
        lemma_count_permuted(rows, keys, init, rest, slot);
        lemma_count_remove(rows, keys, b, at, slot);
    }
}

/// In a listing, as many slots come before another as its rank says.
proof fn lemma_count_is_rank(
    rows: Seq<IndexedFile>,
    keys: Seq<(SortField, bool)>,
    listing: Seq<u32>,
    rank: int,
    count: int,
)
    requires
        snapshot::listed_in_order(rows, keys, listing),
        0 <= rank < listing.len(),
        0 <= count <= listing.len(),
    ensures
        count_before(rows, keys, listing.take(count), listing[rank]) == smaller(count, rank),
    decreases count,
{
    if count > 0 {
        lemma_count_is_rank(rows, keys, listing, rank, count - 1);
        assert(listing.take(count).drop_last() =~= listing.take(count - 1));
        let one = listing[count - 1];
        assert(listing.take(count).last() == one);
        result_order::lemma_before_is_strict(rows, keys, one, listing[rank]);
        if count - 1 < rank {
            assert(result_order::comes_before(rows, keys, listing[count - 1], listing[rank]));
        } else if count - 1 > rank {
            assert(result_order::comes_before(rows, keys, listing[rank], listing[count - 1]));
        }
    }
}

/// Whether the row of one slot comes before that of another.
fn precedes(rows: &Vec<IndexedFile>, keys: &ResultOrder, a: u32, b: u32) -> (before: bool)
    ensures
        before == result_order::comes_before(rows@, keys.keys@, a, b),
{
    match keys.compare_slots(rows, a, b) {
        Ordering::Less => true,
        _ => false,
    }
}

/// How many of some slots come before another.
fn count_preceding<C: Fn() -> bool>(
    rows: &Vec<IndexedFile>,
    keys: &ResultOrder,
    list: &Vec<u32>,
    slot: u32,
    cancelled: &C,
) -> (rank: Result<usize, String>)
    requires
        call_requires(*cancelled, ()),
    ensures
        match rank {
            Ok(count) => count == count_before(rows@, keys.keys@, list@, slot),
            Err(reason) => reason@ == "Query cancelled"@ && call_ensures(*cancelled, (), true),
        },
{
    let mut count: usize = 0;
    let mut position: usize = 0;
    while position < list.len()
        invariant
            position <= list@.len(),
            count <= position,
            call_requires(*cancelled, ()),
            count == count_before(rows@, keys.keys@, list@.take(position as int), slot),
        decreases list@.len() - position,
    {
        if position % 1024 == 0 && cancelled() {
            return Err("Query cancelled".to_owned());
        }
        let ghost part = list@.take(position + 1);
        assert(part.drop_last() =~= list@.take(position as int));
        assert(part.last() == list@[position as int]);
        if precedes(rows, keys, list[position], slot) {
            count = count + 1;
        }
        position = position + 1;
    }
    assert(list@.take(position as int) =~= list@);
    Ok(count)
}

/// The slots with the rows that come first, in order.
fn first_slots<C: Fn() -> bool>(
    rows: &Vec<IndexedFile>,
    keys: &ResultOrder,
    slots: Vec<u32>,
    end: usize,
    cancelled: &C,
) -> (result: Result<Vec<u32>, String>)
    requires
        slots@.no_duplicates(),
        snapshot::different_rows(rows@, slots@.to_set()),
        call_requires(*cancelled, ()),
    ensures
        match result {
            Ok(prefix) => forall|listing: Seq<u32>| #[trigger]
                snapshot::is_listing(rows@, keys.keys@, slots@.to_set(), listing) ==> prefix@.len()
                    == smaller(end + 0, listing.len() + 0int) && prefix@ == listing.take(
                    prefix@.len() + 0int,
                ),
            Err(reason) => reason@ == "Query cancelled"@ && call_ensures(*cancelled, (), true),
        },
{
    let compare = |a: u32, b: u32| -> (o: Ordering)
        ensures
            o == result_order::slot_order_in(rows@, keys.keys@, a, b),
        { keys.compare_slots(rows, a, b) };
    let ghost given = slots@;
    let ghost order = |a: u32, b: u32| result_order::slot_order_in(rows@, keys.keys@, a, b);
    proof {
        result_order::law_slots_are_totally_ordered(rows@, keys.keys@, order);
        assert(comparator::fits(compare, order));
    }
    let mut prefix = slots;
    let result = slot_sort::select_borrowed(&mut prefix, end, &compare, cancelled);
    match result {
        Err(reason) => Err(reason),
        Ok(_) => {
            proof {
                lemma_prefix_of_listing(rows@, keys.keys@, compare, given, prefix@);
            }
            Ok(prefix)
        },
    }
}

/// A sorted selection of what comes first begins the listing.
proof fn lemma_prefix_of_listing<F: Fn(u32, u32) -> Ordering>(
    rows: Seq<IndexedFile>,
    keys: Seq<(SortField, bool)>,
    compare: F,
    all: Seq<u32>,
    prefix: Seq<u32>,
)
    requires
        all.no_duplicates(),
        snapshot::different_rows(rows, all.to_set()),
        forall|a: u32, b: u32, o: Ordering| #[trigger]
            call_ensures(compare, (a, b), o) ==> o == result_order::slot_order_in(rows, keys, a, b),
        comparator::in_order(compare, prefix),
        slot_sort::selects_prefix(compare, all, prefix),
    ensures
        forall|listing: Seq<u32>| #[trigger]
            snapshot::is_listing(rows, keys, all.to_set(), listing) ==> listing.len() == all.len()
                && prefix.len() <= listing.len() && prefix == listing.take(prefix.len() + 0int),
{
    let order = |a: u32, b: u32| result_order::slot_order_in(rows, keys, a, b);
    result_order::law_slots_are_totally_ordered(rows, keys, order);
    assert(comparator::fits(compare, order));
    let rest = choose|rest: Seq<u32>|
        {
            &&& #[trigger] (prefix + rest).to_multiset() == all.to_multiset()
            &&& forall|i: int, j: int|
                0 <= i < prefix.len() && 0 <= j < rest.len() ==> comparator::at_most(
                    compare,
                    #[trigger] prefix[i],
                    #[trigger] rest[j],
                )
        };
    let both = prefix + rest;
    snapshot::lemma_permuted(all, both);
    assert forall|t: u32| #[trigger] rest.to_set().contains(t) implies all.to_set().contains(t) by {
        let k = choose|k: int| 0 <= k < rest.len() && rest[k] == t;
        assert(both[prefix.len() + k] == t);
        assert(both.to_set().contains(t));
    }
    assert(snapshot::different_rows(rows, rest.to_set()));
    let tail = snapshot::in_row_order(rows, keys, rest);
    let whole = prefix + tail;
    assert forall|t: u32| tail.contains(t) == #[trigger] rest.contains(t) by {
        assert(tail.to_set().contains(t) == tail.contains(t));
        assert(rest.to_set().contains(t) == rest.contains(t));
    }
    assert forall|i: int, j: int| 0 <= i < j < whole.len() implies result_order::comes_before(
        rows,
        keys,
        #[trigger] whole[i],
        #[trigger] whole[j],
    ) by {
        if i >= prefix.len() {
            assert(result_order::comes_before(
                rows,
                keys,
                tail[i - prefix.len()],
                tail[j - prefix.len()],
            ));
        } else {
            let (a, b) = (whole[i], whole[j]);
            assert(both[i] == a);
            assert(both.to_set().contains(a));
            if j < prefix.len() {
                assert(both[j] == b);
                assert(a != b);
                assert(comparator::at_most(compare, prefix[i], prefix[j]));
            } else {
                assert(tail.contains(b)) by {
                    assert(tail[j - prefix.len()] == b);
                }
                assert(rest.contains(b));
                let k = choose|k: int| 0 <= k < rest.len() && rest[k] == b;
                assert(both[prefix.len() + k] == b);
                assert(a != b);
                assert(comparator::at_most(compare, prefix[i], rest[k]));
            }
            assert(both.to_set().contains(b)) by {
                if j < prefix.len() {
                    assert(both[j] == b);
                } else {
                    let k = choose|k: int| 0 <= k < rest.len() && rest[k] == b;
                    assert(both[prefix.len() + k] == b);
                }
            }
            assert(order(a, b) != Ordering::Greater);
            result_order::lemma_before_is_strict(rows, keys, a, b);
            assert((order(b, a) == Ordering::Less) == (order(a, b) == Ordering::Greater));
        }
    }
    assert forall|t: u32| #[trigger] whole.to_set().contains(t) == all.to_set().contains(t) by {
        assert(both.to_set().contains(t) == all.to_set().contains(t));
        assert(tail.contains(t) == rest.contains(t));
        if whole.contains(t) {
            let k = choose|k: int| 0 <= k < whole.len() && whole[k] == t;
            if k < prefix.len() {
                assert(both[k] == t);
            } else {
                assert(tail[k - prefix.len()] == t);
                let m = choose|m: int| 0 <= m < rest.len() && rest[m] == t;
                assert(both[prefix.len() + m] == t);
            }
        }
        if both.contains(t) {
            let k = choose|k: int| 0 <= k < both.len() && both[k] == t;
            if k < prefix.len() {
                assert(whole[k] == t);
            } else {
                assert(rest[k - prefix.len()] == t);
                let m = choose|m: int| 0 <= m < tail.len() && tail[m] == t;
                assert(whole[prefix.len() + m] == t);
            }
        }
    }
    assert(whole.to_set() =~= all.to_set());
    assert(snapshot::is_listing(rows, keys, all.to_set(), whole));
    snapshot::lemma_listing_distinct(rows, keys, whole);
    lemma_count_permuted(rows, keys, whole, all, 0);
    assert forall|listing: Seq<u32>| #[trigger]
        snapshot::is_listing(rows, keys, all.to_set(), listing) implies listing.len() == all.len()
        && prefix.len() <= listing.len() && prefix == listing.take(prefix.len() + 0int) by {
        snapshot::law_there_is_one_listing(rows, keys, all.to_set(), listing, whole);
        assert(whole.take(prefix.len() + 0int) =~= prefix);
    }
}

/// The slots of a result: all live ones, or those that a query matches.
pub open spec fn result_slots(state: Snapshot, matching: Option<&RoaringBitmap>) -> Set<u32> {
    match matching {
        None => state.slots(),
        Some(set) => bitmaps::slots_in(*set),
    }
}

/// The slot of a result whose row has a path.
fn find_slot(
    rows: &Vec<IndexedFile>,
    live: &RoaringBitmap,
    matches: &Vec<u32>,
    hint: Option<u32>,
    path: &str,
) -> (slot: Option<u32>)
    requires
        snapshot::different_rows(rows@, bitmaps::slots_in(*live)),
        matches@.to_set().subset_of(bitmaps::slots_in(*live)),
    ensures
        match slot {
            Some(found) => bitmaps::slots_in(*live).contains(found) && has_path(
                rows@,
                found,
                path@,
            ),
            None => forall|i: int|
                0 <= i < matches@.len() ==> !has_path(rows@, #[trigger] matches@[i], path@),
        },
{
    let near = hinted(rows, live, hint, path);
    if near.is_some() {
        return near;
    }
    let mut next: usize = 0;
    while next < matches.len()
        invariant
            next <= matches@.len(),
            snapshot::different_rows(rows@, bitmaps::slots_in(*live)),
            matches@.to_set().subset_of(bitmaps::slots_in(*live)),
            forall|i: int| 0 <= i < next ==> !has_path(rows@, #[trigger] matches@[i], path@),
        decreases matches@.len() - next,
    {
        let slot = matches[next];
        assert(matches@.to_set().contains(slot));
        assert(bitmaps::slots_in(*live).contains(slot));
        if path_is(rows, slot, path) {
            return Some(slot);
        }
        next = next + 1;
    }
    None
}

/// A page of a result without an order of the whole index: only its rows up to the end of the
/// page are put in order.
fn page_by_selection<C: Fn() -> bool>(
    state: &Snapshot,
    matching: Option<&RoaringBitmap>,
    matches: Vec<u32>,
    keys: &ResultOrder,
    request: &PageRequest,
    cancelled: &C,
) -> (page: Result<Page, String>)
    requires
        state.wf(),
        matching matches Some(set) ==> bitmaps::slots_in(*set).subset_of(state.slots()),
        matches@.no_duplicates(),
        matches@.to_set() == result_slots(*state, matching),
        matches@.len() > 0,
        call_requires(*cancelled, ()),
    ensures
        match page {
            Ok(found) => forall|listing: Seq<u32>| #[trigger]
                snapshot::is_listing(
                    state.rows(),
                    keys.keys@,
                    result_slots(*state, matching),
                    listing,
                ) ==> shows(found, state.rows(), listing, *request),
            Err(reason) => reason@ == "Query cancelled"@ && call_ensures(*cancelled, (), true),
        },
{
    let rows = &state.entries;
    let ghost set = result_slots(*state, matching);
    assert(set.subset_of(state.slots()));
    assert(snapshot::different_rows(rows@, set)) by {
        assert forall|slot: u32| #[trigger] set.contains(slot) implies slot < rows@.len() by {
            assert(state.slots().contains(slot));
        }
        assert forall|a: u32, b: u32|
            #![trigger set.contains(a), set.contains(b)]
            set.contains(a) && set.contains(b) && rows@[a + 0].path@ == rows@[b
                + 0].path@ implies a == b by {
            assert(state.slots().contains(a) && state.slots().contains(b));
        }
    }
    let total = matches.len();
    let mut anchor_index: Option<usize> = None;
    if let Some(anchor) = &request.anchor {
        let slot = find_slot(rows, &state.live, &matches, request.anchor_slot, anchor.as_str());
        if let Some(slot) = slot {
            let inside = match matching {
                None => true,
                Some(set) => set.contains(slot),
            };
            if inside {
                match count_preceding(rows, keys, &matches, slot, cancelled) {
                    Ok(rank) => {
                        anchor_index = Some(rank);
                    },
                    Err(reason) => {
                        return Err(reason);
                    },
                }
            }
        }
        proof {
            assert forall|listing: Seq<u32>| #[trigger]
                snapshot::is_listing(rows@, keys.keys@, set, listing) implies as_rank(anchor_index)
                == path_rank(rows@, listing, anchor@) by {
                snapshot::lemma_listing_distinct(rows@, keys.keys@, listing);
                match slot {
                    Some(found) => {
                        if set.contains(found) {
                            assert(listing.to_set().contains(found));
                            assert(listing.contains(found));
                            let at = choose|i: int|
                                0 <= i < listing.len() && listing[i] == found;
                            lemma_rank(rows@, listing, anchor@, at);
                            lemma_count_permuted(
                                rows@,
                                keys.keys@,
                                matches@,
                                listing,
                                found,
                            );
                            lemma_count_is_rank(
                                rows@,
                                keys.keys@,
                                listing,
                                at,
                                listing.len() as int,
                            );
                            assert(listing.take(listing.len() as int) =~= listing);
                        } else {
                            if exists|i: int|
                                0 <= i < listing.len() && has_path(
                                    rows@,
                                    #[trigger] listing[i],
                                    anchor@,
                                ) {
                                let i = choose|i: int|
                                    0 <= i < listing.len() && has_path(
                                        rows@,
                                        #[trigger] listing[i],
                                        anchor@,
                                    );
                                assert(listing.to_set().contains(listing[i]));
                                assert(state.slots().contains(listing[i]));
                                assert(rows@[listing[i] + 0].path@ == rows@[found + 0].path@);
                            }
                        }
                    },
                    None => {
                        if exists|i: int|
                            0 <= i < listing.len() && has_path(
                                rows@,
                                #[trigger] listing[i],
                                anchor@,
                            ) {
                            let i = choose|i: int|
                                0 <= i < listing.len() && has_path(
                                    rows@,
                                    #[trigger] listing[i],
                                    anchor@,
                                );
                            assert(listing.to_set().contains(listing[i]));
                            assert(matches@.to_set().contains(listing[i]));
                            let k = choose|k: int|
                                0 <= k < matches@.len() && matches@[k] == listing[i];
                            assert(has_path(rows@, matches@[k], anchor@));
                        }
                    },
                }
            }
        }
    }
    let offset = anchored_offset(
        request.offset,
        request.limit,
        total,
        request.anchor.is_some(),
        anchor_index,
        request.anchor_delta,
    );
    let ghost all = matches@;
    let end = offset.saturating_add(request.limit);
    let prefix = match first_slots(rows, keys, matches, end, cancelled) {
        Ok(prefix) => prefix,
        Err(reason) => {
            return Err(reason);
        },
    };
    let mut slots: Vec<u32> = Vec::new();
    let mut next: usize = offset;
    if offset > prefix.len() {
        next = prefix.len();
    }
    let start = next;
    while next < prefix.len()
        invariant
            start <= next <= prefix@.len(),
            slots@ == prefix@.subrange(start as int, next as int),
        decreases prefix@.len() - next,
    {
        slots.push(prefix[next]);
        next = next + 1;
        assert(slots@ =~= prefix@.subrange(start as int, next as int));
    }
    let page = Page { slots, total, offset, anchor_index };
    proof {
        assert forall|listing: Seq<u32>| #[trigger]
            snapshot::is_listing(rows@, keys.keys@, set, listing) implies shows(
            page,
            rows@,
            listing,
            *request,
        ) by {
            snapshot::lemma_listing_distinct(rows@, keys.keys@, listing);
            lemma_count_permuted(rows@, keys.keys@, all, listing, 0);
            assert(all.len() <= usize::MAX);
            assert(prefix@ == listing.take(prefix@.len() as int));
            assert(slots@ =~= listing.subrange(
                smaller(offset as int, listing.len() as int),
                smaller(offset + request.limit, listing.len() as int),
            ));
        }
    }
    Ok(page)
}

/// The rows of a page. `matching` holds what a query matches, or is missing where the query
/// matches everything; `cached` is an order of the whole index that was made before.
pub fn query_page<C: Fn() -> bool>(
    state: &Snapshot,
    matching: Option<&RoaringBitmap>,
    cached: Option<&SlotOrder>,
    keys: &ResultOrder,
    request: &PageRequest,
    cancelled: C,
) -> (page: Result<Page, String>)
    requires
        state.wf(),
        matching matches Some(set) ==> bitmaps::slots_in(*set).subset_of(state.slots()),
        cached matches Some(order) ==> order.wf() && snapshot::is_listing(
            state.rows(),
            keys.keys@,
            state.slots(),
            order@,
        ),
        call_requires(cancelled, ()),
    ensures
        match page {
            Ok(found) => exists|listing: Seq<u32>| #[trigger]
                snapshot::is_listing(
                    state.rows(),
                    keys.keys@,
                    result_slots(*state, matching),
                    listing,
                ) && shows(found, state.rows(), listing, *request) && !cancellation::always(cancelled),
            Err(reason) => reason@ == "Query cancelled"@ && call_ensures(cancelled, (), true),
        },
{
    query_page_by(state, matching, cached, keys, request, &cancelled)
}

pub(crate) fn query_page_by<C: Fn() -> bool>(
    state: &Snapshot,
    matching: Option<&RoaringBitmap>,
    cached: Option<&SlotOrder>,
    keys: &ResultOrder,
    request: &PageRequest,
    cancelled: &C,
) -> (page: Result<Page, String>)
    requires
        state.wf(),
        matching matches Some(set) ==> bitmaps::slots_in(*set).subset_of(state.slots()),
        cached matches Some(order) ==> order.wf() && snapshot::is_listing(
            state.rows(),
            keys.keys@,
            state.slots(),
            order@,
        ),
        call_requires(*cancelled, ()),
    ensures
        match page {
            Ok(found) => exists|listing: Seq<u32>| #[trigger]
                snapshot::is_listing(
                    state.rows(),
                    keys.keys@,
                    result_slots(*state, matching),
                    listing,
                ) && shows(found, state.rows(), listing, *request) && !cancellation::always(*cancelled),
            Err(reason) => reason@ == "Query cancelled"@ && call_ensures(*cancelled, (), true),
        },
{
    let live = slot_list(&state.live);
    let matches = match matching {
        None => slot_list(&state.live),
        Some(set) => slot_list(set),
    };
    let total = matches.len();
    let everything = matching.is_none();
    let ghost rows = state.rows();
    let ghost set = result_slots(*state, matching);
    proof {
        assert(matches@.no_duplicates());
        assert(matches@.to_set() == set);
        assert(set.subset_of(state.slots()));
        assert forall|slot: u32| #[trigger] set.contains(slot) implies slot < rows.len() by {
            assert(state.slots().contains(slot));
        }
        assert(snapshot::different_rows(rows, set)) by {
            assert forall|a: u32, b: u32|
                #![trigger set.contains(a), set.contains(b)]
                set.contains(a) && set.contains(b) && rows[a + 0].path@ == rows[b
                    + 0].path@ implies a == b by {
                assert(state.slots().contains(a) && state.slots().contains(b));
            }
        }
    }
    let ghost listing = snapshot::in_row_order(rows, keys.keys@, matches@);
    proof {
        snapshot::lemma_listing_distinct(rows, keys.keys@, listing);
        lemma_count_permuted(rows, keys.keys@, matches@, listing, 0);
    }
    if total == 0 || (request.limit == 0 && request.anchor.is_none()) {
        let offset = anchored_offset(
            request.offset,
            request.limit,
            total,
            request.anchor.is_some(),
            None,
            request.anchor_delta,
        );
        if cancelled() {
            return Err("Query cancelled".to_owned());
        }
        let page = Page { slots: Vec::new(), total, offset, anchor_index: None };
        assert(page.slots@ =~= listing.subrange(
            smaller(offset as int, total as int),
            smaller(offset + request.limit, total as int),
        ));
        assert(shows(page, rows, listing, *request));
        return Ok(page);
    }
    let by_path = keys.primary_path_direction().is_some();
    let large = everything || total >= LARGE_RESULT;
    let made;
    let order: Option<&SlotOrder> = if request.limit >= LARGE_RESULT || live.len() <= LARGE_RESULT
        || (by_path && large) {
        match cached {
            Some(order) => Some(order),
            None => {
                made = match state.ordered_by(keys, cancelled) {
                    Ok(order) => order,
                    Err(reason) => {
                        return Err(reason);
                    },
                };
                Some(&made)
            },
        }
    } else if large {
        cached
    } else {
        None
    };
    let page = match order {
        Some(order) => {
            proof {
                match matching {
                    None => {
                        snapshot::law_there_is_one_listing(rows, keys.keys@, set, listing, order@);
                    },
                    Some(chosen) => {
                        law_filtering_keeps_the_order(
                            rows,
                            keys.keys@,
                            state.slots(),
                            order@,
                            set,
                        );
                        snapshot::law_there_is_one_listing(
                            rows,
                            keys.keys@,
                            set,
                            listing,
                            wanted_slots(order@, matching),
                        );
                    },
                }
            }
            page_in_order(state, matching, total, keys, order, request, cancelled)
        },
        None => page_by_selection(state, matching, matches, keys, request, cancelled),
    };
    if page.is_ok() && cancelled() {
        return Err("Query cancelled".to_owned());
    }
    page
}

/// The same rows give the same page, whichever way it is made and whatever slot is hinted at.
pub proof fn law_pages_do_not_depend_on_hints(
    first: Page,
    second: Page,
    rows: Seq<IndexedFile>,
    keys: Seq<(SortField, bool)>,
    slots: Set<u32>,
    a: Seq<u32>,
    b: Seq<u32>,
    request: PageRequest,
    other: PageRequest,
)
    requires
        snapshot::is_listing(rows, keys, slots, a),
        snapshot::is_listing(rows, keys, slots, b),
        shows(first, rows, a, request),
        shows(second, rows, b, other),
        request.offset == other.offset,
        request.limit == other.limit,
        request.anchor == other.anchor,
        request.anchor_delta == other.anchor_delta,
    ensures
        first.slots@ == second.slots@,
        first.total == second.total,
        first.offset == second.offset,
        first.anchor_index == second.anchor_index,
{
    snapshot::law_there_is_one_listing(rows, keys, slots, a, b);
}

/// Pages that follow one another make up the whole result.
pub proof fn law_pages_partition_the_result(
    first: Page,
    second: Page,
    rows: Seq<IndexedFile>,
    listing: Seq<u32>,
    request: PageRequest,
    next: PageRequest,
)
    requires
        request.anchor is None,
        next.anchor is None,
        next.offset == request.offset + request.limit,
        shows(first, rows, listing, request),
        shows(second, rows, listing, next),
    ensures
        first.slots@ + second.slots@ == listing.subrange(
            smaller(request.offset as int, listing.len() as int),
            smaller(next.offset + next.limit, listing.len() as int),
        ),
{
    assert(first.slots@ + second.slots@ =~= listing.subrange(
        smaller(request.offset as int, listing.len() as int),
        smaller(next.offset + next.limit, listing.len() as int),
    ));
}

/// A page that was anchored at a row still shows it where it was, unless it moved to the edge
/// of the result.
pub proof fn law_an_anchored_row_keeps_its_place(
    page: Page,
    rows: Seq<IndexedFile>,
    listing: Seq<u32>,
    request: PageRequest,
)
    requires
        shows(page, rows, listing, request),
        request.anchor is Some,
        page.anchor_index is Some,
        0 <= request.anchor_delta < request.limit,
        request.anchor_delta <= page.anchor_index->0,
    ensures
        page.anchor_index->0 - page.offset == request.anchor_delta,
        page.slots@[request.anchor_delta as int] == listing[page.anchor_index->0 as int],
        has_path(rows, page.slots@[request.anchor_delta as int], request.anchor->0@),
{
    let rank = page.anchor_index->0 as int;
    assert(path_rank(rows, listing, request.anchor->0@) == Some(rank));
    let chosen = choose|i: int|
        0 <= i < listing.len() && has_path(rows, #[trigger] listing[i], request.anchor->0@);
    assert(chosen == rank);
    assert(0 <= rank < listing.len());
}

} // verus!
