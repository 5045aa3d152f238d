//! An immutable state of the index, and its rows in order.
use crate::bitmaps;
use crate::cancellation;
use crate::bitmaps::slot_list;
use crate::comparator;
use crate::files::IndexedFile;
use crate::result_order;
use crate::result_order::{ResultOrder, SortField};
use crate::slot_order::SlotOrder;
use crate::slot_sort::sort_borrowed;
use crate::text_order;
use core::cmp::Ordering;
use roaring::RoaringBitmap;
use vstd::prelude::*;

verus! {

/// Rows in slots, of which some are live. A slot that is not live holds a row that is gone.
pub struct Snapshot {
    pub entries: Vec<IndexedFile>,
    pub live: RoaringBitmap,
    pub generation: u64,
    pub content_revision: u64,
}

impl Snapshot {
    pub open spec fn rows(&self) -> Seq<IndexedFile> {
        self.entries@
    }

    /// The live slots.
    pub open spec fn slots(&self) -> Set<u32> {
        bitmaps::slots_in(self.live)
    }

    /// Live slots hold rows, and no two live rows have the same path.
    pub open spec fn wf(&self) -> bool {
        different_rows(self.rows(), self.slots())
    }
}

/// Slots in strictly ascending order of their rows.
pub open spec fn listed_in_order(
    rows: Seq<IndexedFile>,
    keys: Seq<(SortField, bool)>,
    listing: Seq<u32>,
) -> bool {
    forall|i: int, j: int|
        0 <= i < j < listing.len() ==> result_order::comes_before(
            rows,
            keys,
            #[trigger] listing[i],
            #[trigger] listing[j],
        )
}

/// All of some slots, in order.
pub open spec fn is_listing(
    rows: Seq<IndexedFile>,
    keys: Seq<(SortField, bool)>,
    slots: Set<u32>,
    listing: Seq<u32>,
) -> bool {
    listing.to_set() == slots && listed_in_order(rows, keys, listing)
}

/// Slots whose rows have different paths.
pub open spec fn different_rows(rows: Seq<IndexedFile>, slots: Set<u32>) -> bool {
    &&& forall|slot: u32| #[trigger] slots.contains(slot) ==> slot < rows.len()
    &&& forall|a: u32, b: u32|
        #![trigger slots.contains(a), slots.contains(b)]
        slots.contains(a) && slots.contains(b) && rows[a + 0].path@ == rows[b + 0].path@ ==> a == b
}

/// There is one order of some slots.
pub proof fn law_there_is_one_listing(
    rows: Seq<IndexedFile>,
    keys: Seq<(SortField, bool)>,
    slots: Set<u32>,
    a: Seq<u32>,
    b: Seq<u32>,
)
    requires
        is_listing(rows, keys, slots, a),
        is_listing(rows, keys, slots, b),
    ensures
        a == b,
    decreases a.len(),
{
    assert forall|t: u32| a.contains(t) == #[trigger] b.contains(t) by {
        assert(a.to_set().contains(t) == a.contains(t));
        assert(b.to_set().contains(t) == b.contains(t));
    }
    if a.len() == 0 {
        if b.len() > 0 {
            assert(b.contains(b[0]));
        }
        assert(a =~= b);
    } else if b.len() == 0 {
        assert(a.contains(a[0]));
        assert(b.contains(a[0]));
    } else {
        let (x, y) = (a.last(), b.last());
        assert(a.contains(x) && b.contains(y));
        assert(b.contains(x) && a.contains(y));
        let i = choose|i: int| 0 <= i < b.len() && b[i] == x;
        let j = choose|j: int| 0 <= j < a.len() && a[j] == y;
        result_order::lemma_before_is_strict(rows, keys, x, y);
        if x != y {
            assert(result_order::comes_before(rows, keys, b[i], b[b.len() - 1]));
            assert(result_order::comes_before(rows, keys, a[j], a[a.len() - 1]));
        }
        let (p, q) = (a.drop_last(), b.drop_last());
        assert forall|t: u32| #[trigger] p.to_set().contains(t) == q.to_set().contains(t) by {
            result_order::lemma_before_is_strict(rows, keys, t, x);
            if p.contains(t) {
                let k = choose|k: int| 0 <= k < p.len() && p[k] == t;
                assert(result_order::comes_before(rows, keys, a[k], a[a.len() - 1]));
                assert(a[k] == t);
                assert(b.contains(t));
                let m = choose|m: int| 0 <= m < b.len() && b[m] == t;
                assert(q[m] == t);
            }
            if q.contains(t) {
                let k = choose|k: int| 0 <= k < q.len() && q[k] == t;
                assert(result_order::comes_before(rows, keys, b[k], b[b.len() - 1]));
                assert(b[k] == t);
                assert(b.contains(t));
                assert(a.contains(t));
                let m = choose|m: int| 0 <= m < a.len() && a[m] == t;
                assert(p[m] == t);
            }
        }
        assert(p.to_set() =~= q.to_set());
        law_there_is_one_listing(rows, keys, p.to_set(), p, q);
        assert(a =~= p.push(x));
        assert(b =~= q.push(y));
    }
}

/// Ordered slots with one more put in its place.
proof fn placed(
    rows: Seq<IndexedFile>,
    keys: Seq<(SortField, bool)>,
    sorted: Seq<u32>,
    item: u32,
) -> (more: Seq<u32>)
    requires
        listed_in_order(rows, keys, sorted),
        forall|i: int|
            0 <= i < sorted.len() ==> result_order::comes_before(
                rows,
                keys,
                #[trigger] sorted[i],
                item,
            ) || result_order::comes_before(rows, keys, item, sorted[i]),
    ensures
        listed_in_order(rows, keys, more),
        forall|t: u32| #[trigger] more.contains(t) == (sorted.contains(t) || t == item),
    decreases sorted.len(),
{
    if sorted.len() == 0 {
        let more = seq![item];
        assert forall|t: u32| #[trigger]
            more.contains(t) == (sorted.contains(t) || t == item) by {
            if t == item {
                assert(more[0] == t);
            }
        }
        more
    } else {
        let (init, last) = (sorted.drop_last(), sorted.last());
        assert(sorted[sorted.len() - 1] == last);
        assert(sorted.contains(last));
        result_order::lemma_before_is_strict(rows, keys, last, item);
        if result_order::comes_before(rows, keys, last, item) {
            let more = sorted.push(item);
            assert forall|i: int, j: int|
                0 <= i < j < more.len() implies result_order::comes_before(
                rows,
                keys,
                #[trigger] more[i],
                #[trigger] more[j],
            ) by {
                if j == sorted.len() && i < init.len() {
                    assert(result_order::comes_before(
                        rows,
                        keys,
                        sorted[i],
                        sorted[sorted.len() - 1],
                    ));
                    result_order::lemma_before_is_transitive(rows, keys, sorted[i], last, item);
                }
            }
            assert forall|t: u32| #[trigger]
                more.contains(t) == (sorted.contains(t) || t == item) by {
                if sorted.contains(t) {
                    let k = choose|k: int| 0 <= k < sorted.len() && sorted[k] == t;
                    assert(more[k] == t);
                }
                if t == item {
                    assert(more[sorted.len() as int] == t);
                }
            }
            more
        } else {
            assert forall|i: int| 0 <= i < init.len() implies result_order::comes_before(
                rows,
                keys,
                #[trigger] init[i],
                item,
            ) || result_order::comes_before(rows, keys, item, init[i]) by {
                assert(init[i] == sorted[i]);
            }
            let inner = placed(rows, keys, init, item);
            let more = inner.push(last);
            assert forall|i: int, j: int|
                0 <= i < j < more.len() implies result_order::comes_before(
                rows,
                keys,
                #[trigger] more[i],
                #[trigger] more[j],
            ) by {
                if j == inner.len() {
                    assert(inner.contains(inner[i]));
                    if inner[i] != item {
                        let k = choose|k: int| 0 <= k < init.len() && init[k] == inner[i];
                        assert(result_order::comes_before(
                            rows,
                            keys,
                            sorted[k],
                            sorted[sorted.len() - 1],
                        ));
                    }
                }
            }
            assert forall|t: u32| #[trigger]
                more.contains(t) == (sorted.contains(t) || t == item) by {
                if inner.contains(t) {
                    let k = choose|k: int| 0 <= k < inner.len() && inner[k] == t;
                    assert(more[k] == t);
                }
                assert(more[inner.len() as int] == last);
                if init.contains(t) {
                    let k = choose|k: int| 0 <= k < init.len() && init[k] == t;
                    assert(sorted[k] == t);
                    assert(inner.contains(t));
                }
                if sorted.contains(t) {
                    let k = choose|k: int| 0 <= k < sorted.len() && sorted[k] == t;
                    if k < init.len() {
                        assert(init[k] == t);
                        assert(inner.contains(t));
                    }
                }
                if more.contains(t) {
                    let k = choose|k: int| 0 <= k < more.len() && more[k] == t;
                    if k < inner.len() {
                        assert(inner[k] == t);
                        assert(inner.contains(t));
                    }
                }
                if t == item {
                    assert(inner.contains(t));
                }
            }
            more
        }
    }
}

/// Any slots of different rows can be put in order.
pub proof fn in_row_order(
    rows: Seq<IndexedFile>,
    keys: Seq<(SortField, bool)>,
    slots: Seq<u32>,
) -> (listing: Seq<u32>)
    requires
        different_rows(rows, slots.to_set()),
    ensures
        is_listing(rows, keys, slots.to_set(), listing),
    decreases slots.len(),
{
    if slots.len() == 0 {
        assert(slots.to_set() =~= slots.to_set());
        slots
    } else {
        let (init, item) = (slots.drop_last(), slots.last());
        assert(slots[slots.len() - 1] == item);
        assert(slots.to_set().contains(item));
        assert forall|t: u32| #[trigger] init.to_set().contains(t) implies slots.to_set().contains(
            t,
        ) by {
            let k = choose|k: int| 0 <= k < init.len() && init[k] == t;
            assert(slots[k] == t);
        }
        let before = in_row_order(rows, keys, init);
        assert forall|t: u32| before.contains(t) == #[trigger] init.contains(t) by {
            assert(before.to_set().contains(t) == before.contains(t));
            assert(init.to_set().contains(t) == init.contains(t));
        }
        let listing = if init.contains(item) {
            before
        } else {
            assert forall|i: int| 0 <= i < before.len() implies result_order::comes_before(
                rows,
                keys,
                #[trigger] before[i],
                item,
            ) || result_order::comes_before(rows, keys, item, before[i]) by {
                assert(before.contains(before[i]));
                assert(init.contains(before[i]));
                assert(init.to_set().contains(before[i]));
                result_order::lemma_before_is_strict(rows, keys, before[i], item);
            }
            placed(rows, keys, before, item)
        };
        assert forall|t: u32| #[trigger]
            listing.to_set().contains(t) == slots.to_set().contains(t) by {
            assert(before.contains(t) == init.contains(t));
            if init.contains(t) {
                let k = choose|k: int| 0 <= k < init.len() && init[k] == t;
                assert(slots[k] == t);
            }
            if slots.contains(t) {
                let k = choose|k: int| 0 <= k < slots.len() && slots[k] == t;
                if k < init.len() {
                    assert(init[k] == t);
                }
            }
            if !init.contains(item) {
                assert(listing.contains(t) == (before.contains(t) || t == item));
            }
        }
        assert(listing.to_set() =~= slots.to_set());
        listing
    }
}

/// A listing names each slot once.
pub proof fn lemma_listing_distinct(
    rows: Seq<IndexedFile>,
    keys: Seq<(SortField, bool)>,
    listing: Seq<u32>,
)
    requires
        listed_in_order(rows, keys, listing),
    ensures
        listing.no_duplicates(),
{
    assert forall|i: int, j: int|
        0 <= i < listing.len() && 0 <= j < listing.len() && i != j implies listing[i]
        != listing[j] by {
        let (low, high) = if i < j {
            (i, j)
        } else {
            (j, i)
        };
        assert(result_order::comes_before(rows, keys, listing[low], listing[high]));
        result_order::lemma_before_is_strict(rows, keys, listing[low], listing[high]);
    }
}

/// Slots that a comparison of rows puts in order, each once, are listed in order.
proof fn lemma_sorted_is_listing<F: Fn(u32, u32) -> Ordering>(
    rows: Seq<IndexedFile>,
    keys: Seq<(SortField, bool)>,
    compare: F,
    listing: Seq<u32>,
)
    requires
        forall|a: u32, b: u32, o: Ordering| #[trigger]
            call_ensures(compare, (a, b), o) ==> o == result_order::slot_order_in(rows, keys, a, b),
        comparator::in_order(compare, listing),
        listing.no_duplicates(),
        different_rows(rows, listing.to_set()),
    ensures
        listed_in_order(rows, keys, listing),
{
    let order = |a: u32, b: u32| result_order::slot_order_in(rows, keys, a, b);
    result_order::law_slots_are_totally_ordered(rows, keys, order);
    assert(comparator::fits(compare, order));
    assert forall|i: int, j: int|
        0 <= i < j < listing.len() implies result_order::comes_before(
        rows,
        keys,
        #[trigger] listing[i],
        #[trigger] listing[j],
    ) by {
        let (a, b) = (listing[i], listing[j]);
        assert(comparator::at_most(compare, a, b));
        assert(order(a, b) != Ordering::Greater);
        assert(listing.to_set().contains(a) && listing.to_set().contains(b));
        result_order::lemma_before_is_strict(rows, keys, a, b);
        assert((order(b, a) == Ordering::Less) == (order(a, b) == Ordering::Greater));
    }
}

impl Snapshot {
    /// The live slots in an order.
    pub fn ordered<C: Fn() -> bool>(&self, keys: &ResultOrder, cancelled: C) -> (order: Result<
        SlotOrder,
        String,
    >)
        requires
            self.wf(),
            call_requires(cancelled, ()),
        ensures
            match order {
                Ok(sorted) => sorted.wf() && is_listing(
                    self.rows(),
                    keys.keys@,
                    self.slots(),
                    sorted@,
                ) && (cancellation::always(cancelled) ==> self.slots() == Set::<u32>::empty()),
                Err(reason) => reason@ == "Query cancelled"@ && call_ensures(cancelled, (), true),
            },
    {
        self.ordered_by(keys, &cancelled)
    }

    pub(crate) fn ordered_by<C: Fn() -> bool>(&self, keys: &ResultOrder, cancelled: &C) -> (order: Result<
        SlotOrder,
        String,
    >)
        requires
            self.wf(),
            call_requires(*cancelled, ()),
        ensures
            match order {
                Ok(sorted) => sorted.wf() && is_listing(
                    self.rows(),
                    keys.keys@,
                    self.slots(),
                    sorted@,
                ) && (cancellation::always(*cancelled) ==> self.slots() == Set::<u32>::empty()),
                Err(reason) => reason@ == "Query cancelled"@ && call_ensures(*cancelled, (), true),
            },
    {
        let mut slots = slot_list(&self.live);
        let rows = &self.entries;
        let compare = |a: u32, b: u32| -> (o: Ordering)
            ensures
                o == result_order::slot_order_in(rows@, keys.keys@, a, b),
            { keys.compare_slots(rows, a, b) };
        let ghost given = slots@;
        proof {
            let order = |a: u32, b: u32| result_order::slot_order_in(rows@, keys.keys@, a, b);
            result_order::law_slots_are_totally_ordered(rows@, keys.keys@, order);
            assert(comparator::fits(compare, order));
        }
        let result = sort_borrowed(&mut slots, &compare, cancelled);
        match result {
            Err(reason) => Err(reason),
            Ok(_) => {
                proof {
                    lemma_permuted(given, slots@);
                    assert(given.no_duplicates());
                    assert(slots@.to_set() == self.slots());
                    assert(given.len() == 0 ==> given.to_set() =~= Set::<u32>::empty());
                    lemma_sorted_is_listing(rows@, keys.keys@, compare, slots@);
                }
                Ok(SlotOrder::from_values(slots))
            },
        }
    }
}

/// What a permutation keeps.
pub proof fn lemma_permuted(a: Seq<u32>, b: Seq<u32>)
    requires
        a.to_multiset() == b.to_multiset(),
    ensures
        a.to_set() == b.to_set(),
        a.len() == b.len(),
        a.no_duplicates() ==> b.no_duplicates(),
{
    a.to_multiset_ensures();
    b.to_multiset_ensures();
    assert forall|t: u32| #[trigger] a.to_set().contains(t) == b.to_set().contains(t) by {
        assert(a.contains(t) == (a.to_multiset().count(t) > 0));
        assert(b.contains(t) == (b.to_multiset().count(t) > 0));
    }
    assert(a.to_set() =~= b.to_set());
    if a.no_duplicates() {
        a.lemma_multiset_has_no_duplicates();
        assert forall|x: u32| b.to_multiset().contains(x) implies #[trigger] b.to_multiset().count(x)
            == 1 by {}
        b.lemma_multiset_has_no_duplicates_conv();
    }
}

/// The paths of some slots.
pub open spec fn paths_of(rows: Seq<IndexedFile>, slots: Seq<u32>) -> Seq<Seq<char>> {
    slots.map_values(|slot: u32| rows[slot + 0].path@)
}

/// Some slots in the order of the bytes of their paths.
pub(crate) fn sorted_by_path<C: Fn() -> bool>(
    rows: &Vec<IndexedFile>,
    slots: Vec<u32>,
    cancelled: &C,
) -> (result: Result<Vec<u32>, String>)
    requires
        slots@.no_duplicates(),
        different_rows(rows@, slots@.to_set()),
        call_requires(*cancelled, ()),
    ensures
        match result {
            Ok(sorted) => {
                &&& sorted@.to_set() == slots@.to_set()
                &&& sorted@.len() == slots@.len()
                &&& sorted@.no_duplicates()
                &&& text_order::ascending(paths_of(rows@, sorted@))
            },
            Err(reason) => reason@ == "Query cancelled"@ && call_ensures(*cancelled, (), true),
        },
{
    let keys = ResultOrder { keys: Vec::new() };
    let mut sorted = slots;
    let ghost given = sorted@;
    let compare = |a: u32, b: u32| -> (o: Ordering)
        ensures
            o == result_order::slot_order_in(rows@, keys.keys@, a, b),
        { keys.compare_slots(rows, a, b) };
    proof {
        let order = |a: u32, b: u32| result_order::slot_order_in(rows@, keys.keys@, a, b);
        result_order::law_slots_are_totally_ordered(rows@, keys.keys@, order);
        assert(comparator::fits(compare, order));
    }
    let result = sort_borrowed(&mut sorted, &compare, cancelled);
    match result {
        Err(reason) => Err(reason),
        Ok(_) => {
            proof {
                lemma_permuted(given, sorted@);
                lemma_sorted_is_listing(rows@, keys.keys@, compare, sorted@);
                assert(keys.keys@ =~= Seq::empty());
                let list = paths_of(rows@, sorted@);
                assert forall|i: int, j: int|
                    0 <= i < j < list.len() implies text_order::text_before(
                    #[trigger] list[i],
                    #[trigger] list[j],
                ) by {
                    let (a, b) = (sorted@[i], sorted@[j]);
                    assert(sorted@.to_set().contains(a) && sorted@.to_set().contains(b));
                    assert(result_order::comes_before(rows@, keys.keys@, a, b));
                    assert(a != b);
                    result_order::lemma_ordered_by_path(rows@, a, b);
                }
            }
            Ok(sorted)
        },
    }
}

} // verus!
