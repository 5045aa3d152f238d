//! Storage diagnostics: how many bytes each kind of data holds, and who holds them. An
//! allocation counts once, however many snapshots share it.
use crate::bitmaps;
use crate::text;
use crate::text::same_text;
use crate::text_order;
use crate::text_order::sort_distinct;
use roaring::RoaringBitmap;
use std::collections::HashMap;
use vstd::prelude::*;

verus! {

/// Who is looked at: the current snapshot, an earlier one that is still held, or one that waits
/// to be reclaimed.
#[derive(Clone, Copy, Debug, PartialEq, Eq, Structural)]
pub enum Owner {
    Current,
    Historical,
    Retired,
}

/// An allocation and who was seen to hold it.
#[derive(Debug)]
pub struct Allocation {
    pub category: String,
    pub identity: usize,
    pub bytes: usize,
    pub current: bool,
    pub historical: bool,
    pub retired: bool,
}

/// The mathematical value of an `Allocation`.
#[verifier::ext_equal]
pub struct AllocationView {
    pub category: Seq<char>,
    pub identity: usize,
    pub bytes: usize,
    pub current: bool,
    pub historical: bool,
    pub retired: bool,
}

impl View for Allocation {
    type V = AllocationView;

    open spec fn view(&self) -> AllocationView {
        AllocationView {
            category: self.category@,
            identity: self.identity,
            bytes: self.bytes,
            current: self.current,
            historical: self.historical,
            retired: self.retired,
        }
    }
}

/// The allocations of one category by who holds them, in bytes.
#[derive(Debug, PartialEq, Eq)]
pub struct CategoryReport {
    pub category: String,
    pub current_only: usize,
    pub historical_only: usize,
    pub reclamation_only: usize,
    pub shared: usize,
    pub reclamation_retained: usize,
    pub total: usize,
}

/// What was seen.
#[derive(Debug)]
pub struct Inventory {
    allocations: Vec<Allocation>,
    places: HashMap<usize, Vec<usize>>,
    owner: Option<Owner>,
}

/// An allocation that is held once more.
pub open spec fn held_by(seen: AllocationView, owner: Owner) -> AllocationView {
    match owner {
        Owner::Current => AllocationView { current: true, ..seen },
        Owner::Historical => AllocationView { historical: true, ..seen },
        Owner::Retired => AllocationView { retired: true, ..seen },
    }
}

/// An allocation that was not seen before.
pub open spec fn first_seen(category: Seq<char>, identity: usize, bytes: usize) -> AllocationView {
    AllocationView { category, identity, bytes, current: false, historical: false, retired: false }
}

/// The bytes of allocations that meet a condition.
pub open spec fn sum_where(
    seen: Seq<AllocationView>,
    counts: spec_fn(AllocationView) -> bool,
) -> int
    decreases seen.len(),
{
    if seen.len() == 0 {
        0
    } else {
        sum_where(seen.drop_last(), counts) + if counts(seen.last()) {
            seen.last().bytes as int
        } else {
            0
        }
    }
}

pub open spec fn holders(seen: AllocationView) -> int {
    (if seen.current {
        1int
    } else {
        0
    }) + (if seen.historical {
        1int
    } else {
        0
    }) + (if seen.retired {
        1int
    } else {
        0
    })
}

/// The report on a category.
pub open spec fn reports(
    report: CategoryReport,
    seen: Seq<AllocationView>,
    category: Seq<char>,
) -> bool {
    &&& report.category@ == category
    &&& report.current_only == sum_where(
        seen,
        |a: AllocationView| a.category == category && holders(a) == 1 && a.current,
    )
    &&& report.historical_only == sum_where(
        seen,
        |a: AllocationView| a.category == category && holders(a) == 1 && a.historical,
    )
    &&& report.reclamation_only == sum_where(
        seen,
        |a: AllocationView| a.category == category && holders(a) == 1 && a.retired,
    )
    &&& report.shared == sum_where(
        seen,
        |a: AllocationView| a.category == category && holders(a) > 1,
    )
    &&& report.reclamation_retained == sum_where(
        seen,
        |a: AllocationView| a.category == category && a.retired,
    )
    &&& report.total == sum_where(seen, |a: AllocationView| a.category == category)
}

/// The views of some allocations.
pub open spec fn views(allocations: Seq<Allocation>) -> Seq<AllocationView> {
    allocations.map_values(|a: Allocation| a@)
}

/// The categories of some allocations.
pub open spec fn categories(seen: Seq<AllocationView>) -> Seq<Seq<char>> {
    seen.map_values(|a: AllocationView| a.category)
}

/// Where an allocation was seen, or nothing.
pub open spec fn place_of(seen: Seq<AllocationView>, category: Seq<char>, identity: usize) -> Option<
    int,
>
    decreases seen.len(),
{
    if seen.len() == 0 {
        None
    } else if seen.last().identity == identity && seen.last().category == category {
        Some(seen.len() - 1)
    } else {
        place_of(seen.drop_last(), category, identity)
    }
}

proof fn lemma_place(seen: Seq<AllocationView>, category: Seq<char>, identity: usize, at: int)
    requires
        forall|i: int, j: int|
            0 <= i < j < seen.len() ==> #[trigger] seen[i].identity != #[trigger] seen[j].identity
                || seen[i].category != seen[j].category,
        0 <= at < seen.len(),
        seen[at].identity == identity,
        seen[at].category == category,
    ensures
        place_of(seen, category, identity) == Some(at),
    decreases seen.len(),
{
    if at < seen.len() - 1 {
        assert(seen.drop_last()[at] == seen[at]);
        lemma_place(seen.drop_last(), category, identity, at);
    }
}

proof fn lemma_no_place(seen: Seq<AllocationView>, category: Seq<char>, identity: usize)
    requires
        forall|i: int|
            0 <= i < seen.len() ==> #[trigger] seen[i].identity != identity || seen[i].category
                != category,
    ensures
        place_of(seen, category, identity) is None,
    decreases seen.len(),
{
    if seen.len() > 0 {
        assert(seen[seen.len() - 1].identity != identity || seen.last().category != category);
        assert forall|i: int| 0 <= i < seen.len() - 1 implies #[trigger] seen.drop_last()[i].identity
            != identity || seen.drop_last()[i].category != category by {
            assert(seen[i].identity != identity || seen[i].category != category);
        }
        lemma_no_place(seen.drop_last(), category, identity);
    }
}

/// What was seen once an allocation is looked at.
pub open spec fn recorded(
    seen: Seq<AllocationView>,
    category: Seq<char>,
    identity: usize,
    bytes: usize,
    owner: Owner,
) -> Seq<AllocationView> {
    if bytes == 0 {
        seen
    } else {
        match place_of(seen, category, identity) {
            Some(at) => seen.update(at, held_by(seen[at], owner)),
            None => seen.push(held_by(first_seen(category, identity, bytes), owner)),
        }
    }
}

proof fn lemma_sum_parts(
    seen: Seq<AllocationView>,
    part: spec_fn(AllocationView) -> bool,
    whole: spec_fn(AllocationView) -> bool,
)
    requires
        forall|a: AllocationView| #[trigger] part(a) ==> whole(a),
    ensures
        0 <= sum_where(seen, part) <= sum_where(seen, whole),
    decreases seen.len(),
{
    if seen.len() > 0 {
        lemma_sum_parts(seen.drop_last(), part, whole);
    }
}

impl Inventory {
    /// What was seen, in the order in which it was first seen.
    pub closed spec fn seen(&self) -> Seq<AllocationView> {
        views(self.allocations@)
    }

    /// Whose holdings are looked at.
    pub closed spec fn looks_at(&self) -> Option<Owner> {
        self.owner
    }

    /// Nothing was seen twice, and every allocation has a holder.
    pub closed spec fn wf(&self) -> bool {
        &&& vstd::std_specs::hash::obeys_key_model::<usize>()
        &&& forall|i: int, j: int|
            0 <= i < j < self.allocations@.len() ==> #[trigger] self.allocations@[i].identity
                != #[trigger] self.allocations@[j].identity || self.allocations@[i].category@
                != self.allocations@[j].category@
        &&& forall|i: int|
            0 <= i < self.allocations@.len() ==> self.places@.contains_key(
                #[trigger] self.allocations@[i].identity,
            ) && self.places@[self.allocations@[i].identity]@.contains(i as usize)
        &&& forall|identity: usize, k: int|
            self.places@.contains_key(identity) && 0 <= k < self.places@[identity]@.len()
                ==> #[trigger] self.places@[identity]@[k] < self.allocations@.len()
                && self.allocations@[self.places@[identity]@[k] as int].identity == identity
        &&& forall|i: int|
            0 <= i < self.allocations@.len() ==> holders(#[trigger] self.allocations@[i]@) > 0
    }

    /// Nothing was seen yet.
    pub fn new() -> (inventory: Self)
        ensures
            inventory.wf(),
            inventory.seen() == Seq::<AllocationView>::empty(),
            inventory.looks_at() is None,
    {
        broadcast use vstd::std_specs::hash::group_hash_axioms;

        let inventory = Inventory { allocations: Vec::new(), places: HashMap::new(), owner: None };
        assert(inventory.seen() =~= Seq::<AllocationView>::empty());
        inventory
    }

    /// Look at the current snapshot, or at an earlier one.
    pub fn owner(&mut self, current: bool)
        requires
            old(self).wf(),
        ensures
            final(self).wf(),
            final(self).seen() == old(self).seen(),
            final(self).looks_at() == Some(
                if current {
                    Owner::Current
                } else {
                    Owner::Historical
                },
            ),
    {
        self.owner = Some(
            if current {
                Owner::Current
            } else {
                Owner::Historical
            },
        );
    }

    /// Look at a snapshot that waits to be reclaimed.
    pub fn retired_owner(&mut self)
        requires
            old(self).wf(),
        ensures
            final(self).wf(),
            final(self).seen() == old(self).seen(),
            final(self).looks_at() == Some(Owner::Retired),
    {
        self.owner = Some(Owner::Retired);
    }

    /// Where an allocation was seen.
    fn find(&self, category: &str, identity: usize) -> (at: Option<usize>)
        requires
            self.wf(),
        ensures
            match at {
                Some(place) => place_of(self.seen(), category@, identity) == Some(place as int)
                    && place < self.allocations@.len() && self.allocations@[place as int].identity
                    == identity && self.allocations@[place as int].category@ == category@,
                None => place_of(self.seen(), category@, identity) is None && forall|i: int|
                    0 <= i < self.allocations@.len() ==> #[trigger] self.allocations@[i].identity
                        != identity || self.allocations@[i].category@ != category@,
            },
    {
        broadcast use vstd::std_specs::hash::group_hash_axioms;

        let ghost seen = self.seen();
        proof {
            assert forall|i: int| 0 <= i < seen.len() implies #[trigger] seen[i]
                == self.allocations@[i]@ by {}
            assert forall|i: int, j: int| 0 <= i < j < seen.len() implies #[trigger] seen[i].identity
                != #[trigger] seen[j].identity || seen[i].category != seen[j].category by {
                assert(self.allocations@[i].identity != self.allocations@[j].identity
                    || self.allocations@[i].category@ != self.allocations@[j].category@);
            }
        }
        let places = match self.places.get(&identity) {
            Some(places) => places,
            None => {
                proof {
                    assert forall|i: int|
                        0 <= i < seen.len() implies #[trigger] seen[i].identity != identity
                        || seen[i].category != category@ by {
                        assert(self.places@.contains_key(self.allocations@[i].identity));
                    }
                    lemma_no_place(seen, category@, identity);
                    assert forall|i: int|
                        0 <= i
                            < self.allocations@.len() implies #[trigger] self.allocations@[i].identity
                        != identity by {
                        assert(seen[i] == self.allocations@[i]@);
                    }
                }
                return None;
            },
        };
        assert(*places == self.places@[identity]);
        let ghost count = self.allocations.len();
        let mut next: usize = 0;
        while next < places.len()
            invariant
                next <= places@.len(),
                self.wf(),
                self.places@.contains_key(identity),
                *places == self.places@[identity],
                seen == self.seen(),
                seen.len() == self.allocations@.len(),
                forall|i: int| 0 <= i < seen.len() ==> #[trigger] seen[i] == self.allocations@[i]@,
                forall|i: int, j: int|
                    0 <= i < j < seen.len() ==> #[trigger] seen[i].identity
                        != #[trigger] seen[j].identity || seen[i].category != seen[j].category,
                forall|k: int|
                    0 <= k < next ==> self.allocations@[#[trigger] places@[k] as int].category@
                        != category@,
            decreases places@.len() - next,
        {
            let at = places[next];
            assert(self.places@[identity]@[next as int] == at);
            assert(at < self.allocations@.len());
            if same_text(self.allocations[at].category.as_str(), category) {
                proof {
                    assert(seen[at as int] == self.allocations@[at as int]@);
                    lemma_place(seen, category@, identity, at as int);
                }
                return Some(at);
            }
            next = next + 1;
        }
        proof {
            assert forall|i: int| 0 <= i < self.allocations@.len() implies #[trigger] self.allocations@[i].identity
                != identity || self.allocations@[i].category@ != category@ by {
                if self.allocations@[i].identity == identity {
                    assert(i < count && i as usize == i);
                    assert(places@.contains(i as usize));
                    let k = choose|k: int| 0 <= k < places@.len() && places@[k] == i as usize;
                    assert(self.allocations@[places@[k] as int].category@ != category@);
                }
            }
            assert forall|i: int| 0 <= i < seen.len() implies #[trigger] seen[i].identity != identity
                || seen[i].category != category@ by {
                assert(self.allocations@[i].identity != identity
                    || self.allocations@[i].category@ != category@);
            }
            lemma_no_place(seen, category@, identity);
        }
        None
    }

    /// An allocation of whose holdings are looked at. An allocation without bytes is left out; one
    /// that was seen before keeps its size and is held once more.
    pub fn record(&mut self, category: &str, identity: usize, bytes: usize)
        requires
            old(self).wf(),
            old(self).looks_at() is Some,
        ensures
            final(self).wf(),
            final(self).seen() == recorded(
                old(self).seen(),
                category@,
                identity,
                bytes,
                old(self).looks_at()->0,
            ),
            final(self).looks_at() == old(self).looks_at(),
    {
        broadcast use vstd::std_specs::hash::group_hash_axioms;

        if bytes == 0 {
            return;
        }
        let owner = match self.owner {
            Some(owner) => owner,
            None => {
                return;
            },
        };
        let (current, historical, retired) = (
            owner == Owner::Current,
            owner == Owner::Historical,
            owner == Owner::Retired,
        );
        let ghost first = *self;
        match self.find(category, identity) {
            Some(at) => {
                let kept = &self.allocations[at];
                let more = Allocation {
                    category: kept.category.as_str().to_owned(),
                    identity,
                    bytes: kept.bytes,
                    current: kept.current || current,
                    historical: kept.historical || historical,
                    retired: kept.retired || retired,
                };
                assert(more@ == held_by(first.allocations@[at as int]@, owner));
                self.allocations.set(at, more);
                proof {
                    assert forall|i: int| 0 <= i < self.allocations@.len() implies #[trigger] self.allocations@[i].identity
                        == first.allocations@[i].identity && self.allocations@[i].category@
                        == first.allocations@[i].category@ && holders(self.allocations@[i]@) > 0 by {
                        assert(holders(first.allocations@[i]@) > 0);
                    }
                    assert(self.places@ == first.places@);
                    assert(self.seen() =~= first.seen().update(
                        at as int,
                        held_by(first.seen()[at as int], owner),
                    ));
                }
            },
            None => {
                let at = self.allocations.len();
                let fresh = Allocation {
                    category: category.to_owned(),
                    identity,
                    bytes,
                    current,
                    historical,
                    retired,
                };
                assert(fresh@ == held_by(first_seen(category@, identity, bytes), owner));
                let mut places: Vec<usize> = match self.places.remove(&identity) {
                    Some(places) => places,
                    None => Vec::new(),
                };
                let ghost before = places@;
                places.push(at);
                self.places.insert(identity, places);
                self.allocations.push(fresh);
                proof {
                    assert(self.places@ =~= first.places@.insert(identity, places));
                    assert(places@ == before.push(at));
                    assert forall|i: int| 0 <= i < self.allocations@.len() implies self.places@.contains_key(
                        #[trigger] self.allocations@[i].identity,
                    ) && self.places@[self.allocations@[i].identity]@.contains(i as usize) by {
                        if i == at {
                            assert(places@[before.len() as int] == at);
                        } else {
                            assert(self.allocations@[i] == first.allocations@[i]);
                            let own = first.allocations@[i].identity;
                            assert(first.places@[own]@.contains(i as usize));
                            if own == identity {
                                let k = choose|k: int|
                                    0 <= k < before.len() && before[k] == i as usize;
                                assert(places@[k] == i as usize);
                            }
                        }
                    }
                    assert forall|own: usize, k: int|
                        self.places@.contains_key(own) && 0 <= k
                            < self.places@[own]@.len() implies #[trigger] self.places@[own]@[k]
                        < self.allocations@.len() && self.allocations@[self.places@[own]@[k] as int].identity
                        == own by {
                        if own == identity {
                            if k < before.len() {
                                assert(first.places@[own]@[k] == before[k]);
                                assert(before[k] < first.allocations@.len());
                            }
                        } else {
                            assert(first.places@[own]@[k] < first.allocations@.len());
                        }
                    }
                    assert forall|i: int, j: int| 0 <= i < j < self.allocations@.len() implies #[trigger] self.allocations@[i].identity
                        != #[trigger] self.allocations@[j].identity
                        || self.allocations@[i].category@ != self.allocations@[j].category@ by {
                        assert(self.allocations@[i] == first.allocations@[i]);
                        if j < at {
                            assert(self.allocations@[j] == first.allocations@[j]);
                        }
                    }
                    assert(self.seen() =~= first.seen().push(fresh@));
                }
            },
        }
    }

    /// The live payload of a bitmap, whose allocation is known by `identity`. A bitmap of all
    /// 32-bit integers is not counted: its layout is not described.
    pub fn bitmap(&mut self, bitmap: &RoaringBitmap, identity: usize) -> (counted: bool)
        requires
            old(self).wf(),
            old(self).looks_at() is Some,
        ensures
            final(self).wf(),
            final(self).looks_at() == old(self).looks_at(),
            counted == (bitmaps::slots_in(*bitmap).len() <= u32::MAX),
            final(self).seen() == (if counted {
                recorded(
                    old(self).seen(),
                    "bitmap_live_payload_bytes"@,
                    identity,
                    payload_of(layout_of(*bitmap)),
                    old(self).looks_at()->0,
                )
            } else {
                old(self).seen()
            }),
    {
        if bitmap.len() > u32::MAX as u64 {
            return false;
        }
        let (array_values, bitsets, run_bytes) = container_counts(bitmap);
        let bytes = bitmap_payload(array_values, bitsets, run_bytes);
        self.record("bitmap_live_payload_bytes", identity, bytes);
        true
    }

    /// What each category holds, in the order of the categories' names.
    pub fn report(&self) -> (report: Vec<CategoryReport>)
        requires
            self.wf(),
            sum_where(self.seen(), |a: AllocationView| true) <= usize::MAX,
        ensures
            report@.len() == text_order::sorted_distinct(categories(self.seen())).len(),
            forall|i: int|
                0 <= i < report@.len() ==> reports(
                    #[trigger] report@[i],
                    self.seen(),
                    text_order::sorted_distinct(categories(self.seen()))[i],
                ),
    {
        let ghost seen = self.seen();
        let mut names: Vec<String> = Vec::new();
        let mut next: usize = 0;
        while next < self.allocations.len()
            invariant
                next <= self.allocations@.len(),
                seen == self.seen(),
                text::texts(names@) == categories(seen).take(next as int),
            decreases self.allocations@.len() - next,
        {
            let ghost before = text::texts(names@);
            names.push(self.allocations[next].category.as_str().to_owned());
            assert(text::texts(names@) =~= before.push(seen[next as int].category));
            assert(categories(seen).take(next + 1) =~= before.push(categories(seen)[next as int]));
            next = next + 1;
        }
        assert(categories(seen).take(next as int) =~= categories(seen));
        let names = sort_distinct(names);
        let ghost sorted = text_order::sorted_distinct(categories(seen));
        let mut report: Vec<CategoryReport> = Vec::new();
        let mut next: usize = 0;
        while next < names.len()
            invariant
                next <= names@.len(),
                self.wf(),
                seen == self.seen(),
                sorted == text::texts(names@),
                sum_where(seen, |a: AllocationView| true) <= usize::MAX,
                report@.len() == next,
                forall|i: int| 0 <= i < next ==> reports(#[trigger] report@[i], seen, sorted[i]),
            decreases names@.len() - next,
        {
            let one = self.category_report(names[next].as_str());
            assert(sorted[next as int] == names@[next as int]@);
            report.push(one);
            next = next + 1;
        }
        report
    }

    fn category_report(&self, category: &str) -> (report: CategoryReport)
        requires
            self.wf(),
            sum_where(self.seen(), |a: AllocationView| true) <= usize::MAX,
        ensures
            reports(report, self.seen(), category@),
    {
        let ghost seen = self.seen();
        let ghost all = |a: AllocationView| true;
        let ghost whole = |a: AllocationView| a.category == category@;
        let ghost retained_by = |a: AllocationView| a.category == category@ && a.retired;
        let ghost current_one = |a: AllocationView|
            a.category == category@ && holders(a) == 1 && a.current;
        let ghost historical_one = |a: AllocationView|
            a.category == category@ && holders(a) == 1 && a.historical;
        let ghost retired_one = |a: AllocationView|
            a.category == category@ && holders(a) == 1 && a.retired;
        let ghost several = |a: AllocationView| a.category == category@ && holders(a) > 1;
        let mut report = CategoryReport {
            category: category.to_owned(),
            current_only: 0,
            historical_only: 0,
            reclamation_only: 0,
            shared: 0,
            reclamation_retained: 0,
            total: 0,
        };
        let mut next: usize = 0;
        while next < self.allocations.len()
            invariant
                next <= self.allocations@.len(),
                self.wf(),
                seen == self.seen(),
                seen.len() == self.allocations@.len(),
                all == (|a: AllocationView| true),
                whole == (|a: AllocationView| a.category == category@),
                retained_by == (|a: AllocationView| a.category == category@ && a.retired),
                current_one == (|a: AllocationView|
                    a.category == category@ && holders(a) == 1 && a.current),
                historical_one == (|a: AllocationView|
                    a.category == category@ && holders(a) == 1 && a.historical),
                retired_one == (|a: AllocationView|
                    a.category == category@ && holders(a) == 1 && a.retired),
                several == (|a: AllocationView| a.category == category@ && holders(a) > 1),
                sum_where(seen, all) <= usize::MAX,
                report.category@ == category@,
                report.current_only == sum_where(seen.take(next as int), current_one),
                report.historical_only == sum_where(seen.take(next as int), historical_one),
                report.reclamation_only == sum_where(seen.take(next as int), retired_one),
                report.shared == sum_where(seen.take(next as int), several),
                report.reclamation_retained == sum_where(seen.take(next as int), retained_by),
                report.total == sum_where(seen.take(next as int), whole),
            decreases self.allocations@.len() - next,
        {
            let one = &self.allocations[next];
            let ghost part = seen.take(next + 1);
            proof {
                assert(part.drop_last() =~= seen.take(next as int));
                assert(part.last() == seen[next as int]);
                assert(seen[next as int] == one@);
                assert(holders(one@) > 0);
                lemma_sum_grows(seen, all, next + 1);
                lemma_sum_parts(part, whole, all);
                lemma_sum_parts(part, retained_by, whole);
                lemma_sum_parts(part, current_one, whole);
                lemma_sum_parts(part, historical_one, whole);
                lemma_sum_parts(part, retired_one, whole);
                lemma_sum_parts(part, several, whole);
            }
            if same_text(one.category.as_str(), category) {
                let bytes = one.bytes;
                if one.current && !one.historical && !one.retired {
                    report.current_only = report.current_only + bytes;
                } else if one.historical && !one.current && !one.retired {
                    report.historical_only = report.historical_only + bytes;
                } else if one.retired && !one.current && !one.historical {
                    report.reclamation_only = report.reclamation_only + bytes;
                } else {
                    report.shared = report.shared + bytes;
                }
                if one.retired {
                    report.reclamation_retained = report.reclamation_retained + bytes;
                }
                report.total = report.total + bytes;
            }
            next = next + 1;
        }
        assert(seen.take(next as int) =~= seen);
        report
    }
}

proof fn lemma_sum_grows(
    seen: Seq<AllocationView>,
    counts: spec_fn(AllocationView) -> bool,
    end: int,
)
    requires
        0 <= end <= seen.len(),
    ensures
        sum_where(seen.take(end), counts) <= sum_where(seen, counts),
    decreases seen.len(),
{
    if end < seen.len() {
        lemma_sum_grows(seen.drop_last(), counts, end);
        assert(seen.drop_last().take(end) =~= seen.take(end));
    } else {
        assert(seen.take(end) =~= seen);
    }
}

/// What `RoaringBitmap::statistics` says of a bitmap's containers: the values in arrays, the
/// bitsets, and the bytes of runs.
pub uninterp spec fn layout_of(bitmap: roaring::RoaringBitmap) -> (u32, u32, u64);

/// `RoaringBitmap::statistics`: the values in array containers, the bitset containers, and the
/// bytes of run containers. It counts the values of run containers in 32 bits, so that the
/// bitmap of all integers is left out.
#[verifier::external_body]
fn container_counts(bitmap: &RoaringBitmap) -> (counts: (u32, u32, u64))
    requires
        bitmaps::slots_in(*bitmap).len() <= u32::MAX,
    ensures
        counts == layout_of(*bitmap),
{
    let statistics = bitmap.statistics();
    (
        statistics.n_values_array_containers,
        statistics.n_bitset_containers,
        statistics.n_bytes_run_containers,
    )
}

/// The bytes of a bitmap's contents: two for a value in an array, a bit for each of the 65536
/// values of a bitset, and the runs as they are. More than an address space has counts as all
/// of it.
pub open spec fn payload_of(layout: (u32, u32, u64)) -> usize {
    let total = layout.0 * 2 + layout.1 * 8192 + layout.2;
    if total <= usize::MAX {
        total as usize
    } else {
        usize::MAX
    }
}

/// The bytes of a bitmap's contents.
pub fn bitmap_payload(array_values: u32, bitsets: u32, run_bytes: u64) -> (bytes: usize)
    ensures
        bytes == payload_of((array_values, bitsets, run_bytes)),
{
    let total: u128 = array_values as u128 * 2 + bitsets as u128 * 8192 + run_bytes as u128;
    if total <= usize::MAX as u128 {
        total as usize
    } else {
        usize::MAX
    }
}

/// What a category holds in all is what each holder holds alone and what several share, and
/// what waits to be reclaimed is part of it.
pub proof fn law_a_category_adds_up(
    inventory: Inventory,
    report: CategoryReport,
    category: Seq<char>,
)
    requires
        inventory.wf(),
        reports(report, inventory.seen(), category),
    ensures
        report.total == report.current_only + report.historical_only + report.reclamation_only
            + report.shared,
        report.reclamation_only <= report.reclamation_retained <= report.total,
{
    let seen = inventory.seen();
    assert forall|i: int| 0 <= i < seen.len() implies holders(#[trigger] seen[i]) > 0 by {
        assert(holders(inventory.allocations@[i]@) > 0);
    }
    lemma_adds_up(seen, category);
    lemma_sum_parts(
        seen,
        |a: AllocationView| a.category == category && holders(a) == 1 && a.retired,
        |a: AllocationView| a.category == category && a.retired,
    );
    lemma_sum_parts(
        seen,
        |a: AllocationView| a.category == category && a.retired,
        |a: AllocationView| a.category == category,
    );
}

proof fn lemma_adds_up(seen: Seq<AllocationView>, category: Seq<char>)
    requires
        forall|i: int| 0 <= i < seen.len() ==> holders(#[trigger] seen[i]) > 0,
    ensures
        sum_where(seen, |a: AllocationView| a.category == category) == sum_where(
            seen,
            |a: AllocationView| a.category == category && holders(a) == 1 && a.current,
        ) + sum_where(
            seen,
            |a: AllocationView| a.category == category && holders(a) == 1 && a.historical,
        ) + sum_where(
            seen,
            |a: AllocationView| a.category == category && holders(a) == 1 && a.retired,
        ) + sum_where(seen, |a: AllocationView| a.category == category && holders(a) > 1),
    decreases seen.len(),
{
    if seen.len() > 0 {
        assert forall|i: int| 0 <= i < seen.len() - 1 implies holders(
            #[trigger] seen.drop_last()[i],
        ) > 0 by {
            assert(holders(seen[i]) > 0);
        }
        lemma_adds_up(seen.drop_last(), category);
        assert(holders(seen[seen.len() - 1]) > 0);
    }
}

/// An allocation that is looked at again is not counted again.
pub proof fn law_the_same_allocation_counts_once(
    seen: Seq<AllocationView>,
    category: Seq<char>,
    identity: usize,
    bytes: usize,
    owner: Owner,
)
    requires
        bytes > 0,
    ensures
        ({
            let once = recorded(seen, category, identity, bytes, owner);
            recorded(once, category, identity, bytes, owner) == once
        }),
{
    let once = recorded(seen, category, identity, bytes, owner);
    match place_of(seen, category, identity) {
        Some(at) => {
            lemma_found(seen, category, identity);
            lemma_kept_place(seen, once, category, identity);
            assert(once.update(at, held_by(once[at], owner)) =~= once);
        },
        None => {
            assert(once.last().identity == identity && once.last().category == category);
            assert(once.update(once.len() - 1, held_by(once.last(), owner)) =~= once);
        },
    }
}

proof fn lemma_found(seen: Seq<AllocationView>, category: Seq<char>, identity: usize)
    ensures
        place_of(seen, category, identity) matches Some(at) ==> 0 <= at < seen.len()
            && seen[at].identity == identity && seen[at].category == category,
    decreases seen.len(),
{
    if seen.len() > 0 {
        lemma_found(seen.drop_last(), category, identity);
    }
}

proof fn lemma_kept_place(
    before: Seq<AllocationView>,
    after: Seq<AllocationView>,
    category: Seq<char>,
    identity: usize,
)
    requires
        before.len() == after.len(),
        forall|i: int|
            0 <= i < before.len() ==> (#[trigger] before[i]).identity == after[i].identity
                && before[i].category == after[i].category,
    ensures
        place_of(before, category, identity) == place_of(after, category, identity),
    decreases before.len(),
{
    if before.len() > 0 {
        assert(before[before.len() - 1].identity == after[before.len() - 1].identity);
        assert forall|i: int| 0 <= i < before.len() - 1 implies (
        #[trigger] before.drop_last()[i]).identity == after.drop_last()[i].identity
            && before.drop_last()[i].category == after.drop_last()[i].category by {
            assert(before[i].identity == after[i].identity);
        }
        lemma_kept_place(before.drop_last(), after.drop_last(), category, identity);
    }
}

} // verus!
