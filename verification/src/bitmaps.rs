//! Compressed sets of slots and of row ids.
use roaring::{RoaringBitmap, RoaringTreemap};
use vstd::prelude::*;

verus! {

/// `roaring`'s set of 32-bit integers.
#[verifier::external_type_specification]
#[verifier::external_body]
pub struct ExRoaringBitmap(roaring::RoaringBitmap);

/// `roaring`'s set of 64-bit integers.
#[verifier::external_type_specification]
#[verifier::external_body]
pub struct ExRoaringTreemap(roaring::RoaringTreemap);

/// What a bitmap holds.
pub uninterp spec fn slots_in(bitmap: roaring::RoaringBitmap) -> Set<u32>;

/// What a treemap holds.
pub uninterp spec fn ids_in(treemap: roaring::RoaringTreemap) -> Set<u64>;

/// `RoaringBitmap::new` holds nothing.
pub assume_specification[ roaring::RoaringBitmap::new ]() -> (bitmap: RoaringBitmap)
    ensures
        slots_in(bitmap) == Set::<u32>::empty(),
;

/// `RoaringBitmap::insert` adds one integer and says whether it is new.
pub assume_specification[ roaring::RoaringBitmap::insert ](
    bitmap: &mut RoaringBitmap,
    value: u32,
) -> (added: bool)
    ensures
        slots_in(*final(bitmap)) == slots_in(*old(bitmap)).insert(value),
        added == !slots_in(*old(bitmap)).contains(value),
;

/// `RoaringBitmap::remove` removes one integer and says whether it was there.
pub assume_specification[ roaring::RoaringBitmap::remove ](
    bitmap: &mut RoaringBitmap,
    value: u32,
) -> (removed: bool)
    ensures
        slots_in(*final(bitmap)) == slots_in(*old(bitmap)).remove(value),
        removed == slots_in(*old(bitmap)).contains(value),
;

/// `RoaringBitmap::contains` says whether an integer is in the set.
pub assume_specification[ roaring::RoaringBitmap::contains ](
    bitmap: &RoaringBitmap,
    value: u32,
) -> (found: bool)
    ensures
        found == slots_in(*bitmap).contains(value),
;

/// `RoaringBitmap::is_empty` says whether the set holds nothing.
pub assume_specification[ roaring::RoaringBitmap::is_empty ](bitmap: &RoaringBitmap) -> (empty:
    bool)
    ensures
        empty == (slots_in(*bitmap) == Set::<u32>::empty()),
;

/// `RoaringBitmap::len` counts the integers in the set.
pub assume_specification[ roaring::RoaringBitmap::len ](bitmap: &RoaringBitmap) -> (count: u64)
    ensures
        count == slots_in(*bitmap).len(),
;

/// `RoaringBitmap::iter`, collected: the integers in ascending order.
#[verifier::external_body]
pub(crate) fn slot_list(bitmap: &RoaringBitmap) -> (slots: Vec<u32>)
    ensures
        slots@.to_set() == slots_in(*bitmap),
        forall|i: int, j: int|
            0 <= i < j < slots@.len() ==> #[trigger] slots@[i] < #[trigger] slots@[j],
{
    bitmap.iter().collect()
}

/// `RoaringBitmap`'s `|=`.
#[verifier::external_body]
pub(crate) fn unite(bitmap: &mut RoaringBitmap, other: &RoaringBitmap)
    ensures
        slots_in(*final(bitmap)) == slots_in(*old(bitmap)).union(slots_in(*other)),
{
    *bitmap |= other;
}

/// `RoaringBitmap`'s `&=`.
#[verifier::external_body]
pub(crate) fn intersect(bitmap: &mut RoaringBitmap, other: &RoaringBitmap)
    ensures
        slots_in(*final(bitmap)) == slots_in(*old(bitmap)).intersect(slots_in(*other)),
{
    *bitmap &= other;
}

/// `RoaringBitmap`'s `-=`.
#[verifier::external_body]
pub(crate) fn subtract(bitmap: &mut RoaringBitmap, other: &RoaringBitmap)
    ensures
        slots_in(*final(bitmap)) == slots_in(*old(bitmap)).difference(slots_in(*other)),
{
    *bitmap -= other;
}

/// `RoaringBitmap::clone`.
#[verifier::external_body]
pub(crate) fn copy_bitmap(bitmap: &RoaringBitmap) -> (copy: RoaringBitmap)
    ensures
        slots_in(copy) == slots_in(*bitmap),
{
    bitmap.clone()
}

/// `RoaringTreemap::new` holds nothing.
pub assume_specification[ roaring::RoaringTreemap::new ]() -> (treemap: RoaringTreemap)
    ensures
        ids_in(treemap) == Set::<u64>::empty(),
;

/// `RoaringTreemap::insert` adds one integer and says whether it is new.
pub assume_specification[ roaring::RoaringTreemap::insert ](
    treemap: &mut RoaringTreemap,
    value: u64,
) -> (added: bool)
    ensures
        ids_in(*final(treemap)) == ids_in(*old(treemap)).insert(value),
        added == !ids_in(*old(treemap)).contains(value),
;

/// `RoaringTreemap::contains` says whether an integer is in the set.
pub assume_specification[ roaring::RoaringTreemap::contains ](
    treemap: &RoaringTreemap,
    value: u64,
) -> (found: bool)
    ensures
        found == ids_in(*treemap).contains(value),
;

/// `RoaringTreemap::is_empty` says whether the set holds nothing.
pub assume_specification[ roaring::RoaringTreemap::is_empty ](treemap: &RoaringTreemap) -> (empty:
    bool)
    ensures
        empty == (ids_in(*treemap) == Set::<u64>::empty()),
;

} // verus!
