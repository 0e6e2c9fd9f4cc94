//! Posting lists: compressed sets of document ids.
//!
//! The sets are `roaring::RoaringBitmap` values. The verifier cannot look
//! inside them, so this module names what a bitmap holds and states, for
//! each method that the crate calls, what it does to that set. These
//! statements are taken from the documentation of the methods and are
//! believed, not proved.

use roaring::RoaringBitmap;
use vstd::prelude::*;

verus! {

#[verifier::external_type_specification]
#[verifier::external_body]
pub struct ExRoaringBitmap(RoaringBitmap);

/// The set of document ids that a bitmap holds.
pub uninterp spec fn bitmap_ids(bitmap: RoaringBitmap) -> Set<u32>;

/// `RoaringBitmap::new`: a bitmap that holds nothing.
#[verifier::external_body]
pub(crate) fn bitmap_new() -> (bitmap: RoaringBitmap)
    ensures
        bitmap_ids(bitmap) == Set::<u32>::empty(),
{
    RoaringBitmap::new()
}

/// `RoaringBitmap::insert`: adds one id and tells whether it was absent.
#[verifier::external_body]
pub(crate) fn bitmap_insert(bitmap: &mut RoaringBitmap, id: u32) -> (added: bool)
    ensures
        bitmap_ids(*final(bitmap)) == bitmap_ids(*old(bitmap)).insert(id),
        added == !bitmap_ids(*old(bitmap)).contains(id),
{
    bitmap.insert(id)
}

/// `RoaringBitmap::remove`: takes one id out and tells whether it was present.
#[verifier::external_body]
pub(crate) fn bitmap_remove(bitmap: &mut RoaringBitmap, id: u32) -> (removed: bool)
    ensures
        bitmap_ids(*final(bitmap)) == bitmap_ids(*old(bitmap)).remove(id),
        removed == bitmap_ids(*old(bitmap)).contains(id),
{
    bitmap.remove(id)
}

/// `RoaringBitmap::contains`: membership of one id.
#[verifier::external_body]
pub(crate) fn bitmap_contains(bitmap: &RoaringBitmap, id: u32) -> (found: bool)
    ensures
        found == bitmap_ids(*bitmap).contains(id),
{
    bitmap.contains(id)
}

/// `RoaringBitmap::is_empty`: whether the bitmap holds no id.
#[verifier::external_body]
pub(crate) fn bitmap_is_empty(bitmap: &RoaringBitmap) -> (empty: bool)
    ensures
        empty == (bitmap_ids(*bitmap) == Set::<u32>::empty()),
{
    bitmap.is_empty()
}

/// `RoaringBitmap::len`: the number of distinct ids held.
#[verifier::external_body]
pub(crate) fn bitmap_len(bitmap: &RoaringBitmap) -> (count: u64)
    ensures
        count == bitmap_ids(*bitmap).len(),
{
    bitmap.len()
}

/// `RoaringBitmap::clone`: a bitmap that holds the same ids.
#[verifier::external_body]
pub(crate) fn bitmap_clone(bitmap: &RoaringBitmap) -> (copy: RoaringBitmap)
    ensures
        bitmap_ids(copy) == bitmap_ids(*bitmap),
{
    bitmap.clone()
}

/// `BitOrAssign<&RoaringBitmap>`: the union of the two sets, in place.
#[verifier::external_body]
pub(crate) fn bitmap_union_with(bitmap: &mut RoaringBitmap, other: &RoaringBitmap)
    ensures
        bitmap_ids(*final(bitmap)) == bitmap_ids(*old(bitmap)).union(bitmap_ids(*other)),
{
    *bitmap |= other;
}

/// `SubAssign<&RoaringBitmap>`: the difference of the two sets, in place.
#[verifier::external_body]
pub(crate) fn bitmap_difference_with(bitmap: &mut RoaringBitmap, other: &RoaringBitmap)
    ensures
        bitmap_ids(*final(bitmap)) == bitmap_ids(*old(bitmap)).difference(bitmap_ids(*other)),
{
    *bitmap -= other;
}

/// `RoaringBitmap::iter`: the ids held, each once, in increasing order.
#[verifier::external_body]
pub(crate) fn bitmap_to_vec(bitmap: &RoaringBitmap) -> (ids: Vec<u32>)
    ensures
        forall|i: int, j: int| 0 <= i < j < ids@.len() ==> ids@[i] < ids@[j],
        forall|id: u32| ids@.contains(id) <==> bitmap_ids(*bitmap).contains(id),
{
    bitmap.iter().collect()
}

/// Every set of document ids is finite, as there are finitely many ids.
pub proof fn lemma_ids_finite(ids: Set<u32>)
    ensures
        ids.finite(),
{
    broadcast use vstd::set_lib::full_set_properties;

    assert(Set::<u32>::full().finite());
    vstd::set_lib::lemma_set_subset_finite(Set::<u32>::full(), ids);
}

} // verus!
