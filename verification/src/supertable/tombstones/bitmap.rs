//! Sets of row numbers.

use roaring::RoaringBitmap;
use vstd::prelude::*;

verus! {

/// `roaring::RoaringBitmap`, carried as it is.
#[verifier::external_type_specification]
#[verifier::external_body]
pub struct ExRoaringBitmap(RoaringBitmap);

/// The numbers that a bitmap holds.
pub uninterp spec fn bitmap_contents(bitmap: RoaringBitmap) -> Set<u32>;

/// Is `ids` the numbers of `set`, ascending?
pub open spec fn lists_ascending(set: Set<u32>, ids: Seq<u32>) -> bool {
    &&& forall|i: int, j: int|
        0 <= i < j < ids.len() ==> (#[trigger] ids[i]) < (#[trigger] ids[j])
    &&& forall|i: int| 0 <= i < ids.len() ==> set.contains(#[trigger] ids[i])
    &&& forall|id: u32| #[trigger] set.contains(id) ==> ids.contains(id)
}

/// A bitmap without numbers. Calls `RoaringBitmap::new`.
#[verifier::external_body]
pub(crate) fn empty_bitmap() -> (bitmap: RoaringBitmap)
    ensures
        bitmap_contents(bitmap) == Set::<u32>::empty(),
{
    RoaringBitmap::new()
}

/// A bitmap of the given numbers. Calls `RoaringBitmap::from_iter`.
#[verifier::external_body]
pub(crate) fn bitmap_of(ids: &[u32]) -> (bitmap: RoaringBitmap)
    ensures
        bitmap_contents(bitmap) == ids@.to_set(),
{
    ids.iter().copied().collect()
}

/// Does a bitmap hold no number? Calls `RoaringBitmap::is_empty`.
#[verifier::external_body]
pub(crate) fn bitmap_is_empty(bitmap: &RoaringBitmap) -> (res: bool)
    ensures
        res == (bitmap_contents(*bitmap) == Set::<u32>::empty()),
{
    bitmap.is_empty()
}

/// Does a bitmap hold the number? Calls `RoaringBitmap::contains`.
#[verifier::external_body]
pub(crate) fn bitmap_contains(bitmap: &RoaringBitmap, id: u32) -> (res: bool)
    ensures
        res == bitmap_contents(*bitmap).contains(id),
{
    bitmap.contains(id)
}

/// Puts a number into a bitmap. Calls `RoaringBitmap::insert`.
#[verifier::external_body]
pub(crate) fn bitmap_insert(bitmap: &mut RoaringBitmap, id: u32)
    ensures
        bitmap_contents(*final(bitmap)) == bitmap_contents(*old(bitmap)).insert(id),
{
    bitmap.insert(id);
}

/// Takes the numbers of `other` out of a bitmap. Calls
/// `SubAssign::sub_assign`.
#[verifier::external_body]
pub(crate) fn bitmap_subtract(bitmap: &mut RoaringBitmap, other: &RoaringBitmap)
    ensures
        bitmap_contents(*final(bitmap)) == bitmap_contents(*old(bitmap)).difference(
            bitmap_contents(*other),
        ),
{
    *bitmap -= other;
}

/// The numbers of a bitmap, ascending. Calls `RoaringBitmap::iter`.
#[verifier::external_body]
pub(crate) fn bitmap_ids(bitmap: &RoaringBitmap) -> (ids: Vec<u32>)
    ensures
        lists_ascending(bitmap_contents(*bitmap), ids@),
{
    bitmap.iter().collect()
}

} // verus!
