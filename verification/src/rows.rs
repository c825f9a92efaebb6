//! Sets of row numbers, kept in compressed bitmaps.
use roaring::RoaringBitmap;
use vstd::prelude::*;

verus! {

#[verifier::external_type_specification]
#[verifier::external_body]
pub struct ExRoaringBitmap(RoaringBitmap);

/// The rows that a bitmap holds.
pub uninterp spec fn rows_of(bitmap: RoaringBitmap) -> Set<u32>;

/// `RoaringBitmap::new`: a bitmap without rows.
#[verifier::external_body]
pub(crate) fn no_rows() -> (bitmap: RoaringBitmap)
    ensures
        rows_of(bitmap) == Set::<u32>::empty(),
{
    RoaringBitmap::new()
}

/// `RoaringBitmap::insert`: adds a row to those held, and says whether it was
/// absent.
#[verifier::external_body]
pub(crate) fn add_row(bitmap: &mut RoaringBitmap, row: u32) -> (added: bool)
    ensures
        rows_of(*final(bitmap)) == rows_of(*old(bitmap)).insert(row),
        added == !rows_of(*old(bitmap)).contains(row),
{
    bitmap.insert(row)
}

/// `RoaringBitmap`'s `|=`: adds the rows that another bitmap holds.
#[verifier::external_body]
pub(crate) fn add_rows(bitmap: &mut RoaringBitmap, other: &RoaringBitmap)
    ensures
        rows_of(*final(bitmap)) == rows_of(*old(bitmap)).union(rows_of(*other)),
{
    *bitmap |= other;
}

/// `RoaringBitmap`'s `&=`: keeps the rows that another bitmap holds too.
#[verifier::external_body]
pub(crate) fn keep_rows(bitmap: &mut RoaringBitmap, other: &RoaringBitmap)
    ensures
        rows_of(*final(bitmap)) == rows_of(*old(bitmap)).intersect(rows_of(*other)),
{
    *bitmap &= other;
}

/// `RoaringBitmap`'s `-=`: takes out the rows that another bitmap holds.
#[verifier::external_body]
pub(crate) fn drop_rows(bitmap: &mut RoaringBitmap, other: &RoaringBitmap)
    ensures
        rows_of(*final(bitmap)) == rows_of(*old(bitmap)).difference(rows_of(*other)),
{
    *bitmap -= other;
}

/// `RoaringBitmap::len`: the number of rows, which is finite.
#[verifier::external_body]
pub(crate) fn count_rows(bitmap: &RoaringBitmap) -> (count: u64)
    ensures
        count == rows_of(*bitmap).len(),
{
    bitmap.len()
}

/// `RoaringBitmap::intersection_len`: the number of rows that both hold.
#[verifier::external_body]
pub(crate) fn count_shared_rows(bitmap: &RoaringBitmap, other: &RoaringBitmap) -> (count: u64)
    ensures
        count == rows_of(*bitmap).intersect(rows_of(*other)).len(),
{
    bitmap.intersection_len(other)
}

/// Rows in strictly increasing order.
pub open spec fn rows_increasing(rows: Seq<u32>) -> bool {
    forall|i: int, j: int| 0 <= i < j < rows.len() ==> rows[i] < rows[j]
}

/// `RoaringBitmap::iter`: the rows that a bitmap holds, in increasing order.
#[verifier::external_body]
pub(crate) fn list_rows(bitmap: &RoaringBitmap) -> (rows: Vec<u32>)
    ensures
        rows@.to_set() == rows_of(*bitmap),
        rows_increasing(rows@),
{
    bitmap.iter().collect()
}

}
