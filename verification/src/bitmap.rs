//! Compressed sets of row numbers: what the engine uses of `roaring`.
use roaring::RoaringBitmap;
use vstd::prelude::*;

verus! {

/// `roaring::RoaringBitmap`, a compressed set of `u32`.
#[verifier::external_type_specification]
#[verifier::external_body]
pub struct ExRoaringBitmap(RoaringBitmap);

/// The numbers that a bitmap holds.
pub uninterp spec fn rows_of(b: RoaringBitmap) -> Set<u32>;

/// `RoaringBitmap::new`: an empty bitmap.
pub assume_specification[ RoaringBitmap::new ]() -> (b: RoaringBitmap)
    ensures
        rows_of(b) == Set::<u32>::empty(),
;

/// `RoaringBitmap::insert`: adds one number, and tells whether it is new.
pub assume_specification[ RoaringBitmap::insert ](b: &mut RoaringBitmap, row: u32) -> (fresh: bool)
    ensures
        rows_of(*final(b)) == rows_of(*old(b)).insert(row),
        fresh == !rows_of(*old(b)).contains(row),
;

/// `RoaringBitmap::contains`: whether a number is in the bitmap.
pub assume_specification[ RoaringBitmap::contains ](b: &RoaringBitmap, row: u32) -> (r: bool)
    ensures
        r == rows_of(*b).contains(row),
;

/// `RoaringBitmap::len`: how many numbers the bitmap holds.
pub assume_specification[ RoaringBitmap::len ](b: &RoaringBitmap) -> (n: u64)
    ensures
        n == rows_of(*b).len(),
;

/// `RoaringBitmap::is_empty`: whether the bitmap holds no number.
pub assume_specification[ RoaringBitmap::is_empty ](b: &RoaringBitmap) -> (r: bool)
    ensures
        r == (rows_of(*b) == Set::<u32>::empty()),
;

/// `RoaringBitmap::intersection_len`: how many numbers two bitmaps share.
pub assume_specification[ RoaringBitmap::intersection_len ](
    b: &RoaringBitmap,
    other: &RoaringBitmap,
) -> (n: u64)
    ensures
        n == rows_of(*b).intersect(rows_of(*other)).len(),
;

/// `RoaringBitmap::insert_range`: adds the numbers from `lo` up to, and without, `hi`.
#[verifier::external_body]
pub(crate) fn insert_range(b: &mut RoaringBitmap, lo: u32, hi: u32)
    ensures
        rows_of(*final(b)) == rows_of(*old(b)).union(Set::new(|r: u32| lo <= r < hi)),
{
    b.insert_range(lo..hi);
}

/// `RoaringBitmap |= &RoaringBitmap`: union.
#[verifier::external_body]
pub(crate) fn unite(b: &mut RoaringBitmap, other: &RoaringBitmap)
    ensures
        rows_of(*final(b)) == rows_of(*old(b)).union(rows_of(*other)),
{
    *b |= other;
}

/// `RoaringBitmap &= RoaringBitmap`: intersection.
#[verifier::external_body]
pub(crate) fn intersect(b: &mut RoaringBitmap, other: RoaringBitmap)
    ensures
        rows_of(*final(b)) == rows_of(*old(b)).intersect(rows_of(other)),
{
    *b &= other;
}

/// `RoaringBitmap -= &RoaringBitmap`: difference.
#[verifier::external_body]
pub(crate) fn subtract(b: &mut RoaringBitmap, other: &RoaringBitmap)
    ensures
        rows_of(*final(b)) == rows_of(*old(b)).difference(rows_of(*other)),
{
    *b -= other;
}

/// Whether the numbers of a list grow from each to the next.
pub open spec fn ascending(s: Seq<u32>) -> bool {
    forall|i: int, j: int| 0 <= i < j < s.len() ==> s[i] < s[j]
}

/// `RoaringBitmap::iter`: the numbers of the bitmap, each once, in ascending order.
#[verifier::external_body]
pub(crate) fn rows(b: &RoaringBitmap) -> (v: Vec<u32>)
    ensures
        ascending(v@),
        v@.to_set() == rows_of(*b),
{
    b.iter().collect()
}

/// `RoaringBitmap::from_iter`: a bitmap of the numbers of a list.
#[verifier::external_body]
pub(crate) fn from_rows(rows: &Vec<u32>) -> (b: RoaringBitmap)
    ensures
        rows_of(b) == rows@.to_set(),
{
    rows.iter().collect()
}

} // verus!
