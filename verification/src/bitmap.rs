//! Compressed integer sets.
//!
//! [`RoaringBitmap`] holds segment-local ids and [`RoaringTreemap`] holds global ids.
//! What such a set contains is named by [`bitmap_ids`] and [`treemap_ids`]; the items
//! below state what each operation of the `roaring` crate does to it.

use vstd::prelude::*;
use roaring::RoaringBitmap;
use roaring::RoaringTreemap;

verus! {

/// The `roaring` set of `u32` values.
#[verifier::external_type_specification]
#[verifier::external_body]
pub struct ExRoaringBitmap(RoaringBitmap);

/// The `roaring` set of `u64` values.
#[verifier::external_type_specification]
#[verifier::external_body]
pub struct ExRoaringTreemap(RoaringTreemap);

/// The values a [`RoaringBitmap`] contains.
pub uninterp spec fn bitmap_ids(b: RoaringBitmap) -> Set<u32>;

/// The values a [`RoaringTreemap`] contains.
pub uninterp spec fn treemap_ids(t: RoaringTreemap) -> Set<u64>;

/// `RoaringBitmap::new` makes an empty set.
pub assume_specification[ RoaringBitmap::new ]() -> (b: RoaringBitmap)
    ensures
        bitmap_ids(b) == Set::<u32>::empty(),
;

/// `RoaringBitmap::insert` adds the value and says whether it was absent.
pub assume_specification[ RoaringBitmap::insert ](b: &mut RoaringBitmap, value: u32) -> (newly:
    bool)
    ensures
        bitmap_ids(*final(b)) == bitmap_ids(*old(b)).insert(value),
        newly == !bitmap_ids(*old(b)).contains(value),
;

/// `RoaringBitmap::contains` tests membership.
pub assume_specification[ RoaringBitmap::contains ](b: &RoaringBitmap, value: u32) -> (found:
    bool)
    ensures
        found == bitmap_ids(*b).contains(value),
;

/// `RoaringBitmap::len` counts the distinct values.
pub assume_specification[ RoaringBitmap::len ](b: &RoaringBitmap) -> (count: u64)
    ensures
        count == bitmap_ids(*b).len(),
;

/// Cloning a [`RoaringBitmap`] keeps its values.
pub assume_specification[ <RoaringBitmap as Clone>::clone ](b: &RoaringBitmap) -> (copy:
    RoaringBitmap)
    ensures
        bitmap_ids(copy) == bitmap_ids(*b),
;

/// `RoaringTreemap::new` makes an empty set.
pub assume_specification[ RoaringTreemap::new ]() -> (t: RoaringTreemap)
    ensures
        treemap_ids(t) == Set::<u64>::empty(),
;

/// `RoaringTreemap::insert` adds the value and says whether it was absent.
pub assume_specification[ RoaringTreemap::insert ](t: &mut RoaringTreemap, value: u64) -> (newly:
    bool)
    ensures
        treemap_ids(*final(t)) == treemap_ids(*old(t)).insert(value),
        newly == !treemap_ids(*old(t)).contains(value),
;

/// `RoaringTreemap::contains` tests membership.
pub assume_specification[ RoaringTreemap::contains ](t: &RoaringTreemap, value: u64) -> (found:
    bool)
    ensures
        found == treemap_ids(*t).contains(value),
;

/// `RoaringTreemap::len` counts the distinct values. It sums in `u64`, which the set of all
/// values overflows.
pub assume_specification[ RoaringTreemap::len ](t: &RoaringTreemap) -> (count: u64)
    requires
        treemap_ids(*t).len() <= u64::MAX,
    ensures
        count == treemap_ids(*t).len(),
;

/// Cloning a [`RoaringTreemap`] keeps its values.
pub assume_specification[ <RoaringTreemap as Clone>::clone ](t: &RoaringTreemap) -> (copy:
    RoaringTreemap)
    ensures
        treemap_ids(copy) == treemap_ids(*t),
;

/// `RoaringTreemap::is_empty` says whether there are no values.
#[verifier::external_body]
pub(crate) fn treemap_is_empty(t: &RoaringTreemap) -> (empty: bool)
    ensures
        empty == (treemap_ids(*t) == Set::<u64>::empty()),
{
    t.is_empty()
}

/// The `-` operator on two [`RoaringTreemap`]s is the set difference.
#[verifier::external_body]
pub(crate) fn treemap_difference(a: &RoaringTreemap, b: &RoaringTreemap) -> (rest: RoaringTreemap)
    ensures
        treemap_ids(rest) == treemap_ids(*a).difference(treemap_ids(*b)),
{
    a - b
}

/// `RoaringBitmap::iter` hands the values out in ascending order, each once.
#[verifier::external_body]
pub(crate) fn bitmap_values(b: &RoaringBitmap) -> (values: Vec<u32>)
    ensures
        forall|i: int, j: int|
            0 <= i < j < values@.len() ==> (#[trigger] values@[i]) < (#[trigger] values@[j]),
        forall|v: u32| values@.contains(v) <==> bitmap_ids(*b).contains(v),
{
    b.iter().collect()
}

/// `RoaringTreemap::iter` hands the values out in ascending order, each once.
#[verifier::external_body]
pub(crate) fn treemap_values(t: &RoaringTreemap) -> (values: Vec<u64>)
    ensures
        forall|i: int, j: int|
            0 <= i < j < values@.len() ==> (#[trigger] values@[i]) < (#[trigger] values@[j]),
        forall|v: u64| values@.contains(v) <==> treemap_ids(*t).contains(v),
{
    t.iter().collect()
}

} // verus!
