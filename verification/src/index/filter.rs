//! The filtered-search seam.
//!
//! Metadata filtering is expressed to the index layer through one narrow trait,
//! [`FilterContext`]: a per-point predicate plus a cardinality estimate. The index does
//! not know how a filter is evaluated.

use std::sync::Arc;

use vstd::prelude::*;
use roaring::RoaringBitmap;

use crate::bitmap;
use crate::id::PointId;

verus! {

/// An estimate of how many points a filter admits within a segment:
/// `min <= expected <= max`, and `max` must never under-count.
#[derive(Debug, Clone, Copy, PartialEq, Eq, Structural)]
pub struct CardinalityEstimate {
    /// A lower bound on the number of admitted points.
    pub min: usize,
    /// The expected (best-guess) number of admitted points.
    pub expected: usize,
    /// An upper bound on the number of admitted points.
    pub max: usize,
}

impl CardinalityEstimate {
    /// An estimate that is known exactly.
    pub fn exact(n: usize) -> (estimate: CardinalityEstimate)
        ensures
            estimate == (CardinalityEstimate { min: n, expected: n, max: n }),
    {
        CardinalityEstimate { min: n, expected: n, max: n }
    }
}

/// A predicate over segment-local point ids, with a cardinality estimate.
pub trait FilterContext: Send + Sync {
    /// Whether `id` passes the filter.
    spec fn admits(&self, id: PointId) -> bool;

    /// Whether `id` passes the filter.
    fn matches(&self, id: PointId) -> (r: bool)
        ensures
            r == self.admits(id),
    ;

    /// An estimate of how many of the segment's points pass the filter.
    fn estimate_cardinality(&self) -> (estimate: CardinalityEstimate);
}

/// Whether an optional filter admits `id`: no filter admits everything.
pub open spec fn passes(filter: Option<&dyn FilterContext>, id: PointId) -> bool {
    match filter {
        Some(f) => f.admits(id),
        None => true,
    }
}

/// Whether an optional filter admits `id`.
pub fn check(filter: Option<&dyn FilterContext>, id: PointId) -> (r: bool)
    ensures
        r == passes(filter, id),
{
    match filter {
        Some(f) => f.matches(id),
        None => true,
    }
}

/// A filter that admits every point. Equivalent to passing no filter.
#[derive(Debug, Clone, Copy, PartialEq, Eq, Structural)]
pub struct AllowAll {
    /// The number of points in the segment (so the estimate is exact).
    pub total: usize,
}

impl FilterContext for AllowAll {
    open spec fn admits(&self, id: PointId) -> bool {
        true
    }

    fn matches(&self, id: PointId) -> (r: bool) {
        true
    }

    fn estimate_cardinality(&self) -> (estimate: CardinalityEstimate)
        ensures
            estimate == (CardinalityEstimate {
                min: self.total,
                expected: self.total,
                max: self.total,
            }),
    {
        CardinalityEstimate::exact(self.total)
    }
}

/// A filter backed by a precomputed bitmap of admitted ids.
#[derive(Debug, Clone)]
pub struct BitmapFilter {
    /// The admitted ids.
    pub allowed: Arc<RoaringBitmap>,
}

impl BitmapFilter {
    /// Builds a filter admitting exactly the ids in `allowed`.
    pub fn new(allowed: Arc<RoaringBitmap>) -> (filter: BitmapFilter)
        ensures
            filter.allowed == allowed,
    {
        BitmapFilter { allowed }
    }

    /// Builds a filter admitting exactly the listed ids.
    pub fn from_ids(ids: &[PointId]) -> (filter: BitmapFilter)
        ensures
            forall|id: PointId| filter.admits(id) <==> ids@.contains(id),
            bitmap::bitmap_ids(*filter.allowed).finite(),
    {
        let mut allowed = RoaringBitmap::new();
        for i in 0..ids.len()
            invariant
                bitmap::bitmap_ids(allowed).finite(),
                forall|raw: u32| #[trigger]
                    bitmap::bitmap_ids(allowed).contains(raw) <==> ids@.take(i as int).contains(
                        PointId(raw),
                    ),
        {
            let _ = allowed.insert(ids[i].get());
            proof {
                let prefix = ids@.take(i as int);
                let longer = ids@.take(i + 1);
                assert(longer =~= prefix.push(ids@[i as int]));
                assert forall|raw: u32| #[trigger]
                    bitmap::bitmap_ids(allowed).contains(raw) <==> longer.contains(PointId(raw)) by {
                    let id = PointId(raw);
                    if prefix.contains(id) {
                        assert(longer[prefix.index_of(id)] == id);
                    }
                    if raw == ids@[i as int].0 {
                        assert(longer[i as int] == id);
                    }
                    if longer.contains(id) {
                        let j = longer.index_of(id);
                        if j < i {
                            assert(prefix[j] == id);
                        }
                    }
                }
            }
        }
        assert(ids@.take(ids@.len() as int) =~= ids@);
        let filter = BitmapFilter { allowed: Arc::new(allowed) };
        assert forall|id: PointId| filter.admits(id) <==> ids@.contains(id) by {
            assert(PointId(id.0) == id);
        }
        filter
    }
}

impl FilterContext for BitmapFilter {
    open spec fn admits(&self, id: PointId) -> bool {
        bitmap::bitmap_ids(*self.allowed).contains(id.0)
    }

    fn matches(&self, id: PointId) -> (r: bool) {
        self.allowed.contains(id.get())
    }

    fn estimate_cardinality(&self) -> (estimate: CardinalityEstimate)
        ensures
            ({
                let n = bitmap::bitmap_ids(*self.allowed).len();
                n <= usize::MAX ==> estimate.min == n && estimate.expected == n && estimate.max == n
            }),
    {
        CardinalityEstimate::exact(self.allowed.len() as usize)
    }
}

} // verus!
