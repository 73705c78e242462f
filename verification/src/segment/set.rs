//! An immutable set of sealed segments: the unit of point-in-time snapshots.
//!
//! A reader takes a snapshot of a [`SegmentSet`] and scans it while writers publish new
//! sets; sealing and compaction produce a new set that shares all unchanged segments by
//! `Arc` (the structural sharing that makes versioning snapshots cheap).

use std::sync::Arc;

use vstd::prelude::*;

use crate::distance::Kernel;
use crate::index;
use crate::segment::SealedSegment;

verus! {

/// The rows of all segments together.
pub open spec fn rows_in<K: Kernel>(sealed: Seq<Arc<SealedSegment<K>>>) -> nat
    decreases sealed.len(),
{
    if sealed.len() == 0 {
        0
    } else {
        rows_in(sealed.drop_last()) + sealed.last().rows().len()
    }
}

/// The rows of all segments together that are not tombstoned.
pub open spec fn live_in<K: Kernel>(sealed: Seq<Arc<SealedSegment<K>>>) -> nat
    decreases sealed.len(),
{
    if sealed.len() == 0 {
        0
    } else {
        live_in(sealed.drop_last()) + sealed.last().live_count()
    }
}

/// A prefix has no more rows than the whole, and no segment more live rows than rows.
pub proof fn lemma_rows_in_prefix<K: Kernel>(sealed: Seq<Arc<SealedSegment<K>>>, n: int)
    requires
        0 <= n <= sealed.len(),
    ensures
        rows_in(sealed.take(n)) <= rows_in(sealed),
        live_in(sealed.take(n)) <= rows_in(sealed.take(n)),
    decreases sealed.len(), n,
{
    if n < sealed.len() {
        assert(sealed.take(n) =~= sealed.drop_last().take(n));
        lemma_rows_in_prefix(sealed.drop_last(), n);
    } else {
        assert(sealed.take(n) =~= sealed);
        if n > 0 {
            lemma_rows_in_prefix(sealed.drop_last(), n - 1);
            index::lemma_live_ids_len(
                sealed.last().rows().len(),
                sealed.last().index.deleted.ids(),
            );
            assert(sealed.drop_last().take(n - 1) =~= sealed.drop_last());
        }
    }
}

/// An immutable list of sealed segments.
pub struct SegmentSet<K: Kernel> {
    /// The segments, oldest first.
    pub sealed: Vec<Arc<SealedSegment<K>>>,
}

impl<K: Kernel> SegmentSet<K> {
    /// Every segment is well-formed.
    pub open spec fn wf(&self) -> bool {
        forall|i: int| 0 <= i < self.sealed@.len() ==> (#[trigger] self.sealed@[i]).wf()
    }

    /// The empty set.
    pub fn empty() -> (set: SegmentSet<K>)
        ensures
            set.wf(),
            set.sealed@ == Seq::<Arc<SealedSegment<K>>>::empty(),
    {
        SegmentSet { sealed: Vec::new() }
    }

    /// A set of the given segments.
    pub fn from_sealed(sealed: Vec<Arc<SealedSegment<K>>>) -> (set: SegmentSet<K>)
        ensures
            set.sealed == sealed,
    {
        SegmentSet { sealed }
    }

    /// The number of sealed segments.
    pub fn len(&self) -> (n: usize)
        ensures
            n == self.sealed@.len(),
    {
        self.sealed.len()
    }

    /// Whether there are no sealed segments.
    pub fn is_empty(&self) -> (r: bool)
        ensures
            r == (self.sealed@.len() == 0),
    {
        self.sealed.len() == 0
    }

    /// The sealed segments.
    pub fn iter(&self) -> (sealed: &Vec<Arc<SealedSegment<K>>>)
        ensures
            *sealed == self.sealed,
    {
        &self.sealed
    }

    /// The total number of live rows across all sealed segments.
    pub fn total_live(&self) -> (n: usize)
        requires
            self.wf(),
            rows_in(self.sealed@) <= usize::MAX,
        ensures
            n == live_in(self.sealed@),
    {
        let mut total: usize = 0;
        for i in 0..self.sealed.len()
            invariant
                self.wf(),
                rows_in(self.sealed@) <= usize::MAX,
                total == live_in(self.sealed@.take(i as int)),
        {
            proof {
                assert(self.sealed@.take(i + 1).drop_last() =~= self.sealed@.take(i as int));
                lemma_rows_in_prefix(self.sealed@, i + 1);
            }
            total = total + self.sealed[i].live_len();
        }
        assert(self.sealed@.take(self.sealed@.len() as int) =~= self.sealed@);
        total
    }

    /// The total number of rows across all sealed segments, tombstones included.
    pub fn total_rows(&self) -> (n: usize)
        requires
            self.wf(),
            rows_in(self.sealed@) <= usize::MAX,
        ensures
            n == rows_in(self.sealed@),
    {
        let mut total: usize = 0;
        for i in 0..self.sealed.len()
            invariant
                self.wf(),
                rows_in(self.sealed@) <= usize::MAX,
                total == rows_in(self.sealed@.take(i as int)),
        {
            proof {
                assert(self.sealed@.take(i + 1).drop_last() =~= self.sealed@.take(i as int));
                lemma_rows_in_prefix(self.sealed@, i + 1);
            }
            total = total + self.sealed[i].len();
        }
        assert(self.sealed@.take(self.sealed@.len() as int) =~= self.sealed@);
        total
    }

    /// A set with `segment` appended, sharing all existing segments by reference (the
    /// basis for cheap snapshots).
    pub fn with_appended(&self, segment: Arc<SealedSegment<K>>) -> (set: SegmentSet<K>)
        ensures
            set.sealed@ == self.sealed@.push(segment),
    {
        let mut set = self.clone();
        set.sealed.push(segment);
        set
    }
}

impl<K: Kernel> Default for SegmentSet<K> {
    fn default() -> (set: SegmentSet<K>)
        ensures
            set.sealed@ == Seq::<Arc<SealedSegment<K>>>::empty(),
    {
        SegmentSet::empty()
    }
}

impl<K: Kernel> Clone for SegmentSet<K> {
    fn clone(&self) -> (set: SegmentSet<K>)
        ensures
            set.sealed@ == self.sealed@,
    {
        let mut sealed: Vec<Arc<SealedSegment<K>>> = Vec::with_capacity(self.sealed.len());
        for i in 0..self.sealed.len()
            invariant
                sealed@ == self.sealed@.take(i as int),
        {
            sealed.push(self.sealed[i].clone());
            assert(sealed@ =~= self.sealed@.take(i + 1));
        }
        assert(sealed@ =~= self.sealed@);
        SegmentSet { sealed }
    }
}

} // verus!
