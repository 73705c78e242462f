//! Version manifests: the "commit" object.
//!
//! A [`Manifest`] is an immutable record of a committed version: its place in the history
//! (`version` + `parent`), the **full** list of sealed segments it references (a complete
//! snapshot, not a delta), and the deletion vector frozen at commit time.

use vstd::prelude::*;

use crate::idset;
use crate::version::deletion::DeletionVector;

verus! {

/// A reference to a sealed segment within a version, with the global-id range it spans.
#[derive(Debug, Clone, Copy, PartialEq, Eq, Structural)]
pub struct SegmentRef {
    /// The segment id.
    pub id: u64,
    /// Inclusive lower bound of this segment's global-id range.
    pub id_lo: u64,
    /// Inclusive upper bound of this segment's global-id range.
    pub id_hi: u64,
    /// The number of rows in the segment.
    pub count: u64,
}

/// An immutable committed version.
pub struct Manifest {
    /// Monotonic version id.
    pub version: u64,
    /// The version this was committed on top of (`None` for the first).
    pub parent: Option<u64>,
    /// Wall-clock commit time (unix millis); informational.
    pub created_at_ms: u64,
    /// What caused the commit (e.g. "manual", "restore").
    pub trigger: String,
    /// Optional human message.
    pub message: Option<String>,
    /// The full set of sealed segments this version references.
    pub segments: Vec<SegmentRef>,
    /// Tombstones frozen at commit time.
    pub deletions: DeletionVector,
}

/// The ids of segment references, in order.
pub open spec fn ids_of(segments: Seq<SegmentRef>) -> Seq<u64> {
    Seq::new(segments.len(), |i: int| segments[i].id)
}

/// The rows of all referenced segments together.
pub open spec fn total_rows(segments: Seq<SegmentRef>) -> nat
    decreases segments.len(),
{
    if segments.len() == 0 {
        0
    } else {
        total_rows(segments.drop_last()) + segments.last().count as nat
    }
}

/// A prefix has no more rows than the whole.
pub proof fn lemma_total_rows_prefix(segments: Seq<SegmentRef>, n: int)
    requires
        0 <= n <= segments.len(),
    ensures
        total_rows(segments.take(n)) <= total_rows(segments),
    decreases segments.len(),
{
    if n == segments.len() {
        assert(segments.take(n) =~= segments);
    } else {
        assert(segments.take(n) =~= segments.drop_last().take(n));
        lemma_total_rows_prefix(segments.drop_last(), n);
    }
}

/// Whether some referenced segment spans an id.
pub open spec fn covered(segments: Seq<SegmentRef>, id: u64) -> bool {
    exists|i: int|
        0 <= i < segments.len() && (#[trigger] segments[i]).id_lo <= id && id <= segments[i].id_hi
}

fn is_covered(segments: &Vec<SegmentRef>, id: u64) -> (r: bool)
    ensures
        r == covered(segments@, id),
{
    for i in 0..segments.len()
        invariant
            forall|j: int|
                0 <= j < i ==> !((#[trigger] segments@[j]).id_lo <= id && id <= segments@[j].id_hi),
    {
        if segments[i].id_lo <= id && id <= segments[i].id_hi {
            assert(segments@[i as int].id_lo <= id);
            return true;
        }
    }
    false
}

impl Manifest {
    /// The deletion vector is finite.
    pub open spec fn wf(&self) -> bool {
        self.deletions.wf()
    }

    /// Whether this version references a segment.
    pub open spec fn references(&self, segment: u64) -> bool {
        ids_of(self.segments@).contains(segment)
    }

    /// Whether an id lies in a segment's range and is not tombstoned.
    pub open spec fn covers_live(&self, id: u64) -> bool {
        &&& !self.deletions.ids().contains(id)
        &&& covered(self.segments@, id)
    }

    /// The tombstones that fall inside this version's segment ranges.
    pub open spec fn tombstones_inside(&self) -> Set<u64> {
        self.deletions.ids().filter(|id: u64| covered(self.segments@, id))
    }

    /// The segment ids this version references.
    pub fn segment_ids(&self) -> (ids: Vec<u64>)
        ensures
            ids@ == ids_of(self.segments@),
    {
        let mut ids: Vec<u64> = Vec::with_capacity(self.segments.len());
        for i in 0..self.segments.len()
            invariant
                ids@ == ids_of(self.segments@).take(i as int),
        {
            ids.push(self.segments[i].id);
            assert(ids@ =~= ids_of(self.segments@).take(i + 1));
        }
        assert(ids@ =~= ids_of(self.segments@));
        ids
    }

    /// The number of live rows in this version: total segment rows minus the tombstones
    /// that fall inside this version's segment ranges.
    pub fn live_count(&self) -> (n: u64)
        requires
            self.wf(),
            total_rows(self.segments@) <= u64::MAX,
        ensures
            n == if self.tombstones_inside().len() <= total_rows(self.segments@) {
                total_rows(self.segments@) - self.tombstones_inside().len()
            } else {
                0
            },
    {
        let mut total: u64 = 0;
        for i in 0..self.segments.len()
            invariant
                total_rows(self.segments@) <= u64::MAX,
                total == total_rows(self.segments@.take(i as int)),
        {
            proof {
                assert(self.segments@.take(i + 1).drop_last() =~= self.segments@.take(i as int));
                lemma_total_rows_prefix(self.segments@, i + 1);
            }
            total = total + self.segments[i].count;
        }
        assert(self.segments@.take(self.segments@.len() as int) =~= self.segments@);
        let raw = self.deletions.raw_ids();
        let mut inside: u64 = 0;
        let ghost mut seen = Set::<u64>::empty();
        for i in 0..raw.len()
            invariant
                idset::ascending(raw@),
                inside <= i,
                seen.finite(),
                seen.len() == inside,
                forall|id: u64| #[trigger]
                    seen.contains(id) <==> raw@.take(i as int).contains(id) && covered(
                        self.segments@,
                        id,
                    ),
        {
            let id: u64 = raw[i];
            proof {
                let prefix = raw@.take(i as int);
                assert(raw@.take(i + 1) =~= prefix.push(id));
                assert(!prefix.contains(id)) by {
                    if prefix.contains(id) {
                        let j = prefix.index_of(id);
                        assert(raw@[j] < raw@[i as int]);
                    }
                }
                assert forall|x: u64| #[trigger] prefix.push(id).contains(x) <==> prefix.contains(x)
                    || x == id by {
                    if prefix.contains(x) {
                        assert(prefix.push(id)[prefix.index_of(x)] == x);
                    }
                    assert(prefix.push(id)[i as int] == id);
                }
            }
            if is_covered(&self.segments, id) {
                inside = inside + 1;
                proof {
                    seen = seen.insert(id);
                }
            }
        }
        proof {
            assert(raw@.take(raw@.len() as int) =~= raw@);
            assert(seen =~= self.tombstones_inside());
        }
        total.saturating_sub(inside)
    }
}

} // verus!
