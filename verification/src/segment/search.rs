//! Shared per-segment search helpers and the version-aware live filter.
//!
//! Deletions (a [`DeletionVector`]) and payload filters (a [`FilterQuery`]) both live at
//! the collection level and are passed into segment search, which adapts them to the
//! index's [`FilterContext`] via [`SegmentLiveFilter`] by mapping each segment-local
//! candidate to its global id. A time-travel query passes a *frozen* deletion vector,
//! which is what gives snapshot isolation.

use vstd::prelude::*;

use crate::distance::Kernel;
use crate::id::GlobalId;
use crate::id::PointId;
use crate::index;
use crate::index::CardinalityEstimate;
use crate::index::FilterContext;
use crate::index::ScoredPoint;
use crate::ordered::OrderedF32;
use crate::payload::FilterQuery;
use crate::segment::id_map;
use crate::segment::IdMap;
use crate::vector;
use crate::vector::VectorStorage;
use crate::version::DeletionVector;

verus! {

/// The global ids that are neither tombstoned nor rejected by the filter.
pub open spec fn visible(deletions: Set<u64>, filter: Option<&FilterQuery>) -> spec_fn(u64) -> bool {
    |g: u64|
        !deletions.contains(g) && match filter {
            Some(f) => f.admits_point(g),
            None => true,
        }
}

/// The rows whose global id is kept.
pub open spec fn rows_kept(ids: Seq<GlobalId>, keeps: spec_fn(u64) -> bool) -> spec_fn(u32) -> bool {
    |local: u32| local < ids.len() && keeps(ids[local as int].0)
}

/// Segment-local results under their global ids.
pub open spec fn globals_of(ids: Seq<GlobalId>, found: Seq<ScoredPoint>) -> Seq<
    (GlobalId, OrderedF32),
> {
    Seq::new(found.len(), |i: int| (ids[found[i].id.0 as int], found[i].score))
}

/// The vector stored under a global id: its latest row.
pub open spec fn vector_at<E>(ids: Seq<GlobalId>, rows: Seq<Seq<E>>, global: u64) -> Option<Seq<E>> {
    match id_map::last_position(ids, global) {
        Some(i) => Some(rows[i]),
        None => None,
    }
}

/// The least and the greatest of a list of ids.
pub open spec fn id_span(ids: Seq<GlobalId>) -> Option<(u64, u64)>
    decreases ids.len(),
{
    if ids.len() == 0 {
        None
    } else {
        let last = ids.last().0;
        match id_span(ids.drop_last()) {
            Some((lo, hi)) => Some(
                (
                    if last < lo {
                        last
                    } else {
                        lo
                    },
                    if last > hi {
                        last
                    } else {
                        hi
                    },
                ),
            ),
            None => Some((last, last)),
        }
    }
}

/// The span of a list of ids is there unless the list is empty; both its ends are ids of
/// the list, and every id of the list lies between them.
pub proof fn law_id_span(ids: Seq<GlobalId>)
    ensures
        id_span(ids) is None <==> ids.len() == 0,
        id_span(ids) matches Some((lo, hi)) ==> {
            &&& lo <= hi
            &&& ids.contains(GlobalId(lo))
            &&& ids.contains(GlobalId(hi))
            &&& forall|i: int| 0 <= i < ids.len() ==> lo <= (#[trigger] ids[i]).0 <= hi
        },
    decreases ids.len(),
{
    if ids.len() > 0 {
        let shorter = ids.drop_last();
        law_id_span(shorter);
        let last = ids.last().0;
        assert(ids[ids.len() - 1] == GlobalId(last));
        match id_span(shorter) {
            Some((lo, hi)) => {
                let a = shorter.index_of(GlobalId(lo));
                let b = shorter.index_of(GlobalId(hi));
                assert(ids[a] == GlobalId(lo));
                assert(ids[b] == GlobalId(hi));
                assert forall|i: int| 0 <= i < shorter.len() implies lo <= (#[trigger] ids[i]).0
                    <= hi by {
                    assert(shorter[i] == ids[i]);
                }
            },
            None => {},
        }
    }
}

/// A [`FilterContext`] that admits a segment-local point iff it isn't tombstoned and
/// passes the (optional) payload filter.
pub struct SegmentLiveFilter<'a> {
    /// The segment's id map.
    pub ids: &'a IdMap,
    /// The tombstones.
    pub deletions: &'a DeletionVector,
    /// The payload filter.
    pub filter: Option<&'a FilterQuery<'a>>,
}

impl<'a> SegmentLiveFilter<'a> {
    /// A filter over a segment's rows.
    pub fn new(
        ids: &'a IdMap,
        deletions: &'a DeletionVector,
        filter: Option<&'a FilterQuery<'a>>,
    ) -> (live: SegmentLiveFilter<'a>)
        ensures
            live.ids == ids,
            live.deletions == deletions,
            live.filter == filter,
    {
        SegmentLiveFilter { ids, deletions, filter }
    }
}

impl<'a> FilterContext for SegmentLiveFilter<'a> {
    open spec fn admits(&self, id: PointId) -> bool {
        rows_kept(self.ids.ids(), visible(self.deletions.ids(), self.filter))(id.0)
    }

    fn matches(&self, id: PointId) -> (r: bool) {
        match self.ids.to_global(id.to_local()) {
            Some(global) => {
                if self.deletions.contains(global) {
                    return false;
                }
                match self.filter {
                    Some(f) => f.matches(global.get()),
                    None => true,
                }
            },
            None => false,
        }
    }

    fn estimate_cardinality(&self) -> (estimate: CardinalityEstimate)
        ensures
            estimate == (CardinalityEstimate {
                min: 0,
                expected: self.ids.ids().len() as usize,
                max: self.ids.ids().len() as usize,
            }),
    {
        // Conservative: assume nothing is filtered (upper bound never under-counts).
        CardinalityEstimate { min: 0, expected: self.ids.len(), max: self.ids.len() }
    }
}

/// Puts segment-local results under their global ids.
pub(crate) fn to_globals(ids: &IdMap, found: &Vec<ScoredPoint>) -> (out: Vec<(GlobalId, OrderedF32)>)
    requires
        forall|i: int| 0 <= i < found@.len() ==> (#[trigger] found@[i]).id.0 < ids.ids().len(),
    ensures
        out@ == globals_of(ids.ids(), found@),
{
    let mut out: Vec<(GlobalId, OrderedF32)> = Vec::with_capacity(found.len());
    for i in 0..found.len()
        invariant
            forall|i: int| 0 <= i < found@.len() ==> (#[trigger] found@[i]).id.0 < ids.ids().len(),
            out@ == globals_of(ids.ids(), found@).take(i as int),
    {
        let sp = found[i];
        out.push((ids.global_at(sp.id.to_local()), sp.score));
        assert(out@ =~= globals_of(ids.ids(), found@).take(i + 1));
    }
    assert(out@ =~= globals_of(ids.ids(), found@));
    out
}

/// Flat (exact) per-segment search mapped to global ids, applying the live filter.
pub(crate) fn search_local<K: Kernel>(
    vectors: &VectorStorage<K>,
    ids: &IdMap,
    deletions: &DeletionVector,
    query: &[K::Elem],
    k: usize,
    filter: Option<&FilterQuery>,
) -> (out: Vec<(GlobalId, OrderedF32)>)
    requires
        vectors.wf(),
        ids.ids().len() == vectors.rows().len(),
        query@.len() == vectors.kernel.spec_dim(),
    ensures
        out@ == globals_of(
            ids.ids(),
            index::exact_topk(
                vectors.kernel,
                vectors.rows(),
                query@,
                k as nat,
                rows_kept(ids.ids(), visible(deletions.ids(), filter)),
            ),
        ),
{
    let live = SegmentLiveFilter::new(ids, deletions, filter);
    let kernel = vectors.kernel();
    let found = index::scan_topk(vectors, &kernel, query, k, None, Some(&live));
    proof {
        let keeps = rows_kept(ids.ids(), visible(deletions.ids(), filter));
        assert(index::admission(index::tombstones_of(None), Some(&live)) =~= keeps);
        index::law_exact_topk(kernel, vectors.rows(), query@, k as nat, keeps);
    }
    to_globals(ids, &found)
}

/// The vector stored under a global id.
pub(crate) fn vector_for<'a, K: Kernel>(
    vectors: &'a VectorStorage<K>,
    ids: &IdMap,
    global: GlobalId,
) -> (vector: Option<&'a [K::Elem]>)
    requires
        vectors.wf(),
        ids.wf(),
        ids.ids().len() == vectors.rows().len(),
    ensures
        match vector {
            Some(v) => vector_at(ids.ids(), vectors.rows(), global.0) == Some(v@) && v@.len()
                == vectors.kernel.spec_dim(),
            None => vector_at(ids.ids(), vectors.rows(), global.0) is None,
        },
        vector is Some <==> ids.ids().contains(global),
{
    proof {
        id_map::lemma_last_position(ids.ids(), global.0);
        assert(GlobalId(global.0) == global);
    }
    match ids.to_local(global) {
        Some(local) => Some(vectors.get(local.to_point())),
        None => None,
    }
}

/// Every row with its global id, in row order.
pub(crate) fn list_points<'a, K: Kernel>(vectors: &'a VectorStorage<K>, ids: &IdMap) -> (points: Vec<
    (GlobalId, &'a [K::Elem]),
>)
    requires
        vectors.wf(),
        ids.ids().len() == vectors.rows().len(),
    ensures
        points@.len() == vectors.rows().len(),
        forall|i: int|
            0 <= i < points@.len() ==> (#[trigger] points@[i]).0 == ids.ids()[i] && points@[i].1@
                == vectors.rows()[i] && points@[i].1@.len() == vectors.kernel.spec_dim(),
{
    let mut points: Vec<(GlobalId, &'a [K::Elem])> = Vec::with_capacity(vectors.len());
    let n: usize = vectors.len();
    for i in 0..n
        invariant
            vectors.wf(),
            n == vectors.rows().len(),
            ids.ids().len() == n,
            points@.len() == i,
            forall|j: int|
                0 <= j < i ==> (#[trigger] points@[j]).0 == ids.ids()[j] && points@[j].1@
                    == vectors.rows()[j] && points@[j].1@.len() == vectors.kernel.spec_dim(),
    {
        let id = PointId::new(i as u32);
        points.push((ids.global_at(id.to_local()), vectors.get(id)));
    }
    points
}

/// The span of a segment's ids.
pub(crate) fn span_of(ids: &IdMap) -> (span: Option<(u64, u64)>)
    ensures
        span == id_span(ids.ids()),
{
    let all = ids.global_ids();
    let n: usize = all.len();
    if n == 0 {
        return None;
    }
    let mut lo: u64 = all[0].get();
    let mut hi: u64 = all[0].get();
    let ghost listed = ids.ids();
    proof {
        assert(listed.take(1).drop_last() =~= Seq::<GlobalId>::empty());
        assert(id_span(Seq::<GlobalId>::empty()) is None);
    }
    for i in 1..n
        invariant
            n == all@.len(),
            all@ == listed,
            id_span(listed.take(i as int)) == Some((lo, hi)),
    {
        let id: u64 = all[i].get();
        assert(listed.take(i + 1).drop_last() =~= listed.take(i as int));
        if id < lo {
            lo = id;
        }
        if id > hi {
            hi = id;
        }
    }
    assert(listed.take(n as int) =~= listed);
    Some((lo, hi))
}

} // verus!
