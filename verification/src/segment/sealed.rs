//! Immutable sealed segments.
//!
//! A sealed segment is the immutable, `Arc`-shared building block that versioning
//! references by id. Its rows never change once it is sealed; soft-delete tombstones are
//! layered on top. It is backed by a built **HNSW** index.

use vstd::prelude::*;

use crate::distance::Kernel;
use crate::distance::Metric;
use crate::id::GlobalId;
use crate::id::SegmentId;
use crate::index;
use crate::index::hnsw;
use crate::index::FilterContext;
use crate::index::HnswIndex;
use crate::index::Index;
use crate::index::ScoredPoint;
use crate::index::SearchParams;
use crate::ordered::OrderedF32;
use crate::payload::FilterQuery;
use crate::ranking;
use crate::segment::id_map;
use crate::segment::search;
use crate::segment::search::SegmentLiveFilter;
use crate::segment::IdMap;
use crate::version::DeletionVector;

verus! {

/// The tuning of a search that leaves every choice to the index.
pub open spec fn default_params() -> SearchParams {
    SearchParams { ef: 0, exact: false }
}

/// The rows that are kept and not tombstoned in the index.
pub open spec fn untombstoned(tombstones: Set<u32>, keeps: spec_fn(u32) -> bool) -> spec_fn(
    u32,
) -> bool {
    |local: u32| !tombstones.contains(local) && keeps(local)
}

/// An immutable, HNSW-backed segment.
pub struct SealedSegment<K: Kernel> {
    /// The segment's stable id.
    pub id: SegmentId,
    /// The index over the segment's vectors.
    pub index: HnswIndex<K>,
    /// The global id of each row.
    pub ids: IdMap,
}

impl<K: Kernel> SealedSegment<K> {
    /// Every row has a vector, a node in the graph and a global id.
    pub open spec fn wf(&self) -> bool {
        &&& self.index.valid()
        &&& self.ids.wf()
        &&& self.ids.ids().len() == self.index.vectors.rows().len()
    }

    /// The global id of each row.
    pub open spec fn global_ids(&self) -> Seq<GlobalId> {
        self.ids.ids()
    }

    /// The vector of each row.
    pub open spec fn rows(&self) -> Seq<Seq<K::Elem>> {
        self.index.vectors.rows()
    }

    /// The number of rows that are not tombstoned.
    pub open spec fn live_count(&self) -> nat {
        index::live_ids(self.rows().len(), self.index.deleted.ids()).len()
    }

    /// The rows that are not tombstoned and whose global id is kept.
    pub open spec fn admitted(&self, keeps: spec_fn(u64) -> bool) -> spec_fn(u32) -> bool {
        untombstoned(self.index.deleted.ids(), search::rows_kept(self.global_ids(), keeps))
    }

    /// What the graph finds among the rows whose global id is kept.
    pub open spec fn graph_results(&self, query: Seq<K::Elem>, k: nat, keeps: spec_fn(u64) -> bool) -> Seq<
        ScoredPoint,
    > {
        self.index.found(query, k, default_params(), self.admitted(keeps))
    }

    /// What a search over the rows whose global id is kept returns: what the graph finds,
    /// or an exact scan where that comes up short.
    pub open spec fn results(&self, query: Seq<K::Elem>, k: nat, keeps: spec_fn(u64) -> bool) -> Seq<
        (GlobalId, OrderedF32),
    > {
        let graph = self.graph_results(query, k, keeps);
        search::globals_of(
            self.global_ids(),
            if graph.len() < k {
                index::exact_topk(self.index.kernel, self.rows(), query, k, self.admitted(keeps))
            } else {
                graph
            },
        )
    }

    /// Assembles a sealed segment from a built index and its id map.
    pub fn from_index(id: SegmentId, index: HnswIndex<K>, ids: IdMap) -> (seg: SealedSegment<K>)
        requires
            index.valid(),
            ids.wf(),
            ids.ids().len() == index.vectors.rows().len(),
        ensures
            seg.wf(),
            seg.id == id,
            seg.index == index,
            seg.ids == ids,
    {
        SealedSegment { id, index, ids }
    }

    /// The segment's stable id.
    pub fn id(&self) -> (id: SegmentId)
        ensures
            id == self.id,
    {
        self.id
    }

    /// The metric.
    pub fn metric(&self) -> (metric: Metric)
        ensures
            metric == self.index.vectors.kernel.spec_metric(),
    {
        self.index.vectors().metric()
    }

    /// The total number of rows (including tombstones).
    pub fn len(&self) -> (n: usize)
        requires
            self.wf(),
        ensures
            n == self.rows().len(),
    {
        self.index.capacity()
    }

    /// Whether the segment has no rows.
    pub fn is_empty(&self) -> (r: bool)
        requires
            self.wf(),
        ensures
            r == (self.rows().len() == 0),
    {
        self.index.capacity() == 0
    }

    /// The number of live (non-tombstoned) rows.
    pub fn live_len(&self) -> (n: usize)
        requires
            self.wf(),
        ensures
            n == self.live_count(),
    {
        self.index.live_len()
    }

    /// The underlying index (for serialization).
    pub fn index(&self) -> (index: &HnswIndex<K>)
        ensures
            *index == self.index,
    {
        &self.index
    }

    /// The id map (for serialization).
    pub fn id_map(&self) -> (ids: &IdMap)
        ensures
            *ids == self.ids,
    {
        &self.ids
    }

    /// Tombstones the row for `global`, if present. Returns whether it was newly deleted.
    pub fn delete_global(&mut self, global: GlobalId) -> (newly: bool)
        requires
            old(self).wf(),
        ensures
            final(self).wf(),
            final(self).id == old(self).id,
            final(self).ids == old(self).ids,
            final(self).index.vectors == old(self).index.vectors,
            final(self).index.graph == old(self).index.graph,
            final(self).index.config == old(self).index.config,
            match id_map::last_position(old(self).global_ids(), global.0) {
                Some(i) => {
                    &&& newly == !old(self).index.deleted.ids().contains(i as u32)
                    &&& final(self).index.deleted.ids() == old(self).index.deleted.ids().insert(
                        i as u32,
                    )
                },
                None => !newly && *final(self) == *old(self),
            },
    {
        proof {
            id_map::lemma_last_position(self.ids.ids(), global.0);
            assert(GlobalId(global.0) == global);
        }
        match self.ids.to_local(global) {
            Some(local) => self.index.delete(local.to_point()),
            None => false,
        }
    }

    /// Whether `global` is mapped by this segment (whether or not it's tombstoned).
    pub fn contains(&self, global: GlobalId) -> (r: bool)
        requires
            self.wf(),
        ensures
            r == self.global_ids().contains(global),
    {
        self.ids.to_local(global).is_some()
    }

    /// Whether `global` is present and live in this segment.
    pub fn contains_live(&self, global: GlobalId) -> (r: bool)
        requires
            self.wf(),
        ensures
            r == match id_map::last_position(self.global_ids(), global.0) {
                Some(i) => !self.index.deleted.ids().contains(i as u32),
                None => false,
            },
    {
        proof {
            id_map::lemma_last_position(self.ids.ids(), global.0);
            assert(GlobalId(global.0) == global);
        }
        match self.ids.to_local(global) {
            Some(local) => !self.index.is_deleted(local.to_point()),
            None => false,
        }
    }

    /// The vector for `global`, if present.
    pub fn vector_of(&self, global: GlobalId) -> (vector: Option<&[K::Elem]>)
        requires
            self.wf(),
        ensures
            match vector {
                Some(v) => search::vector_at(self.global_ids(), self.rows(), global.0) == Some(v@)
                    && v@.len() == self.index.vectors.kernel.spec_dim(),
                None => search::vector_at(self.global_ids(), self.rows(), global.0) is None,
            },
            vector is Some <==> self.global_ids().contains(global),
    {
        search::vector_for(&self.index.vectors, &self.ids, global)
    }

    /// The `(global_id, vector)` pairs of every row.
    pub fn iter_points(&self) -> (points: Vec<(GlobalId, &[K::Elem])>)
        requires
            self.wf(),
        ensures
            points@.len() == self.rows().len(),
            forall|i: int|
                0 <= i < points@.len() ==> (#[trigger] points@[i]).0 == self.global_ids()[i]
                    && points@[i].1@ == self.rows()[i] && points@[i].1@.len()
                    == self.index.vectors.kernel.spec_dim(),
    {
        search::list_points(&self.index.vectors, &self.ids)
    }

    /// The inclusive global-id range this segment spans, from its least id to its greatest,
    /// or `None` if empty.
    pub fn global_id_range(&self) -> (range: Option<(u64, u64)>)
        ensures
            range == search::id_span(self.global_ids()),
    {
        search::span_of(&self.ids)
    }

    /// Top-k search through the index, returning `(global_id, score)` best-first.
    pub fn search_matching(&self, query: &[K::Elem], k: usize, filter: Option<&dyn FilterContext>) -> (found:
        Vec<(GlobalId, OrderedF32)>)
        requires
            self.wf(),
            query@.len() == self.index.kernel.spec_dim(),
        ensures
            found@ == search::globals_of(
                self.global_ids(),
                self.index.found(
                    query@,
                    k as nat,
                    default_params(),
                    index::admission(self.index.deleted.ids(), filter),
                ),
            ),
    {
        let found = self.index.search(query, k, SearchParams::default(), filter);
        proof {
            hnsw::law_found(
                self.index,
                query@,
                k as nat,
                default_params(),
                index::admission(self.index.deleted.ids(), filter),
            );
        }
        search::to_globals(&self.ids, &found)
    }

    /// Top-k search over the rows that are neither in `deletions` nor rejected by
    /// `filter`, returning `(global_id, score)` best-first. The graph search can come up
    /// short when few rows are left; an exact scan then takes its place.
    pub fn search(
        &self,
        query: &[K::Elem],
        k: usize,
        deletions: &DeletionVector,
        filter: Option<&FilterQuery>,
    ) -> (found: Vec<(GlobalId, OrderedF32)>)
        requires
            self.wf(),
            query@.len() == self.index.kernel.spec_dim(),
        ensures
            found@ == self.results(query@, k as nat, search::visible(deletions.ids(), filter)),
    {
        let live = SegmentLiveFilter::new(&self.ids, deletions, filter);
        let ghost keeps = search::visible(deletions.ids(), filter);
        proof {
            assert(index::admission(self.index.deleted.ids(), Some(&live)) =~= self.admitted(keeps));
        }
        let found = self.search_matching(query, k, Some(&live));
        if found.len() < k {
            let tombstones = self.index.deleted().snapshot();
            let kernel = self.index.vectors().kernel();
            let exact = index::scan_topk(
                self.index.vectors(),
                &kernel,
                query,
                k,
                Some(&*tombstones),
                Some(&live),
            );
            proof {
                index::law_exact_topk(
                    self.index.kernel,
                    self.rows(),
                    query@,
                    k as nat,
                    self.admitted(keeps),
                );
            }
            search::to_globals(&self.ids, &exact)
        } else {
            found
        }
    }
}

/// A sealed search returns kept, untombstoned rows at their exact scores, each once, and as
/// many as asked for where there are as many.
pub proof fn law_sealed_results<K: Kernel>(
    seg: &SealedSegment<K>,
    query: Seq<K::Elem>,
    k: nat,
    keeps: spec_fn(u64) -> bool,
)
    requires
        seg.wf(),
    ensures
        ({
            let visible = index::count_rows(seg.rows().len(), seg.admitted(keeps));
            seg.results(query, k, keeps).len() == if visible <= k {
                visible
            } else {
                k
            }
        }),
        forall|i: int|
            0 <= i < seg.results(query, k, keeps).len() ==> {
                let r = #[trigger] seg.results(query, k, keeps)[i];
                &&& keeps(r.0.0)
                &&& exists|local: int|
                    0 <= local < seg.rows().len() && seg.global_ids()[local] == r.0
                        && #[trigger] seg.index.kernel.spec_score(query, seg.rows()[local]) == r.1
                        && !seg.index.deleted.ids().contains(local as u32)
            },
        seg.global_ids().no_duplicates() ==> forall|i: int, j: int|
            0 <= i < j < seg.results(query, k, keeps).len() ==> (#[trigger] seg.results(
                query,
                k,
                keeps,
            )[i]).0 != (#[trigger] seg.results(query, k, keeps)[j]).0,
{
    let admitted = seg.admitted(keeps);
    hnsw::law_found(seg.index, query, k, default_params(), admitted);
    index::law_exact_topk(seg.index.kernel, seg.rows(), query, k, admitted);
    index::lemma_scan_pool(seg.index.kernel, seg.rows(), query, admitted);
    let graph = seg.graph_results(query, k, keeps);
    let exact = index::exact_topk(seg.index.kernel, seg.rows(), query, k, admitted);
    let found = if graph.len() < k {
        exact
    } else {
        graph
    };
    let higher = seg.index.kernel.spec_metric().prefers_higher();
    let pool = index::scan_pool(seg.index.kernel, seg.rows(), query, admitted);
    assert forall|i: int, j: int| 0 <= i < j < graph.len() implies (#[trigger] graph[i]).id != (
    #[trigger] graph[j]).id by {
        assert(ranking::rank_of(graph[i].score, graph[i].id.0 as u64, higher).before(
            ranking::rank_of(graph[j].score, graph[j].id.0 as u64, higher),
        ));
    }
    // The graph's results are distinct entries of the scan, so there are no more of them.
    let ranks = Seq::new(
        graph.len(),
        |i: int| ranking::rank_of(graph[i].score, graph[i].id.0 as u64, higher),
    );
    assert(graph.len() <= pool.len()) by {
        assert(ranks.no_duplicates()) by {
            assert forall|i: int, j: int| 0 <= i < ranks.len() && 0 <= j < ranks.len() && i != j implies ranks[i]
                != ranks[j] by {
                if i < j {
                    assert(graph[i].id != graph[j].id);
                } else {
                    assert(graph[j].id != graph[i].id);
                }
            }
        }
        ranks.unique_seq_to_set();
        assert(ranks.to_set().subset_of(pool.to_set())) by {
            assert forall|x: ranking::Ranked| ranks.to_set().contains(x) implies pool.to_set().contains(
                x,
            ) by {
                let i = ranks.index_of(x);
                assert(graph[i].id.0 < seg.rows().len());
                assert(pool.contains(x));
            }
        }
        pool.lemma_cardinality_of_set();
        vstd::set_lib::lemma_len_subset(ranks.to_set(), pool.to_set());
    }
    assert forall|i: int| 0 <= i < seg.results(query, k, keeps).len() implies {
        let r = #[trigger] seg.results(query, k, keeps)[i];
        &&& keeps(r.0.0)
        &&& exists|local: int|
            0 <= local < seg.rows().len() && seg.global_ids()[local] == r.0
                && #[trigger] seg.index.kernel.spec_score(query, seg.rows()[local]) == r.1
                && !seg.index.deleted.ids().contains(local as u32)
    } by {
        let local = found[i].id.0 as int;
        assert(admitted(found[i].id.0));
        assert(seg.index.kernel.spec_score(query, seg.rows()[local]) == found[i].score);
    }
    if seg.global_ids().no_duplicates() {
        assert forall|i: int, j: int| 0 <= i < j < seg.results(query, k, keeps).len() implies (
        #[trigger] seg.results(query, k, keeps)[i]).0 != (#[trigger] seg.results(
            query,
            k,
            keeps,
        )[j]).0 by {
            let a = found[i].id.0 as int;
            let b = found[j].id.0 as int;
            assert(found[i].id != found[j].id);
            assert(a != b);
            assert(0 <= a < seg.global_ids().len() && 0 <= b < seg.global_ids().len());
        }
    }
}

} // verus!
