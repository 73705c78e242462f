//! The mutable appendable segment.
//!
//! All hot writes land in one small appendable segment per collection: vectors are pushed
//! into a contiguous [`VectorStorage`] and searched by exact flat scan. It is purely
//! additive (**deletions are collection-level**, not stored here). It is later *sealed*
//! into an immutable [`SealedSegment`] with a built HNSW.

use std::sync::Arc;

use vstd::prelude::*;

use crate::distance::Kernel;
use crate::distance::Metric;
use crate::id::GlobalId;
use crate::id::LocalId;
use crate::id::SegmentId;
use crate::index;
use crate::index::HnswConfig;
use crate::index::HnswIndex;
use crate::index::Index;
use crate::ordered::OrderedF32;
use crate::payload::FilterQuery;
use crate::segment::search;
use crate::segment::IdMap;
use crate::segment::SealedSegment;
use crate::vector::VectorStorage;
use crate::version::DeletionVector;

verus! {

/// A growable, in-RAM segment that accepts appends and serves exact search.
pub struct AppendableSegment<K: Kernel> {
    /// The vectors.
    pub vectors: VectorStorage<K>,
    /// The global id of each row.
    pub ids: IdMap,
}

impl<K: Kernel> AppendableSegment<K> {
    /// Every row has a vector and a global id.
    pub open spec fn wf(&self) -> bool {
        &&& self.vectors.wf()
        &&& self.ids.wf()
        &&& self.ids.ids().len() == self.vectors.rows().len()
    }

    /// The global id of each row.
    pub open spec fn global_ids(&self) -> Seq<GlobalId> {
        self.ids.ids()
    }

    /// The vector of each row.
    pub open spec fn rows(&self) -> Seq<Seq<K::Elem>> {
        self.vectors.rows()
    }

    /// What a search returns: the exact best rows whose global id is kept.
    pub open spec fn results(&self, query: Seq<K::Elem>, k: nat, keeps: spec_fn(u64) -> bool) -> Seq<
        (GlobalId, OrderedF32),
    > {
        search::globals_of(
            self.global_ids(),
            index::exact_topk(
                self.vectors.kernel,
                self.rows(),
                query,
                k,
                search::rows_kept(self.global_ids(), keeps),
            ),
        )
    }

    /// Creates an empty appendable segment for the kernel's vectors.
    pub fn new(kernel: K) -> (seg: AppendableSegment<K>)
        requires
            kernel.spec_dim() > 0,
        ensures
            seg.wf(),
            seg.vectors.kernel == kernel,
            seg.rows() == Seq::<Seq<K::Elem>>::empty(),
            seg.global_ids() == Seq::<GlobalId>::empty(),
    {
        AppendableSegment { vectors: VectorStorage::new(kernel), ids: IdMap::new() }
    }

    /// The vector dimensionality.
    pub fn dim(&self) -> (dim: usize)
        ensures
            dim == self.vectors.kernel.spec_dim(),
    {
        self.vectors.dim()
    }

    /// The metric.
    pub fn metric(&self) -> (metric: Metric)
        ensures
            metric == self.vectors.kernel.spec_metric(),
    {
        self.vectors.metric()
    }

    /// The number of rows.
    pub fn len(&self) -> (n: usize)
        ensures
            n == self.rows().len(),
    {
        self.vectors.len()
    }

    /// Whether the segment has no rows.
    pub fn is_empty(&self) -> (r: bool)
        ensures
            r == (self.rows().len() == 0),
    {
        self.vectors.is_empty()
    }

    /// Appends `vector` under collection-global id `global`, returning its local id.
    pub fn append(&mut self, global: GlobalId, vector: &[K::Elem]) -> (local: LocalId)
        requires
            old(self).wf(),
            vector@.len() == old(self).vectors.kernel.spec_dim(),
            old(self).rows().len() < u32::MAX,
        ensures
            final(self).wf(),
            final(self).vectors.kernel == old(self).vectors.kernel,
            final(self).rows() == old(self).rows().push(
                VectorStorage::ingested(old(self).vectors.kernel, vector@),
            ),
            final(self).global_ids() == old(self).global_ids().push(global),
            local.0 == old(self).rows().len(),
    {
        let _ = self.vectors.push(vector);
        self.ids.assign(global)
    }

    /// Whether `global` is in this segment.
    pub fn contains(&self, global: GlobalId) -> (r: bool)
        requires
            self.wf(),
        ensures
            r == self.global_ids().contains(global),
    {
        self.ids.to_local(global).is_some()
    }

    /// The vector for `global`, if present.
    pub fn vector_of(&self, global: GlobalId) -> (vector: Option<&[K::Elem]>)
        requires
            self.wf(),
        ensures
            match vector {
                Some(v) => search::vector_at(self.global_ids(), self.rows(), global.0) == Some(v@)
                    && v@.len() == self.vectors.kernel.spec_dim(),
                None => search::vector_at(self.global_ids(), self.rows(), global.0) is None,
            },
            vector is Some <==> self.global_ids().contains(global),
    {
        search::vector_for(&self.vectors, &self.ids, global)
    }

    /// The `(global_id, vector)` pairs of every row.
    pub fn iter_points(&self) -> (points: Vec<(GlobalId, &[K::Elem])>)
        requires
            self.wf(),
        ensures
            points@.len() == self.rows().len(),
            forall|i: int|
                0 <= i < points@.len() ==> (#[trigger] points@[i]).0 == self.global_ids()[i]
                    && points@[i].1@ == self.rows()[i] && points@[i].1@.len()
                    == self.vectors.kernel.spec_dim(),
    {
        search::list_points(&self.vectors, &self.ids)
    }

    /// The inclusive global-id range this segment spans, from its least id to its greatest,
    /// or `None` if empty.
    pub fn global_id_range(&self) -> (range: Option<(u64, u64)>)
        ensures
            range == search::id_span(self.global_ids()),
    {
        search::span_of(&self.ids)
    }

    /// Exact top-k search excluding `deletions` and applying the optional `filter`,
    /// returning `(global_id, score)`.
    pub fn search(
        &self,
        query: &[K::Elem],
        k: usize,
        deletions: &DeletionVector,
        filter: Option<&FilterQuery>,
    ) -> (found: Vec<(GlobalId, OrderedF32)>)
        requires
            self.wf(),
            query@.len() == self.vectors.kernel.spec_dim(),
        ensures
            found@ == self.results(query@, k as nat, search::visible(deletions.ids(), filter)),
    {
        search::search_local(&self.vectors, &self.ids, deletions, query, k, filter)
    }

    /// Seals this segment into an immutable, HNSW-backed [`SealedSegment`].
    pub fn seal(self, id: SegmentId, config: HnswConfig) -> (sealed: SealedSegment<K>)
        requires
            self.wf(),
        ensures
            sealed.wf(),
            sealed.id == id,
            sealed.index.kernel == self.vectors.kernel,
            sealed.index.config == config,
            sealed.index.graph.state() == HnswIndex::sequential_graph(self.vectors, config),
            sealed.rows() == self.rows(),
            sealed.global_ids() == self.global_ids(),
            sealed.index.deleted.ids() == Set::<u32>::empty(),
    {
        let index = HnswIndex::build(Arc::new(self.vectors), config);
        SealedSegment::from_index(id, index, self.ids)
    }
}

} // verus!
