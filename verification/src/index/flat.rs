//! Brute-force (flat) index.
//!
//! [`FlatIndex`] scores the query against every live, filter-admitted vector and keeps
//! the top-k via a bounded collector. It is exact, so it serves as the appendable
//! segment's search engine, as the engine for exact pre-filter scans, and as the ground
//! truth for the approximate index.

use std::sync::Arc;

use vstd::prelude::*;

use crate::distance::Kernel;
use crate::id::PointId;
use crate::index;
use crate::index::filter::FilterContext;
use crate::index::Index;
use crate::index::ScoredPoint;
use crate::index::SearchParams;
use crate::index::SoftDeleteSet;
use crate::vector::VectorStorage;

verus! {

/// An exact, full-scan index over a shared [`VectorStorage`].
pub struct FlatIndex<K: Kernel> {
    /// The shared vectors.
    pub storage: Arc<VectorStorage<K>>,
    /// The distance kernel, the storage's own.
    pub kernel: K,
    /// The tombstones.
    pub deleted: SoftDeleteSet,
}

impl<K: Kernel> FlatIndex<K> {
    /// Builds a flat index over `storage`, with the storage's kernel.
    pub fn new(storage: Arc<VectorStorage<K>>) -> (flat: FlatIndex<K>)
        requires
            storage.wf(),
        ensures
            flat.valid(),
            flat.storage == storage,
            flat.kernel == storage.kernel,
            flat.deleted.ids() == Set::<u32>::empty(),
    {
        let kernel = storage.kernel();
        FlatIndex { storage, kernel, deleted: SoftDeleteSet::new() }
    }

    /// The shared vector storage.
    pub fn storage(&self) -> (storage: &Arc<VectorStorage<K>>)
        ensures
            *storage == self.storage,
    {
        &self.storage
    }

    /// The distance kernel.
    pub fn kernel(&self) -> (kernel: &K)
        ensures
            *kernel == self.kernel,
    {
        &self.kernel
    }

    /// The tombstone set.
    pub fn deleted(&self) -> (deleted: &SoftDeleteSet)
        ensures
            *deleted == self.deleted,
    {
        &self.deleted
    }
}

impl<K: Kernel> Index<K::Elem> for FlatIndex<K> {
    open spec fn valid(&self) -> bool {
        self.storage.wf() && self.kernel == self.storage.kernel && self.deleted.wf()
    }

    open spec fn query_dim(&self) -> nat {
        self.kernel.spec_dim()
    }

    open spec fn total(&self) -> nat {
        self.storage.rows().len()
    }

    open spec fn tombstones(&self) -> Set<u32> {
        self.deleted.ids()
    }

    open spec fn results(
        &self,
        query: Seq<K::Elem>,
        k: nat,
        params: SearchParams,
        filter: Option<&dyn FilterContext>,
    ) -> Seq<ScoredPoint> {
        index::exact_topk(
            self.kernel,
            self.storage.rows(),
            query,
            k,
            index::admission(self.deleted.ids(), filter),
        )
    }

    fn search(
        &self,
        query: &[K::Elem],
        k: usize,
        params: SearchParams,
        filter: Option<&dyn FilterContext>,
    ) -> (found: Vec<ScoredPoint>) {
        let tombstones = self.deleted.snapshot();
        index::scan_topk(&self.storage, &self.kernel, query, k, Some(&*tombstones), filter)
    }

    fn delete(&mut self, id: PointId) -> (newly: bool)
        ensures
            final(self).storage == old(self).storage,
            final(self).kernel == old(self).kernel,
    {
        self.deleted.delete(id)
    }

    fn is_deleted(&self, id: PointId) -> (r: bool) {
        self.deleted.is_deleted(id)
    }

    fn live_len(&self) -> (n: usize) {
        let tombstones = self.deleted.snapshot();
        index::count_live(self.storage.len(), &tombstones)
    }

    fn capacity(&self) -> (n: usize) {
        self.storage.len()
    }

    fn is_empty(&self) -> (r: bool) {
        self.live_len() == 0
    }

    fn iter_live(&self) -> (ids: Vec<PointId>) {
        let tombstones = self.deleted.snapshot();
        index::list_live(self.storage.len(), &tombstones)
    }
}

} // verus!
