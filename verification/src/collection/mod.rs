//! A collection: vectors, their segments, and the version history.
//!
//! A collection holds one mutable [`AppendableSegment`] plus a *working* set of sealed
//! segments (the live view) and a master registry of every sealed segment ever created
//! (so any past version can be reassembled). **Deletions live here**, as a
//! collection-level [`DeletionVector`], not inside segments, so committing simply freezes
//! a clone of it, giving snapshot isolation.
//!
//! A *commit* snapshots the working segment refs and the current deletions into a
//! manifest in the [`VersionStore`]. Time travel ([`Collection::search_at`]) reassembles a
//! past version's segments and frozen deletions; [`Collection::restore`] is a forward
//! commit re-pointing the working state at an old version.

pub mod history;
pub mod laws;
pub mod merge;
pub mod points;
pub mod query;
pub mod recovery;
pub mod timeline;
pub mod uniqueness;

use std::collections::HashMap;
use std::sync::Arc;

use vstd::prelude::*;
use vstd::std_specs::hash::*;

use crate::distance;
use crate::distance::Kernel;
use crate::distance::Metric;
use crate::error::CoreError;
use crate::id::GlobalId;
use crate::index::HnswConfig;
use crate::payload::Payload;
use crate::payload::PayloadMap;
use crate::segment::AppendableSegment;
use crate::segment::SealedSegment;
use crate::segment::SegmentSet;
use crate::vector::VectorStorage;
use crate::version::DeletionVector;
use crate::version::VersionStore;
use crate::version::VersioningPolicy;

pub use merge::ScoredGlobal;
pub use points::PointRecord;

verus! {

broadcast use vstd::std_specs::hash::group_hash_axioms;

/// Rules for automatic compaction (merging the working segments into one). Triggers are
/// OR-ed; with neither set, compaction is manual only.
#[derive(Debug, Clone, Copy, PartialEq, Eq, Structural)]
pub struct CompactionPolicy {
    /// Compact once the working set holds at least this many sealed segments.
    pub max_segments: Option<usize>,
    /// Compact once this many milliseconds have elapsed since the last compaction (only
    /// when there is more than one working segment to merge).
    pub interval_ms: Option<u64>,
}

impl Default for CompactionPolicy {
    fn default() -> (policy: CompactionPolicy)
        ensures
            policy == (CompactionPolicy { max_segments: None, interval_ms: None }),
    {
        CompactionPolicy { max_segments: None, interval_ms: None }
    }
}

impl CompactionPolicy {
    /// A policy that compacts only on explicit request.
    pub fn manual() -> (policy: CompactionPolicy)
        ensures
            policy == (CompactionPolicy { max_segments: None, interval_ms: None }),
    {
        CompactionPolicy::default()
    }

    /// Whether any automatic trigger is configured.
    pub fn is_automatic(&self) -> (r: bool)
        ensures
            r == (self.max_segments is Some || self.interval_ms is Some),
    {
        self.max_segments.is_some() || self.interval_ms.is_some()
    }
}

/// Static configuration of a collection.
#[derive(Debug, Clone)]
pub struct CollectionConfig {
    /// The collection name.
    pub name: String,
    /// Vector dimensionality.
    pub dim: usize,
    /// Distance metric.
    pub metric: Metric,
    /// HNSW parameters used when sealing segments.
    pub hnsw: HnswConfig,
    /// Automatic-commit policy.
    pub versioning: VersioningPolicy,
    /// Automatic-compaction policy.
    pub compaction: CompactionPolicy,
}

impl CollectionConfig {
    /// Convenience constructor with default HNSW + manual versioning + manual compaction.
    pub fn new(name: String, dim: usize, metric: Metric) -> (config: CollectionConfig)
        ensures
            config.name == name,
            config.dim == dim,
            config.metric == metric,
            config.hnsw == (HnswConfig {
                m: 16,
                m_max0: 32,
                ef_construction: 128,
                ef_search: 64,
                seed: 0x5EED_1234_5678_9ABC,
                keep_pruned: true,
                quantization: true,
            }),
            config.versioning == (VersioningPolicy { every_n_writes: None, interval_ms: None }),
            config.compaction == (CompactionPolicy { max_segments: None, interval_ms: None }),
    {
        CollectionConfig {
            name,
            dim,
            metric,
            hnsw: HnswConfig::default(),
            versioning: VersioningPolicy::default(),
            compaction: CompactionPolicy::default(),
        }
    }
}

/// Every segment is well-formed and works with the collection's kernel.
pub open spec fn segments_ok<K: Kernel>(kernel: K, segments: Seq<Arc<SealedSegment<K>>>) -> bool {
    forall|i: int|
        0 <= i < segments.len() ==> (#[trigger] segments[i]).wf() && segments[i].index.kernel
            == kernel
}

/// Vectors in the form in which they are stored.
pub open spec fn all_ingested<K: Kernel>(kernel: K, vectors: Seq<Seq<K::Elem>>) -> Seq<
    Seq<K::Elem>,
> {
    Seq::new(vectors.len(), |i: int| VectorStorage::ingested(kernel, vectors[i]))
}

/// Consecutive ids from `first` on.
pub open spec fn ids_from(first: u64, n: nat) -> Seq<GlobalId> {
    Seq::new(n, |i: int| GlobalId((first + i) as u64))
}

/// A collection of vectors served from RAM, with a git-like version history.
pub struct Collection<K: Kernel> {
    /// The configuration.
    pub config: CollectionConfig,
    /// The kernel that works on the collection's vectors.
    pub kernel: K,
    /// Where new vectors land.
    pub appendable: AppendableSegment<K>,
    /// The live (working) segment set.
    pub working: SegmentSet<K>,
    /// Every sealed segment ever created, so any past version can be reassembled.
    pub all_segments: HashMap<u64, Arc<SealedSegment<K>>>,
    /// The live tombstones.
    pub working_deletions: DeletionVector,
    /// Per-point payloads, keyed by global id (collection-level, like deletions).
    pub payloads: PayloadMap,
    /// The version history.
    pub versions: VersionStore,
    /// The next global id to allocate.
    pub next_global_id: u64,
    /// The next segment id to allocate.
    pub next_segment_id: u64,
}

impl<K: Kernel> Collection<K> {
    /// All parts are well-formed and follow the configured metric and dimensionality.
    pub open spec fn wf(&self) -> bool {
        &&& self.config.dim > 0
        &&& self.kernel == K::kernel_for(self.config.metric, self.config.dim as nat)
        &&& self.kernel.spec_dim() == self.config.dim
        &&& self.kernel.spec_metric() == self.config.metric
        &&& self.appendable.wf()
        &&& self.appendable.vectors.kernel == self.kernel
        &&& segments_ok(self.kernel, self.working.sealed@)
        &&& forall|id: u64| #[trigger]
            self.all_segments@.contains_key(id) ==> {
                &&& self.all_segments@[id].wf()
                &&& self.all_segments@[id].index.kernel == self.kernel
                &&& self.all_segments@[id].id.0 == id
            }
        &&& self.working_deletions.wf()
        &&& self.versions.wf()
    }

    /// Whether some segment of the live view has the id, tombstoned or not.
    pub open spec fn has_point(&self, id: GlobalId) -> bool {
        self.appendable.global_ids().contains(id) || exists|i: int|
            0 <= i < self.working.sealed@.len() && (
            #[trigger] self.working.sealed@[i]).global_ids().contains(id)
    }

    /// The number of live points.
    pub open spec fn live_count(&self) -> nat {
        self.live_points().len()
    }

    /// Everything but the appendable segment, the payloads and the id allocator is as
    /// before.
    pub open spec fn same_but_for_writes(&self, after: Collection<K>) -> bool {
        &&& after.config == self.config
        &&& after.kernel == self.kernel
        &&& after.working == self.working
        &&& after.all_segments == self.all_segments
        &&& after.working_deletions == self.working_deletions
        &&& after.versions == self.versions
        &&& after.next_segment_id == self.next_segment_id
    }

    /// Creates an empty collection from `config`.
    pub fn create(config: CollectionConfig) -> (collection: Collection<K>)
        requires
            config.dim > 0,
        ensures
            collection.wf(),
            collection.consistent(),
            collection.config == config,
            collection.appendable.rows().len() == 0,
            collection.working.sealed@.len() == 0,
            collection.all_segments@ == Map::<u64, Arc<SealedSegment<K>>>::empty(),
            collection.working_deletions.ids() == Set::<u64>::empty(),
            collection.payloads@ == Map::<u64, Arc<Payload>>::empty(),
            collection.versions.versions().len() == 0,
            collection.versions.head is None,
            collection.versions.next_version == 0,
            collection.versions.branches.pairs().len() == 0,
            collection.versions.tags.pairs().len() == 0,
            collection.next_global_id == 0,
            collection.next_segment_id == 0,
    {
        let kernel = K::for_metric(config.metric, config.dim);
        Collection {
            config,
            kernel,
            appendable: AppendableSegment::new(kernel),
            working: SegmentSet::empty(),
            all_segments: HashMap::new(),
            working_deletions: DeletionVector::new(),
            payloads: HashMap::new(),
            versions: VersionStore::new(),
            next_global_id: 0,
            next_segment_id: 0,
        }
    }

    /// The collection's configuration.
    pub fn config(&self) -> (config: &CollectionConfig)
        ensures
            *config == self.config,
    {
        &self.config
    }

    /// The number of live points across all segments.
    pub fn len(&self) -> (n: usize)
        requires
            self.wf(),
            crate::segment::set::rows_in(self.working.sealed@) + self.appendable.rows().len() <= usize::MAX,
        ensures
            n == self.live_count(),
    {
        proof {
            points::lemma_kept_points_len(self.working.sealed@, self.working_deletions.ids());
            points::lemma_kept_rows_len(
                self.appendable.global_ids(),
                self.appendable.rows(),
                self.working_deletions.ids(),
                self.appendable.rows().len(),
            );
        }
        let sealed: usize = points::count_points(&self.working.sealed, &self.working_deletions);
        let unsealed: usize = points::count_kept::<K::Elem>(
            self.appendable.ids.global_ids(),
            &self.working_deletions,
            Ghost(self.appendable.rows()),
        );
        sealed + unsealed
    }

    /// Whether the collection has no live points.
    pub fn is_empty(&self) -> (r: bool)
        requires
            self.wf(),
            crate::segment::set::rows_in(self.working.sealed@) + self.appendable.rows().len() <= usize::MAX,
        ensures
            r == (self.live_count() == 0),
    {
        self.len() == 0
    }

    /// The number of sealed segments in the working set.
    pub fn sealed_count(&self) -> (n: usize)
        ensures
            n == self.working.sealed@.len(),
    {
        self.working.len()
    }

    /// Allocates the next global id (used by the durability layer before logging).
    pub fn alloc_global_id(&mut self) -> (id: GlobalId)
        requires
            old(self).next_global_id < u64::MAX,
        ensures
            id.0 == old(self).next_global_id,
            final(self).next_global_id == old(self).next_global_id + 1,
            old(self).same_but_for_writes(*final(self)),
            final(self).appendable == old(self).appendable,
            final(self).payloads == old(self).payloads,
    {
        let id = GlobalId::new(self.next_global_id);
        self.next_global_id = self.next_global_id + 1;
        id
    }

    /// Appends a vector under a specific global id, advancing the allocator past it. The
    /// single in-memory upsert apply path (live writes and recovery).
    pub fn insert_with_id(&mut self, id: GlobalId, vector: &[K::Elem]) -> (r: Result<(), CoreError>)
        requires
            old(self).wf(),
            id.0 < u64::MAX,
            old(self).appendable.rows().len() < u32::MAX,
        ensures
            final(self).wf(),
            old(self).same_but_for_writes(*final(self)),
            final(self).payloads@ == old(self).payloads@,
            old(self).upserts(*final(self), id, vector@, r),
    {
        self.insert_with_id_and_payload(id, vector, None)
    }

    /// Whether `after` is this collection with the vector appended under the id, or as
    /// before where the vector has the wrong length.
    pub open spec fn upserts(
        &self,
        after: Collection<K>,
        id: GlobalId,
        vector: Seq<K::Elem>,
        r: Result<(), CoreError>,
    ) -> bool {
        if vector.len() == self.config.dim {
            &&& r is Ok
            &&& after.appendable.rows() == self.appendable.rows().push(
                VectorStorage::ingested(self.kernel, vector),
            )
            &&& after.appendable.global_ids() == self.appendable.global_ids().push(id)
            &&& after.next_global_id == if self.next_global_id <= id.0 {
                id.0 + 1
            } else {
                self.next_global_id as int
            }
        } else {
            &&& r == Err::<(), CoreError>(
                CoreError::DimensionMismatch {
                    expected: self.config.dim,
                    got: vector.len() as usize,
                },
            )
            &&& after == *self
        }
    }

    /// Like [`Collection::insert_with_id`] but also stores a payload.
    pub fn insert_with_id_and_payload(
        &mut self,
        id: GlobalId,
        vector: &[K::Elem],
        payload: Option<Arc<Payload>>,
    ) -> (r: Result<(), CoreError>)
        requires
            old(self).wf(),
            id.0 < u64::MAX,
            old(self).appendable.rows().len() < u32::MAX,
        ensures
            final(self).wf(),
            old(self).same_but_for_writes(*final(self)),
            old(self).upserts(*final(self), id, vector@, r),
            final(self).payloads@ == match payload {
                Some(p) if r is Ok => old(self).payloads@.insert(id.0, p),
                _ => old(self).payloads@,
            },
    {
        self.check_dim(vector)?;
        let _ = self.appendable.append(id, vector);
        if self.next_global_id <= id.get() {
            self.next_global_id = id.get() + 1;
        }
        if let Some(p) = payload {
            let _ = self.payloads.insert(id.get(), p);
        }
        Ok(())
    }

    /// A snapshot copy of the payload map (for checkpoint persistence).
    pub fn payloads_snapshot(&self) -> (payloads: PayloadMap)
        ensures
            payloads@ == self.payloads@,
    {
        self.payloads.clone()
    }

    /// Refuses a vector of the wrong length.
    fn check_dim(&self, vector: &[K::Elem]) -> (r: Result<(), CoreError>)
        ensures
            r == if vector@.len() == self.config.dim {
                Ok::<(), CoreError>(())
            } else {
                Err(
                    CoreError::DimensionMismatch {
                        expected: self.config.dim,
                        got: vector@.len() as usize,
                    },
                )
            },
    {
        if vector.len() != self.config.dim {
            return Err(
                CoreError::DimensionMismatch { expected: self.config.dim, got: vector.len() },
            );
        }
        Ok(())
    }

    /// Inserts a single vector, returning its assigned global id. An id is used up even
    /// where the vector is refused.
    pub fn insert(&mut self, vector: &[K::Elem]) -> (r: Result<GlobalId, CoreError>)
        requires
            old(self).wf(),
            old(self).next_global_id < u64::MAX,
            old(self).appendable.rows().len() < u32::MAX,
        ensures
            final(self).wf(),
            old(self).same_but_for_writes(*final(self)),
            final(self).payloads@ == old(self).payloads@,
            final(self).next_global_id == old(self).next_global_id + 1,
            match r {
                Ok(id) => {
                    &&& vector@.len() == old(self).config.dim
                    &&& id.0 == old(self).next_global_id
                    &&& final(self).appendable.rows() == old(self).appendable.rows().push(
                        VectorStorage::ingested(old(self).kernel, vector@),
                    )
                    &&& final(self).appendable.global_ids()
                        == old(self).appendable.global_ids().push(id)
                },
                Err(e) => {
                    &&& vector@.len() != old(self).config.dim
                    &&& e == CoreError::DimensionMismatch {
                        expected: old(self).config.dim,
                        got: vector@.len() as usize,
                    }
                    &&& final(self).appendable == old(self).appendable
                },
            },
    {
        let id = self.alloc_global_id();
        self.insert_with_id(id, vector)?;
        Ok(id)
    }

    /// Inserts a batch of vectors, returning their ids. Nothing is inserted if any vector
    /// has the wrong length.
    pub fn insert_batch(&mut self, vectors: &Vec<Vec<K::Elem>>) -> (r: Result<
        Vec<GlobalId>,
        CoreError,
    >)
        requires
            old(self).wf(),
            old(self).next_global_id + vectors@.len() <= u64::MAX,
            old(self).appendable.rows().len() + vectors@.len() <= u32::MAX,
        ensures
            final(self).wf(),
            old(self).same_but_for_writes(*final(self)),
            final(self).payloads == old(self).payloads,
            match r {
                Ok(ids) => {
                    &&& forall|i: int|
                        0 <= i < vectors@.len() ==> (#[trigger] vectors@[i])@.len() == old(
                            self,
                        ).config.dim
                    &&& ids@ == ids_from(old(self).next_global_id, vectors@.len())
                    &&& final(self).appendable.rows() == old(self).appendable.rows() + all_ingested(
                        old(self).kernel,
                        distance::contents_of(vectors@),
                    )
                    &&& final(self).appendable.global_ids() == old(self).appendable.global_ids()
                        + ids@
                    &&& final(self).next_global_id == old(self).next_global_id + vectors@.len()
                },
                Err(e) => {
                    &&& exists|i: int|
                        0 <= i < vectors@.len() && (#[trigger] vectors@[i])@.len() != old(
                            self,
                        ).config.dim && (forall|j: int|
                            0 <= j < i ==> (#[trigger] vectors@[j])@.len() == old(self).config.dim)
                            && e == CoreError::DimensionMismatch {
                            expected: old(self).config.dim,
                            got: vectors@[i]@.len() as usize,
                        }
                    &&& *final(self) == *old(self)
                },
            },
    {
        let n: usize = vectors.len();
        for i in 0..n
            invariant
                n == vectors@.len(),
                self.wf(),
                *self == *old(self),
                forall|j: int| 0 <= j < i ==> (#[trigger] vectors@[j])@.len() == self.config.dim,
        {
            let checked = self.check_dim(vectors[i].as_slice());
            if let Err(e) = checked {
                return Err(e);
            }
        }
        let mut ids: Vec<GlobalId> = Vec::with_capacity(n);
        let ghost stored = all_ingested(self.kernel, distance::contents_of(vectors@));
        let ghost first = self.next_global_id;
        let ghost rows0 = self.appendable.rows();
        let ghost ids0 = self.appendable.global_ids();
        assert(rows0 + stored.take(0) =~= rows0);
        assert(ids0 + ids@ =~= ids0);
        for i in 0..n
            invariant
                n == vectors@.len(),
                self.wf(),
                old(self).same_but_for_writes(*self),
                self.payloads == old(self).payloads,
                self.next_global_id == first + i,
                first + n <= u64::MAX,
                rows0.len() + n <= u32::MAX,
                rows0.len() == ids0.len(),
                stored == all_ingested(old(self).kernel, distance::contents_of(vectors@)),
                forall|j: int|
                    0 <= j < vectors@.len() ==> (#[trigger] vectors@[j])@.len() == old(
                        self,
                    ).config.dim,
                ids@ == ids_from(first, i as nat),
                self.appendable.rows() == rows0 + stored.take(i as int),
                self.appendable.global_ids() == ids0 + ids@,
        {
            let id = self.alloc_global_id();
            let _ = self.appendable.append(id, vectors[i].as_slice());
            ids.push(id);
            proof {
                assert(distance::contents_of(vectors@)[i as int] == vectors@[i as int]@);
                assert(rows0 + stored.take(i + 1) =~= (rows0 + stored.take(i as int)).push(
                    stored[i as int],
                ));
                assert(ids@ =~= ids_from(first, (i + 1) as nat));
                assert(self.appendable.global_ids() =~= ids0 + ids@);
            }
        }
        assert(stored.take(n as int) =~= stored);
        Ok(ids)
    }

    /// Whether the live view has a point, tombstoned or not.
    fn contains_any(&self, global: GlobalId) -> (r: bool)
        requires
            self.wf(),
        ensures
            r == self.has_point(global),
    {
        if self.appendable.contains(global) {
            return true;
        }
        for i in 0..self.working.sealed.len()
            invariant
                self.wf(),
                !self.appendable.global_ids().contains(global),
                forall|j: int|
                    0 <= j < i ==> !(#[trigger] self.working.sealed@[j]).global_ids().contains(
                        global,
                    ),
        {
            if self.working.sealed[i].contains(global) {
                return true;
            }
        }
        false
    }

    /// Tombstones the point `global` in the live deletion vector. Returns whether it was
    /// newly deleted. Segments and committed versions are untouched.
    pub fn delete(&mut self, global: GlobalId) -> (newly: bool)
        requires
            old(self).wf(),
        ensures
            final(self).wf(),
            newly == (old(self).has_point(global) && !old(self).working_deletions.ids().contains(
                global.0,
            )),
            final(self).working_deletions.ids() == if old(self).has_point(global) {
                old(self).working_deletions.ids().insert(global.0)
            } else {
                old(self).working_deletions.ids()
            },
            final(self).config == old(self).config,
            final(self).kernel == old(self).kernel,
            final(self).appendable == old(self).appendable,
            final(self).working == old(self).working,
            final(self).all_segments == old(self).all_segments,
            final(self).payloads == old(self).payloads,
            final(self).versions == old(self).versions,
            final(self).next_global_id == old(self).next_global_id,
            final(self).next_segment_id == old(self).next_segment_id,
    {
        if !self.contains_any(global) {
            return false;
        }
        self.working_deletions.insert(global)
    }
}

} // verus!
