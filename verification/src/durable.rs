//! Durable collections: write-ahead logging, crash recovery and checkpointing.
//!
//! The contract: a mutation is appended to the log and made durable **before** it is
//! acknowledged and applied in memory, so any acknowledged write survives a crash by being
//! replayed on the next open.
//!
//! Checkpointing keeps the log short: it seals the appendable into sealed segments,
//! persists them, then **switches to a fresh log generation** referenced by an
//! atomically-written `HEAD`. The ordering (segments durable, `HEAD` swapped, old log
//! retired) makes it crash-consistent: a crash before `HEAD` leaves the old generation
//! valid; a crash after leaves the new (empty) generation, so folded operations are never
//! applied twice.

use std::sync::Arc;

use vstd::prelude::*;
use vstd::std_specs::hash::*;

use crate::collection;
use crate::collection::history;
use crate::collection::points;
use crate::collection::query;
use crate::collection::recovery;
use crate::collection::Collection;
use crate::collection::CollectionConfig;
use crate::distance::Kernel;
use crate::error::CoreError;
use crate::id::GlobalId;
use crate::id::SegmentId;
use crate::idset;
use crate::payload::Filter;
use crate::payload::JsonValue;
use crate::payload::Payload;
use crate::payload::PayloadMap;
use crate::segment::SealedSegment;
use crate::vector::VectorStorage;
use crate::version::manifest;
use crate::version::store;
use crate::version::DeletionVector;
use crate::version::VersionStoreSnapshot;

verus! {

broadcast use vstd::std_specs::hash::group_hash_axioms;

/// The format version of the `HEAD` file.
pub const HEAD_FORMAT_VERSION: u32 = 1;

/// When to make the log durable.
#[derive(Debug, Clone, Copy, PartialEq, Eq, Structural)]
pub enum FsyncMode {
    /// Sync each write batch before acknowledging it (durable; the default).
    Sync,
    /// Don't sync (faster; acknowledged writes may be lost on power loss, but the log is
    /// never corrupted). For ephemeral use.
    Async,
}

/// A logged mutation. The single source of truth for both live apply and recovery.
#[derive(Debug)]
pub enum WalOp<E> {
    /// Insert a vector (and optional payload) under a specific global id.
    Upsert {
        /// The collection-global id assigned to this point.
        id: u64,
        /// The vector, as it was given.
        vector: Vec<E>,
        /// Optional JSON payload.
        payload: Option<Arc<Payload>>,
    },
    /// Tombstone a point by global id.
    Delete {
        /// The global id to delete.
        id: u64,
    },
}

/// A point to be written.
#[derive(Debug)]
pub struct NewPoint<E> {
    /// The vector.
    pub vector: Vec<E>,
    /// Optional JSON payload.
    pub payload: Option<Arc<Payload>>,
}

/// The persisted pointer to the latest durable state.
pub struct CheckpointHead {
    /// The log generation that continues from this state.
    pub wal_generation: u64,
    /// The persisted segments, ascending.
    pub sealed_ids: Vec<u64>,
    /// Those of the live working set.
    pub working_ids: Vec<u64>,
    /// The next global id to allocate.
    pub next_global_id: u64,
    /// The next segment id to allocate.
    pub next_segment_id: u64,
    /// The live tombstones, ascending.
    pub deletions: Vec<u64>,
    /// The payloads.
    pub payloads: PayloadMap,
    /// The version history.
    pub versions: VersionStoreSnapshot,
}

/// What to make durable at a checkpoint: the segments first, then the head.
pub struct Checkpoint<K: Kernel> {
    /// The segments to persist.
    pub segments: Vec<Arc<SealedSegment<K>>>,
    /// The head to write once they are durable.
    pub head: CheckpointHead,
}

/// What logged operations change in a collection.
#[verifier::ext_equal]
pub struct LiveState<E> {
    /// The ids of the appended rows.
    pub ids: Seq<GlobalId>,
    /// The appended rows.
    pub rows: Seq<Seq<E>>,
    /// The tombstones.
    pub deletions: Set<u64>,
    /// The payloads.
    pub payloads: Map<u64, Arc<JsonValue>>,
    /// The next global id to allocate.
    pub next_global: nat,
}

/// What one operation does. An upsert of the wrong length is skipped, and so is the
/// deletion of a point that is not there.
pub open spec fn step<K: Kernel>(
    kernel: K,
    dim: nat,
    sealed: Set<u64>,
    s: LiveState<K::Elem>,
    op: WalOp<K::Elem>,
) -> LiveState<K::Elem> {
    match op {
        WalOp::Upsert { id, vector, payload } => if vector@.len() == dim {
            LiveState {
                ids: s.ids.push(GlobalId(id)),
                rows: s.rows.push(VectorStorage::ingested(kernel, vector@)),
                deletions: s.deletions,
                payloads: match payload {
                    Some(p) => s.payloads.insert(id, p),
                    None => s.payloads,
                },
                next_global: if s.next_global <= id {
                    (id + 1) as nat
                } else {
                    s.next_global
                },
            }
        } else {
            s
        },
        WalOp::Delete { id } => if s.ids.contains(GlobalId(id)) || sealed.contains(id) {
            LiveState { deletions: s.deletions.insert(id), ..s }
        } else {
            s
        },
    }
}

/// What a list of operations does, in order.
pub open spec fn replayed<K: Kernel>(
    kernel: K,
    dim: nat,
    sealed: Set<u64>,
    s: LiveState<K::Elem>,
    ops: Seq<WalOp<K::Elem>>,
) -> LiveState<K::Elem>
    decreases ops.len(),
{
    if ops.len() == 0 {
        s
    } else {
        step(kernel, dim, sealed, replayed(kernel, dim, sealed, s, ops.drop_last()), ops.last())
    }
}

/// Whether an operation names an id that can be allocated.
pub open spec fn allocatable<E>(op: WalOp<E>) -> bool {
    op matches WalOp::Upsert { id, .. } ==> id < u64::MAX
}

impl<K: Kernel> Collection<K> {
    /// The part of the collection that logged operations change.
    pub open spec fn live_state(&self) -> LiveState<K::Elem> {
        LiveState {
            ids: self.appendable.global_ids(),
            rows: self.appendable.rows(),
            deletions: self.working_deletions.ids(),
            payloads: self.payloads@,
            next_global: self.next_global_id as nat,
        }
    }

    /// The ids that the working segments hold.
    pub open spec fn sealed_points(&self) -> Set<u64> {
        Set::new(
            |g: u64|
                exists|i: int|
                    0 <= i < self.working.sealed@.len() && (
                    #[trigger] self.working.sealed@[i]).global_ids().contains(GlobalId(g)),
        )
    }

    /// Everything but the live state is as before.
    pub open spec fn same_but_for_live(&self, after: Collection<K>) -> bool {
        &&& after.config == self.config
        &&& after.kernel == self.kernel
        &&& after.working == self.working
        &&& after.all_segments == self.all_segments
        &&& after.versions == self.versions
        &&& after.next_segment_id == self.next_segment_id
    }
}

/// Applies a single operation to the in-memory collection. The one apply path shared by
/// live writes and recovery.
pub fn apply_op<K: Kernel>(collection: &mut Collection<K>, op: &WalOp<K::Elem>)
    requires
        old(collection).wf(),
        allocatable(*op),
        old(collection).appendable.rows().len() < u32::MAX,
    ensures
        final(collection).wf(),
        old(collection).same_but_for_live(*final(collection)),
        final(collection).live_state() == step(
            old(collection).kernel,
            old(collection).config.dim as nat,
            old(collection).sealed_points(),
            old(collection).live_state(),
            *op,
        ),
{
    match op {
        WalOp::Upsert { id, vector, payload } => {
            // Recovery trusts the log; a dimension mismatch here would mean a corrupt
            // record that passed its checksum, which is skipped.
            let shared: Option<Arc<Payload>> = match payload {
                Some(p) => Some(p.clone()),
                None => None,
            };
            let _ = collection.insert_with_id_and_payload(
                GlobalId::new(*id),
                vector.as_slice(),
                shared,
            );
        },
        WalOp::Delete { id } => {
            let _ = collection.delete(GlobalId::new(*id));
        },
    }
    proof {
        let expected = step(
            old(collection).kernel,
            old(collection).config.dim as nat,
            old(collection).sealed_points(),
            old(collection).live_state(),
            *op,
        );
        assert(collection.live_state() =~= expected);
    }
}

/// Replays a list of operations.
pub fn replay<K: Kernel>(collection: &mut Collection<K>, ops: &Vec<WalOp<K::Elem>>)
    requires
        old(collection).wf(),
        forall|i: int| 0 <= i < ops@.len() ==> allocatable(#[trigger] ops@[i]),
        old(collection).appendable.rows().len() + ops@.len() <= u32::MAX,
    ensures
        final(collection).wf(),
        old(collection).same_but_for_live(*final(collection)),
        final(collection).live_state() == replayed(
            old(collection).kernel,
            old(collection).config.dim as nat,
            old(collection).sealed_points(),
            old(collection).live_state(),
            ops@,
        ),
{
    let ghost start = *collection;
    for i in 0..ops.len()
        invariant
            forall|i: int| 0 <= i < ops@.len() ==> allocatable(#[trigger] ops@[i]),
            start.appendable.rows().len() + ops@.len() <= u32::MAX,
            collection.wf(),
            start.same_but_for_live(*collection),
            collection.appendable.rows().len() <= start.appendable.rows().len() + i,
            collection.live_state() == replayed(
                start.kernel,
                start.config.dim as nat,
                start.sealed_points(),
                start.live_state(),
                ops@.take(i as int),
            ),
    {
        assert(ops@.take(i + 1).drop_last() =~= ops@.take(i as int));
        assert(collection.sealed_points() == start.sealed_points());
        let ghost rows = collection.live_state().rows;
        apply_op(collection, &ops[i]);
        assert(collection.live_state().rows.len() <= rows.len() + 1);
    }
    assert(ops@.take(ops@.len() as int) =~= ops@);
}

/// Checks a batch of points and assigns their ids: the operations to log. Nothing changes
/// but the id allocator, and not even that if a vector has the wrong length.
pub fn plan_upsert<K: Kernel>(collection: &mut Collection<K>, points: Vec<NewPoint<K::Elem>>) -> (r:
    Result<Vec<WalOp<K::Elem>>, CoreError>)
    requires
        old(collection).wf(),
        old(collection).next_global_id + points@.len() <= u64::MAX,
    ensures
        final(collection).wf(),
        match r {
            Ok(ops) => {
                &&& forall|i: int|
                    0 <= i < points@.len() ==> (#[trigger] points@[i]).vector@.len()
                        == old(collection).config.dim
                &&& ops@.len() == points@.len()
                &&& forall|i: int|
                    0 <= i < ops@.len() ==> (#[trigger] ops@[i]) == (WalOp::Upsert {
                        id: (old(collection).next_global_id + i) as u64,
                        vector: points@[i].vector,
                        payload: points@[i].payload,
                    })
                &&& *final(collection) == (Collection {
                    next_global_id: (old(collection).next_global_id + points@.len()) as u64,
                    ..*old(collection)
                })
            },
            Err(e) => {
                &&& exists|i: int|
                    0 <= i < points@.len() && (#[trigger] points@[i]).vector@.len()
                        != old(collection).config.dim && (forall|j: int|
                        0 <= j < i ==> (#[trigger] points@[j]).vector@.len()
                            == old(collection).config.dim) && e == CoreError::DimensionMismatch {
                        expected: old(collection).config.dim,
                        got: points@[i].vector@.len() as usize,
                    }
                &&& *final(collection) == *old(collection)
            },
        },
{
    let n: usize = points.len();
    let dim: usize = collection.config.dim;
    for i in 0..n
        invariant
            n == points@.len(),
            dim == collection.config.dim,
            collection.wf(),
            *collection == *old(collection),
            forall|j: int| 0 <= j < i ==> (#[trigger] points@[j]).vector@.len() == dim,
    {
        let got: usize = points[i].vector.len();
        if got != dim {
            return Err(CoreError::DimensionMismatch { expected: dim, got });
        }
    }
    let mut ops: Vec<WalOp<K::Elem>> = Vec::with_capacity(n);
    let ghost given = points@;
    let ghost first = collection.next_global_id;
    let mut left = points;
    // Vectors are moved out of the batch from its back, so ids count down at first.
    let mut reversed: Vec<WalOp<K::Elem>> = Vec::with_capacity(n);
    let mut next: u64 = collection.next_global_id + n as u64;
    while left.len() > 0
        invariant
            n == given.len(),
            first + n <= u64::MAX,
            left@ == given.take(left@.len() as int),
            left@.len() <= n,
            reversed@.len() == n - left@.len(),
            next == first + left@.len(),
            forall|i: int|
                0 <= i < reversed@.len() ==> (#[trigger] reversed@[i]) == (WalOp::Upsert {
                    id: (first + (n - 1 - i)) as u64,
                    vector: given[n - 1 - i].vector,
                    payload: given[n - 1 - i].payload,
                }),
        decreases left@.len(),
    {
        let ghost size = left@.len();
        match left.pop() {
            Some(point) => {
                next = next - 1;
                assert(point == given[size - 1]);
                assert(left@ =~= given.take(size - 1));
                reversed.push(
                    WalOp::Upsert { id: next, vector: point.vector, payload: point.payload },
                );
            },
            None => {},
        }
    }
    while reversed.len() > 0
        invariant
            n == given.len(),
            first + n <= u64::MAX,
            reversed@.len() + ops@.len() == n,
            forall|i: int|
                0 <= i < reversed@.len() ==> (#[trigger] reversed@[i]) == (WalOp::Upsert {
                    id: (first + (n - 1 - i)) as u64,
                    vector: given[n - 1 - i].vector,
                    payload: given[n - 1 - i].payload,
                }),
            forall|i: int|
                0 <= i < ops@.len() ==> (#[trigger] ops@[i]) == (WalOp::Upsert {
                    id: (first + i) as u64,
                    vector: given[i].vector,
                    payload: given[i].payload,
                }),
        decreases reversed@.len(),
    {
        match reversed.pop() {
            Some(op) => {
                ops.push(op);
            },
            None => {},
        }
    }
    collection.next_global_id = collection.next_global_id + n as u64;
    Ok(ops)
}

/// Seals the appendable segment and says what to make durable, continuing on the log
/// generation after `generation`.
pub fn begin_checkpoint<K: Kernel>(collection: &mut Collection<K>, generation: u64) -> (checkpoint:
    Checkpoint<K>)
    requires
        old(collection).wf(),
        old(collection).next_segment_id < u64::MAX,
        generation < u64::MAX,
    ensures
        final(collection).wf(),
        old(collection).seals_to(*final(collection)),
        old(collection).same_points(*final(collection)),
        final(collection).working_deletions == old(collection).working_deletions,
        final(collection).versions == old(collection).versions,
        old(collection).consistent() ==> final(collection).consistent(),
        checkpoint.head.wal_generation == generation + 1,
        is_checkpoint(*final(collection), checkpoint),
{
    let _ = collection.seal();
    let ids = collection.segment_ids_to_persist();
    let mut raw: Vec<u64> = Vec::with_capacity(ids.len());
    for i in 0..ids.len()
        invariant
            raw@.len() == i,
            forall|j: int| 0 <= j < i ==> (#[trigger] raw@[j]) == ids@[j].0,
    {
        raw.push(ids[i].get());
    }
    proof {
        assert(idset::ascending(raw@)) by {
            assert forall|i: int, j: int| 0 <= i < j < raw@.len() implies (#[trigger] raw@[i]) < (
            #[trigger] raw@[j]) by {
                assert(ids@[i].0 < ids@[j].0);
            }
        }
        assert forall|s: u64| #[trigger] raw@.contains(s) <==> collection.persists(s) by {
            if raw@.contains(s) {
                let i = raw@.index_of(s);
                assert(ids@[i] == SegmentId(s));
                assert(ids@.contains(SegmentId(s)));
            }
            if collection.persists(s) {
                assert(ids@.contains(SegmentId(s)));
                let i = ids@.index_of(SegmentId(s));
                assert(raw@[i] == s);
            }
        }
    }
    let segments = query::gather_segments(&collection.all_segments, &raw);
    let head = CheckpointHead {
        wal_generation: generation + 1,
        sealed_ids: raw,
        working_ids: collection.working_segment_ids(),
        next_global_id: collection.next_global_id_value(),
        next_segment_id: collection.next_segment_id_value(),
        deletions: collection.working_deletions.raw_ids(),
        payloads: collection.payloads_snapshot(),
        versions: collection.version_snapshot(),
    };
    Checkpoint { segments, head }
}

/// Whether a checkpoint records a collection whose appendable segment is empty.
pub open spec fn is_checkpoint<K: Kernel>(collection: Collection<K>, checkpoint: Checkpoint<K>) -> bool {
    let head = checkpoint.head;
    &&& collection.appendable.rows().len() == 0
    &&& idset::ascending(head.sealed_ids@)
    &&& forall|s: u64| #[trigger] head.sealed_ids@.contains(s) <==> collection.persists(s)
    &&& checkpoint.segments@ == query::registered(collection.all_segments@, head.sealed_ids@)
    &&& head.working_ids@ == recovery::segment_ids(collection.working.sealed@)
    &&& head.next_global_id == collection.next_global_id
    &&& head.next_segment_id == collection.next_segment_id
    &&& idset::ascending(head.deletions@)
    &&& forall|id: u64| #[trigger]
        head.deletions@.contains(id) <==> collection.working_deletions.ids().contains(id)
    &&& head.payloads@ == collection.payloads@
    &&& head.versions.manifests@ == collection.versions.commits@
    &&& head.versions.head == collection.versions.head
    &&& head.versions.branches.pairs() == collection.versions.branches.pairs()
    &&& head.versions.tags.pairs() == collection.versions.tags.pairs()
    &&& head.versions.next_version == collection.versions.next_version
}

/// Whether a collection is what a checkpoint is restored to.
pub open spec fn restores<K: Kernel>(
    head: CheckpointHead,
    segments: Seq<Arc<SealedSegment<K>>>,
    collection: Collection<K>,
) -> bool {
    &&& collection.appendable.rows().len() == 0
    &&& collection.all_segments@ == recovery::with_registered(Map::empty(), segments)
    &&& collection.working.sealed@ == recovery::chosen(segments, head.working_ids@)
    &&& collection.working_deletions.ids() == head.deletions@.to_set()
    &&& collection.payloads@ == head.payloads@
    &&& collection.versions.commits@ == store::with_commits(Seq::empty(), head.versions.manifests@)
    &&& collection.versions.head == head.versions.head
    &&& collection.versions.branches == head.versions.branches
    &&& collection.versions.tags == head.versions.tags
    &&& collection.versions.next_version == head.versions.next_version
    &&& collection.next_global_id == head.next_global_id
    &&& collection.next_segment_id == head.next_segment_id
}

/// Rebuilds a collection from a checkpoint and the segments it lists.
pub fn restore_checkpoint<K: Kernel>(
    config: CollectionConfig,
    head: CheckpointHead,
    segments: Vec<Arc<SealedSegment<K>>>,
) -> (collection: Collection<K>)
    requires
        config.dim > 0,
        collection::segments_ok(K::kernel_for(config.metric, config.dim as nat), segments@),
        head.versions.branches.wf(),
        head.versions.tags.wf(),
        forall|i: int|
            0 <= i < head.versions.manifests@.len() ==> (#[trigger] head.versions.manifests@[i]).wf(),
    ensures
        collection.wf(),
        collection.config == config,
        restores(head, segments@, collection),
{
    let mut collection: Collection<K> = Collection::create(config);
    collection.install_recovered(segments, &head.working_ids);
    collection.set_deletions(DeletionVector::from_raw_ids(&head.deletions));
    collection.set_payloads(head.payloads);
    collection.load_version_snapshot(head.versions);
    collection.set_allocators(head.next_global_id, head.next_segment_id);
    collection
}

/// Whether a reopened segment works with a collection's configuration.
pub fn fits_config<K: Kernel>(segment: &SealedSegment<K>, config: &CollectionConfig) -> (r: bool)
    requires
        segment.wf(),
    ensures
        r == (segment.index.kernel.spec_dim() == config.dim && segment.index.kernel.spec_metric()
            == config.metric),
{
    segment.index().vectors().dim() == config.dim && segment.metric() == config.metric
}

/// Logged writes survive a crash: replaying the operations of a batch from the state before
/// it gives the same state as applying them live, where the ids had been allocated first.
pub proof fn law_replay_reproduces_live_writes<K: Kernel>(
    kernel: K,
    dim: nat,
    sealed: Set<u64>,
    s: LiveState<K::Elem>,
    ops: Seq<WalOp<K::Elem>>,
)
    requires
        forall|i: int|
            0 <= i < ops.len() ==> (#[trigger] ops[i] matches WalOp::Upsert { id, vector, .. } && id
                == s.next_global + i && vector@.len() == dim),
    ensures
        replayed(kernel, dim, sealed, s, ops) == replayed(
            kernel,
            dim,
            sealed,
            LiveState { next_global: s.next_global + ops.len(), ..s },
            ops,
        ),
{
    lemma_replay_of_batch(kernel, dim, sealed, s, ops, ops.len());
}

/// The states differ in the allocator only, until the batch has caught up with it.
proof fn lemma_replay_of_batch<K: Kernel>(
    kernel: K,
    dim: nat,
    sealed: Set<u64>,
    s: LiveState<K::Elem>,
    ops: Seq<WalOp<K::Elem>>,
    ahead: nat,
)
    requires
        ops.len() <= ahead,
        forall|i: int|
            0 <= i < ops.len() ==> (#[trigger] ops[i] matches WalOp::Upsert { id, vector, .. } && id
                == s.next_global + i && vector@.len() == dim),
    ensures
        ({
            let a = replayed(kernel, dim, sealed, s, ops);
            let b = replayed(
                kernel,
                dim,
                sealed,
                LiveState { next_global: s.next_global + ahead, ..s },
                ops,
            );
            &&& a.next_global == s.next_global + ops.len()
            &&& b == (LiveState { next_global: s.next_global + ahead, ..a })
        }),
    decreases ops.len(),
{
    if ops.len() > 0 {
        let shorter = ops.drop_last();
        assert forall|i: int| 0 <= i < shorter.len() implies (
        #[trigger] shorter[i] matches WalOp::Upsert { id, vector, .. } && id == s.next_global + i
            && vector@.len() == dim) by {
            assert(shorter[i] == ops[i]);
        }
        lemma_replay_of_batch(kernel, dim, sealed, s, shorter, ahead);
        assert(ops.last() == ops[ops.len() - 1]);
    }
}

/// Every persisted segment is registered as itself, and nothing else is.
proof fn lemma_with_registered<K: Kernel>(segments: Seq<Arc<SealedSegment<K>>>, s: u64)
    requires
        idset::ascending(recovery::segment_ids(segments)),
    ensures
        recovery::with_registered(Map::empty(), segments).contains_key(s)
            <==> recovery::segment_ids(segments).contains(s),
        forall|i: int|
            0 <= i < segments.len() && (#[trigger] segments[i]).id.0 == s
                ==> recovery::with_registered(Map::empty(), segments)[s] == segments[i],
    decreases segments.len(),
{
    let ids = recovery::segment_ids(segments);
    if segments.len() > 0 {
        let shorter = segments.drop_last();
        let fewer = recovery::segment_ids(shorter);
        assert(idset::ascending(fewer)) by {
            assert forall|i: int, j: int| 0 <= i < j < fewer.len() implies (#[trigger] fewer[i]) < (
            #[trigger] fewer[j]) by {
                assert(ids[i] < ids[j]);
            }
        }
        lemma_with_registered(shorter, s);
        if fewer.contains(s) {
            assert(ids[fewer.index_of(s)] == s);
        }
        if ids.contains(s) {
            let i = ids.index_of(s);
            if i < fewer.len() {
                assert(fewer[i] == s);
            }
        }
        if s == segments.last().id.0 {
            assert(ids[ids.len() - 1] == s);
        }
        assert forall|i: int| 0 <= i < segments.len() && (#[trigger] segments[i]).id.0 == s implies
            recovery::with_registered(Map::empty(), segments)[s] == segments[i] by {
            if i < shorter.len() {
                assert(shorter[i] == segments[i]);
                assert(ids[i] < ids[ids.len() - 1]);
            }
        }
    }
}

/// The chosen segments are those whose id is listed.
proof fn lemma_chosen<K: Kernel>(segments: Seq<Arc<SealedSegment<K>>>, wanted: Seq<u64>)
    requires
        idset::ascending(recovery::segment_ids(segments)),
    ensures
        idset::ascending(recovery::segment_ids(recovery::chosen(segments, wanted))),
        forall|s: u64| #[trigger]
            recovery::segment_ids(recovery::chosen(segments, wanted)).contains(s)
                <==> recovery::segment_ids(segments).contains(s) && wanted.contains(s),
        forall|i: int|
            0 <= i < recovery::chosen(segments, wanted).len() ==> segments.contains(
                #[trigger] recovery::chosen(segments, wanted)[i],
            ),
    decreases segments.len(),
{
    let ids = recovery::segment_ids(segments);
    let picked = recovery::chosen(segments, wanted);
    let listed = recovery::segment_ids(picked);
    if segments.len() > 0 {
        let shorter = segments.drop_last();
        let fewer = recovery::segment_ids(shorter);
        assert(idset::ascending(fewer)) by {
            assert forall|i: int, j: int| 0 <= i < j < fewer.len() implies (#[trigger] fewer[i]) < (
            #[trigger] fewer[j]) by {
                assert(ids[i] < ids[j]);
            }
        }
        lemma_chosen(shorter, wanted);
        let rest = recovery::chosen(shorter, wanted);
        let kept = recovery::segment_ids(rest);
        let last = segments.last();
        assert forall|i: int, j: int| 0 <= i < j < listed.len() implies (#[trigger] listed[i]) < (
        #[trigger] listed[j]) by {
            assert(listed[i] == kept[i]);
            if j < kept.len() {
                assert(listed[j] == kept[j]);
            } else {
                assert(kept.contains(kept[i]));
                let p = fewer.index_of(kept[i]);
                assert(ids[p] < ids[ids.len() - 1]);
            }
        }
        assert forall|s: u64| #[trigger] listed.contains(s) <==> ids.contains(s) && wanted.contains(
            s,
        ) by {
            assert(kept.contains(s) <==> fewer.contains(s) && wanted.contains(s));
            if fewer.contains(s) {
                assert(ids[fewer.index_of(s)] == s);
            }
            if ids.contains(s) {
                let i = ids.index_of(s);
                if i < fewer.len() {
                    assert(fewer[i] == s);
                }
            }
            if kept.contains(s) {
                assert(listed[kept.index_of(s)] == s);
            }
            if listed.contains(s) {
                let i = listed.index_of(s);
                if i < kept.len() {
                    assert(kept[i] == s);
                } else {
                    assert(ids[ids.len() - 1] == s);
                }
            }
            if s == last.id.0 && wanted.contains(s) {
                assert(listed[listed.len() - 1] == s);
            }
        }
        assert forall|i: int| 0 <= i < picked.len() implies segments.contains(
            #[trigger] picked[i],
        ) by {
            if i < rest.len() {
                assert(rest[i] == picked[i]);
                assert(segments[shorter.index_of(rest[i])] == picked[i]);
            } else {
                assert(segments[segments.len() - 1] == picked[i]);
            }
        }
    }
}

/// A checkpoint survives a restart: a collection restored from it has the same working
/// segments, tombstones, payloads, history and allocators, finds the same points live, and
/// finds the same points as of every version.
pub proof fn law_checkpoint_survives_restart<K: Kernel>(
    collection: Collection<K>,
    checkpoint: Checkpoint<K>,
    restored: Collection<K>,
)
    requires
        collection.wf(),
        collection.consistent(),
        is_checkpoint(collection, checkpoint),
        restored.wf(),
        restored.config == collection.config,
        restores(checkpoint.head, checkpoint.segments@, restored),
    ensures
        restored.working.sealed@ == collection.working.sealed@,
        restored.working_deletions.ids() == collection.working_deletions.ids(),
        restored.payloads@ == collection.payloads@,
        restored.versions.commits@ == collection.versions.commits@,
        restored.versions.head == collection.versions.head,
        restored.next_global_id == collection.next_global_id,
        restored.next_segment_id == collection.next_segment_id,
        restored.live_points() == collection.live_points(),
        forall|v: u64|
            collection.versions.exists_version(v) ==> #[trigger] restored.segments_at(v)
                == collection.segments_at(v) && restored.deletions_at(v)
                == collection.deletions_at(v),
        forall|q: Seq<K::Elem>, k: nat, filter: Option<&Filter>| #[trigger]
            restored.found(q, k, filter) == collection.found(q, k, filter),
{
    let head = checkpoint.head;
    let segments = checkpoint.segments@;
    let all = collection.all_segments@;
    let working = collection.working.sealed@;
    let listed = recovery::segment_ids(segments);
    history::lemma_registered_ascend(all, head.sealed_ids@);
    query::lemma_registered(all, head.sealed_ids@);
    lemma_chosen(segments, head.working_ids@);
    let picked = recovery::chosen(segments, head.working_ids@);
    let picked_ids = recovery::segment_ids(picked);
    let working_ids = recovery::segment_ids(working);
    assert forall|s: u64| picked_ids.contains(s) <==> working_ids.contains(s) by {
        if working_ids.contains(s) {
            let i = working_ids.index_of(s);
            assert(all.contains_key(working[i].id.0));
            assert(collection.persists(s));
            assert(head.sealed_ids@.contains(s));
            assert(listed.contains(s));
        }
    }
    idset::law_ascending_unique(picked_ids, working_ids);
    assert forall|i: int| 0 <= i < picked.len() implies picked[i] == working[i] by {
        assert(segments.contains(picked[i]));
        let p = segments.index_of(picked[i]);
        assert(query::in_registry(all, segments[p]));
        assert(picked_ids[i] == working_ids[i]);
        assert(all.contains_key(working[i].id.0));
    }
    assert(picked =~= working);
    assert(restored.working_deletions.ids() =~= collection.working_deletions.ids()) by {
        assert forall|id: u64| head.deletions@.to_set().contains(id)
            <==> collection.working_deletions.ids().contains(id) by {
            assert(head.deletions@.to_set().contains(id) <==> head.deletions@.contains(id));
        }
    }
    store::lemma_with_commits_ascending(collection.versions.commits@);
    assert(restored.versions.versions() == collection.versions.versions());
    assert(restored.live_points() =~= collection.live_points());
    assert forall|v: u64| collection.versions.exists_version(v) implies
        #[trigger] restored.segments_at(v) == collection.segments_at(v) && restored.deletions_at(v)
        == collection.deletions_at(v) by {
        let p = collection.versions.versions().index_of(v);
        let m = collection.versions.commits@[p];
        assert(restored.versions.manifest(v) == m);
        let ids = manifest::ids_of(m.segments@);
        assert forall|j: int| 0 <= j < ids.len() implies (all.contains_key(#[trigger] ids[j])
            <==> restored.all_segments@.contains_key(ids[j])) && (all.contains_key(ids[j])
            ==> all[ids[j]] == restored.all_segments@[ids[j]]) by {
            let s = ids[j];
            lemma_with_registered(segments, s);
            assert(ids.contains(s));
            assert(collection.versions.commits@[p].references(s));
            assert(collection.persists(s));
            assert(head.sealed_ids@.contains(s));
            assert(listed.contains(s) <==> all.contains_key(s));
            if all.contains_key(s) {
                let i = listed.index_of(s);
                assert(segments[i].id.0 == s);
                assert(query::in_registry(all, segments[i]));
            }
        }
        history::lemma_registered_agree(all, restored.all_segments@, ids);
    }
    assert forall|q: Seq<K::Elem>, k: nat, filter: Option<&Filter>| #[trigger]
        restored.found(q, k, filter) == collection.found(q, k, filter) by {
        let keeps = query::live(collection.working_deletions.ids(), filter, collection.payloads@);
        collection::laws::lemma_empty_segment_finds_nothing(collection.appendable, q, k, keeps);
        collection::laws::lemma_empty_segment_finds_nothing(restored.appendable, q, k, keeps);
        assert(restored.appendable.results(q, k, keeps) =~= collection.appendable.results(
            q,
            k,
            keeps,
        ));
    }
}

/// Checkpointing is crash-consistent: before `HEAD` is swapped, recovery gives the state
/// that was sealed; afterwards it gives the restored checkpoint; and both hold the same
/// live points.
pub proof fn law_checkpoint_is_crash_consistent<K: Kernel>(
    before: Collection<K>,
    after: Collection<K>,
    checkpoint: Checkpoint<K>,
    restored: Collection<K>,
)
    requires
        before.wf(),
        before.seals_to(after),
        before.same_points(after),
        after.working_deletions == before.working_deletions,
        after.wf(),
        after.consistent(),
        is_checkpoint(after, checkpoint),
        restored.wf(),
        restored.config == after.config,
        restores(checkpoint.head, checkpoint.segments@, restored),
    ensures
        restored.live_points() == before.live_points(),
        restored.live_count() == before.live_count(),
        restored.payloads@ == before.payloads@,
        restored.next_global_id == before.next_global_id,
{
    collection::laws::law_seal_keeps_points(before, after);
    law_checkpoint_survives_restart(after, checkpoint, restored);
}

} // verus!
