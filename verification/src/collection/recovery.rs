//! Recovery and durability hooks.

use std::collections::HashSet;
use std::sync::Arc;

use vstd::prelude::*;
use vstd::std_specs::hash::*;

use crate::collection;
use crate::collection::Collection;
use crate::distance::Kernel;
use crate::id::SegmentId;
use crate::idset;
use crate::payload::PayloadMap;
use crate::segment::SealedSegment;
use crate::segment::SegmentSet;
use crate::version::store;
use crate::version::DeletionVector;
use crate::version::VersionStore;
use crate::version::VersionStoreSnapshot;

verus! {

broadcast use vstd::std_specs::hash::group_hash_axioms;

/// A registry with segments put under their ids, one after the other.
pub open spec fn with_registered<K: Kernel>(
    registry: Map<u64, Arc<SealedSegment<K>>>,
    segments: Seq<Arc<SealedSegment<K>>>,
) -> Map<u64, Arc<SealedSegment<K>>>
    decreases segments.len(),
{
    if segments.len() == 0 {
        registry
    } else {
        with_registered(registry, segments.drop_last()).insert(
            segments.last().id.0,
            segments.last(),
        )
    }
}

/// The segments whose id is listed, in their order.
pub open spec fn chosen<K: Kernel>(segments: Seq<Arc<SealedSegment<K>>>, ids: Seq<u64>) -> Seq<
    Arc<SealedSegment<K>>,
>
    decreases segments.len(),
{
    if segments.len() == 0 {
        Seq::empty()
    } else {
        let rest = chosen(segments.drop_last(), ids);
        if ids.contains(segments.last().id.0) {
            rest.push(segments.last())
        } else {
            rest
        }
    }
}

/// The ids of segments, in order.
pub open spec fn segment_ids<K: Kernel>(segments: Seq<Arc<SealedSegment<K>>>) -> Seq<u64> {
    Seq::new(segments.len(), |i: int| segments[i].id.0)
}

/// Raw ids as segment ids.
pub open spec fn as_segment_ids(raw: Seq<u64>) -> Seq<SegmentId> {
    Seq::new(raw.len(), |i: int| SegmentId(raw[i]))
}

impl<K: Kernel> Collection<K> {
    /// Whether a segment must be persisted: it is in the working set or some version
    /// references it.
    pub open spec fn persists(&self, segment: u64) -> bool {
        ||| segment_ids(self.working.sealed@).contains(segment)
        ||| exists|i: int|
            0 <= i < self.versions.commits@.len() && (
            #[trigger] self.versions.commits@[i]).references(segment)
    }

    /// Replaces the payload map (recovery).
    pub fn set_payloads(&mut self, payloads: PayloadMap)
        requires
            old(self).wf(),
        ensures
            final(self).wf(),
            *final(self) == (Collection { payloads, ..*old(self) }),
    {
        self.payloads = payloads;
    }

    /// A point-in-time snapshot of the working segment set.
    pub fn sealed_snapshot(&self) -> (working: SegmentSet<K>)
        ensures
            working.sealed@ == self.working.sealed@,
    {
        self.working.clone()
    }

    /// The live deletion vector (for checkpoint persistence).
    pub fn deletions_snapshot(&self) -> (deletions: DeletionVector)
        ensures
            deletions.ids() == self.working_deletions.ids(),
    {
        self.working_deletions.clone()
    }

    /// Installs recovered segments: `all` go into the master registry (so any past version
    /// is queryable), and those in `working_ids` form the live working set.
    pub fn install_recovered(
        &mut self,
        all: Vec<Arc<SealedSegment<K>>>,
        working_ids: &Vec<u64>,
    )
        requires
            old(self).wf(),
            collection::segments_ok(old(self).kernel, all@),
        ensures
            final(self).wf(),
            final(self).all_segments@ == with_registered(old(self).all_segments@, all@),
            final(self).working.sealed@ == chosen(all@, working_ids@),
            final(self).config == old(self).config,
            final(self).kernel == old(self).kernel,
            final(self).appendable == old(self).appendable,
            final(self).working_deletions == old(self).working_deletions,
            final(self).payloads == old(self).payloads,
            final(self).versions == old(self).versions,
            final(self).next_global_id == old(self).next_global_id,
            final(self).next_segment_id == old(self).next_segment_id,
    {
        let mut wanted: HashSet<u64> = HashSet::new();
        for i in 0..working_ids.len()
            invariant
                forall|s: u64| #[trigger]
                    wanted@.contains(s) <==> working_ids@.take(i as int).contains(s),
        {
            let ghost before = wanted@;
            let ghost prefix = working_ids@.take(i as int);
            let ghost longer = working_ids@.take(i + 1);
            let _ = wanted.insert(working_ids[i]);
            proof {
                assert(longer =~= prefix.push(working_ids@[i as int]));
                assert forall|s: u64| #[trigger] wanted@.contains(s) <==> longer.contains(s) by {
                    assert(before.contains(s) <==> prefix.contains(s));
                    if prefix.contains(s) {
                        assert(longer[prefix.index_of(s)] == s);
                    }
                    if s == working_ids@[i as int] {
                        assert(longer[i as int] == s);
                    }
                    if longer.contains(s) {
                        let j = longer.index_of(s);
                        if j < i {
                            assert(prefix[j] == s);
                        }
                    }
                }
            }
        }
        assert(working_ids@.take(working_ids@.len() as int) =~= working_ids@);
        let ghost registry = self.all_segments@;
        let mut working: Vec<Arc<SealedSegment<K>>> = Vec::new();
        assert(chosen(all@.take(0), working_ids@) =~= Seq::<Arc<SealedSegment<K>>>::empty());
        for i in 0..all.len()
            invariant
                collection::segments_ok(self.kernel, all@),
                forall|s: u64| #[trigger] wanted@.contains(s) <==> working_ids@.contains(s),
                self.wf(),
                self.all_segments@ == with_registered(registry, all@.take(i as int)),
                working@ == chosen(all@.take(i as int), working_ids@),
                collection::segments_ok(self.kernel, working@),
                self.config == old(self).config,
                self.kernel == old(self).kernel,
                self.appendable == old(self).appendable,
                self.working == old(self).working,
                self.working_deletions == old(self).working_deletions,
                self.payloads == old(self).payloads,
                self.versions == old(self).versions,
                self.next_global_id == old(self).next_global_id,
                self.next_segment_id == old(self).next_segment_id,
        {
            let seg = all[i].clone();
            let ghost before = self.all_segments@;
            let ghost chosen_before = working@;
            let id: u64 = seg.id().get();
            proof {
                assert(all@.take(i + 1).drop_last() =~= all@.take(i as int));
                assert(all@.take(i + 1).last() == seg);
                assert(all@[i as int].wf());
            }
            let _ = self.all_segments.insert(id, seg.clone());
            if wanted.contains(&id) {
                working.push(seg);
            }
            proof {
                assert forall|s: u64| #[trigger] self.all_segments@.contains_key(s) implies {
                    &&& self.all_segments@[s].wf()
                    &&& self.all_segments@[s].index.kernel == self.kernel
                    &&& self.all_segments@[s].id.0 == s
                } by {
                    if s != id {
                        assert(before.contains_key(s));
                    }
                }
                assert forall|j: int| 0 <= j < working@.len() implies (#[trigger] working@[j]).wf()
                    && working@[j].index.kernel == self.kernel by {
                    if j < chosen_before.len() {
                        assert(chosen_before[j].wf());
                    }
                }
            }
        }
        assert(all@.take(all@.len() as int) =~= all@);
        self.working = SegmentSet::from_sealed(working);
    }

    /// A serializable snapshot of the version history (for durable persistence).
    pub fn version_snapshot(&self) -> (snapshot: VersionStoreSnapshot)
        ensures
            snapshot.manifests@ == self.versions.commits@,
            snapshot.head == self.versions.head,
            snapshot.branches.pairs() == self.versions.branches.pairs(),
            snapshot.tags.pairs() == self.versions.tags.pairs(),
            snapshot.next_version == self.versions.next_version,
    {
        self.versions.snapshot()
    }

    /// Loads a persisted version history (recovery).
    pub fn load_version_snapshot(&mut self, snapshot: VersionStoreSnapshot)
        requires
            old(self).wf(),
            snapshot.branches.wf(),
            snapshot.tags.wf(),
            forall|i: int|
                0 <= i < snapshot.manifests@.len() ==> (#[trigger] snapshot.manifests@[i]).wf(),
        ensures
            final(self).wf(),
            *final(self) == (Collection { versions: final(self).versions, ..*old(self) }),
            final(self).versions.commits@ == store::with_commits(Seq::empty(), snapshot.manifests@),
            final(self).versions.head == snapshot.head,
            final(self).versions.branches == snapshot.branches,
            final(self).versions.tags == snapshot.tags,
            final(self).versions.next_version == snapshot.next_version,
    {
        self.versions = VersionStore::from_snapshot(snapshot);
    }

    /// A sealed segment by id (from the master registry).
    pub fn get_segment(&self, id: SegmentId) -> (segment: Option<Arc<SealedSegment<K>>>)
        ensures
            segment == if self.all_segments@.contains_key(id.0) {
                Some(self.all_segments@[id.0])
            } else {
                None
            },
    {
        match self.all_segments.get(&id.get()) {
            Some(seg) => Some(seg.clone()),
            None => None,
        }
    }

    /// All segment ids that must be persisted to keep every version queryable: the working
    /// set plus everything referenced by any committed version.
    pub fn segment_ids_to_persist(&self) -> (ids: Vec<SegmentId>)
        ensures
            forall|i: int, j: int|
                0 <= i < j < ids@.len() ==> (#[trigger] ids@[i]).0 < (#[trigger] ids@[j]).0,
            forall|s: u64| #[trigger] ids@.contains(SegmentId(s)) <==> self.persists(s),
    {
        let mut raw = self.sorted_working_ids();
        let ghost working = raw@;
        idset::include_all(&mut raw, &self.versions.all_referenced_segments());
        let mut ids: Vec<SegmentId> = Vec::with_capacity(raw.len());
        for i in 0..raw.len()
            invariant
                ids@ == as_segment_ids(raw@).take(i as int),
        {
            ids.push(SegmentId::new(raw[i]));
            assert(ids@ =~= as_segment_ids(raw@).take(i + 1));
        }
        proof {
            assert(ids@ =~= as_segment_ids(raw@));
            assert forall|i: int, j: int| 0 <= i < j < ids@.len() implies (#[trigger] ids@[i]).0 < (
            #[trigger] ids@[j]).0 by {
                assert(raw@[i] < raw@[j]);
            }
            assert forall|s: u64| #[trigger] ids@.contains(SegmentId(s)) <==> self.persists(s) by {
                let listed = segment_ids(self.working.sealed@);
                if ids@.contains(SegmentId(s)) {
                    let i = ids@.index_of(SegmentId(s));
                    assert(raw@[i] == s);
                    assert(raw@.contains(s));
                }
                if raw@.contains(s) {
                    assert(ids@[raw@.index_of(s)] == SegmentId(s));
                }
                if working.contains(s) {
                    let j = choose|j: int|
                        0 <= j < self.working.sealed@.len() && (
                        #[trigger] self.working.sealed@[j]).id.0 == s;
                    assert(listed[j] == s);
                }
                if listed.contains(s) {
                    let j = listed.index_of(s);
                    assert(self.working.sealed@[j].id.0 == s);
                    assert(working.contains(s));
                }
            }
        }
        ids
    }

    /// The ids of the live working set segments.
    pub fn working_segment_ids(&self) -> (ids: Vec<u64>)
        ensures
            ids@ == segment_ids(self.working.sealed@),
    {
        let mut ids: Vec<u64> = Vec::with_capacity(self.working.sealed.len());
        for i in 0..self.working.sealed.len()
            invariant
                ids@ == segment_ids(self.working.sealed@).take(i as int),
        {
            ids.push(self.working.sealed[i].id().get());
            assert(ids@ =~= segment_ids(self.working.sealed@).take(i + 1));
        }
        assert(ids@ =~= segment_ids(self.working.sealed@));
        ids
    }

    /// Sets the live deletion vector (recovery).
    pub fn set_deletions(&mut self, deletions: DeletionVector)
        requires
            old(self).wf(),
            deletions.wf(),
        ensures
            final(self).wf(),
            *final(self) == (Collection { working_deletions: deletions, ..*old(self) }),
    {
        self.working_deletions = deletions;
    }

    /// Sets the id allocators (recovery).
    pub fn set_allocators(&mut self, next_global: u64, next_segment: u64)
        requires
            old(self).wf(),
        ensures
            final(self).wf(),
            *final(self) == (Collection {
                next_global_id: next_global,
                next_segment_id: next_segment,
                ..*old(self)
            }),
    {
        self.next_global_id = next_global;
        self.next_segment_id = next_segment;
    }

    /// The next global id that would be allocated.
    pub fn next_global_id_value(&self) -> (id: u64)
        ensures
            id == self.next_global_id,
    {
        self.next_global_id
    }

    /// The next segment id that would be allocated.
    pub fn next_segment_id_value(&self) -> (id: u64)
        ensures
            id == self.next_segment_id,
    {
        self.next_segment_id
    }
}

} // verus!
