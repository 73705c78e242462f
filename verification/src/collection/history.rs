//! A collection's history: sealing, committing, restoring, compacting and collecting.

use std::sync::Arc;

use vstd::prelude::*;
use vstd::std_specs::hash::*;
use vstd::string::StringExecFns;

use crate::collection;
use crate::collection::points;
use crate::collection::query;
use crate::collection::recovery;
use crate::collection::Collection;
use crate::distance::Kernel;
use crate::error::CoreError;
use crate::id::GlobalId;
use crate::id::SegmentId;
use crate::idset;
use crate::index::HnswIndex;
use crate::payload::Filter;
use crate::segment::search;
use crate::segment::AppendableSegment;
use crate::segment::SealedSegment;
use crate::segment::SegmentSet;
use crate::sorting;
use crate::text;
use crate::vector::VectorStorage;
use crate::version::manifest;
use crate::version::policy::Clock;
use crate::version::store;
use crate::version::Diff;
use crate::version::Manifest;
use crate::version::RetentionRules;
use crate::version::SegmentRef;
use crate::version::SystemClock;
use crate::version::VersionError;

verus! {

broadcast use vstd::std_specs::hash::group_hash_axioms;

/// The reference to a segment: its id, the span of its global ids, and its rows. An empty
/// segment has none.
pub open spec fn ref_of<K: Kernel>(segment: SealedSegment<K>) -> Option<SegmentRef> {
    match search::id_span(segment.global_ids()) {
        Some((lo, hi)) => Some(
            SegmentRef {
                id: segment.id.0,
                id_lo: lo,
                id_hi: hi,
                count: segment.rows().len() as u64,
            },
        ),
        None => None,
    }
}

/// The references to the segments that have rows, in order.
pub open spec fn refs_of<K: Kernel>(segments: Seq<Arc<SealedSegment<K>>>) -> Seq<SegmentRef>
    decreases segments.len(),
{
    if segments.len() == 0 {
        Seq::empty()
    } else {
        let rest = refs_of(segments.drop_last());
        match ref_of(*segments.last()) {
            Some(r) => rest.push(r),
            None => rest,
        }
    }
}

/// The ids of points taken in the given order.
pub open spec fn reordered_ids<E>(all: Seq<(GlobalId, Seq<E>)>, order: Seq<usize>) -> Seq<GlobalId> {
    Seq::new(order.len(), |i: int| all[order[i] as int].0)
}

/// The vectors of points taken in the given order, in the form in which they are stored.
pub open spec fn reordered_rows<K: Kernel>(
    kernel: K,
    all: Seq<(GlobalId, Seq<K::Elem>)>,
    order: Seq<usize>,
) -> Seq<Seq<K::Elem>> {
    Seq::new(order.len(), |i: int| VectorStorage::ingested(kernel, all[order[i] as int].1))
}

/// Every reference names a segment of the list.
pub proof fn lemma_refs_of<K: Kernel>(segments: Seq<Arc<SealedSegment<K>>>)
    ensures
        forall|i: int|
            0 <= i < refs_of(segments).len() ==> exists|j: int|
                0 <= j < segments.len() && (#[trigger] segments[j]).id.0 == (
                #[trigger] refs_of(segments)[i]).id,
    decreases segments.len(),
{
    if segments.len() > 0 {
        let shorter = segments.drop_last();
        lemma_refs_of(shorter);
        assert forall|i: int| 0 <= i < refs_of(segments).len() implies exists|j: int|
            0 <= j < segments.len() && (#[trigger] segments[j]).id.0 == (
            #[trigger] refs_of(segments)[i]).id by {
            if i < refs_of(shorter).len() {
                assert(refs_of(shorter)[i] == refs_of(segments)[i]);
                let j = choose|j: int|
                    0 <= j < shorter.len() && (#[trigger] shorter[j]).id.0 == refs_of(shorter)[i].id;
                assert(segments[j] == shorter[j]);
            } else {
                assert(segments[segments.len() - 1].id.0 == refs_of(segments)[i].id);
            }
        }
    }
}

/// The references to segments listed by ascending id are listed by ascending id.
pub proof fn lemma_refs_ascend<K: Kernel>(segments: Seq<Arc<SealedSegment<K>>>)
    requires
        idset::ascending(recovery::segment_ids(segments)),
    ensures
        idset::ascending(manifest::ids_of(refs_of(segments))),
        forall|i: int|
            0 <= i < refs_of(segments).len() ==> segments.len() > 0 && (
            #[trigger] refs_of(segments)[i]).id <= segments.last().id.0,
    decreases segments.len(),
{
    if segments.len() > 0 {
        let shorter = segments.drop_last();
        let ids = recovery::segment_ids(segments);
        assert(idset::ascending(recovery::segment_ids(shorter))) by {
            assert forall|i: int, j: int| 0 <= i < j < shorter.len() implies (
            #[trigger] recovery::segment_ids(shorter)[i]) < (#[trigger] recovery::segment_ids(
                shorter,
            )[j]) by {
                assert(ids[i] < ids[j]);
            }
        }
        lemma_refs_ascend(shorter);
        if shorter.len() > 0 {
            assert(ids[shorter.len() - 1] < ids[segments.len() - 1]);
        }
        let refs = refs_of(segments);
        let fewer = refs_of(shorter);
        assert forall|i: int, j: int| 0 <= i < j < refs.len() implies (#[trigger] manifest::ids_of(
            refs,
        )[i]) < (#[trigger] manifest::ids_of(refs)[j]) by {
            assert(refs[i] == fewer[i]);
            if j < fewer.len() {
                assert(manifest::ids_of(fewer)[i] < manifest::ids_of(fewer)[j]);
            } else {
                assert(fewer[i].id <= shorter.last().id.0);
            }
        }
        assert forall|i: int| 0 <= i < refs.len() implies (#[trigger] refs[i]).id
            <= segments.last().id.0 by {
            if i < fewer.len() {
                assert(refs[i] == fewer[i]);
            }
        }
    }
}

/// The registered segments of an ascending list of ids are listed by ascending id.
pub proof fn lemma_registered_ascend<K: Kernel>(
    all: Map<u64, Arc<SealedSegment<K>>>,
    ids: Seq<u64>,
)
    requires
        idset::ascending(ids),
        forall|id: u64| #[trigger] all.contains_key(id) ==> all[id].id.0 == id,
    ensures
        idset::ascending(recovery::segment_ids(query::registered(all, ids))),
        forall|s: u64| #[trigger]
            recovery::segment_ids(query::registered(all, ids)).contains(s) <==> ids.contains(s)
                && all.contains_key(s),
    decreases ids.len(),
{
    let found = query::registered(all, ids);
    let listed = recovery::segment_ids(found);
    if ids.len() > 0 {
        let shorter = ids.drop_last();
        assert(idset::ascending(shorter)) by {
            assert forall|i: int, j: int| 0 <= i < j < shorter.len() implies (#[trigger] shorter[i])
                < (#[trigger] shorter[j]) by {
                assert(ids[i] < ids[j]);
            }
        }
        lemma_registered_ascend(all, shorter);
        let rest = query::registered(all, shorter);
        let fewer = recovery::segment_ids(rest);
        let last = ids.last();
        assert forall|i: int| 0 <= i < fewer.len() implies (#[trigger] fewer[i]) < last by {
            assert(fewer.contains(fewer[i]));
            let j = shorter.index_of(fewer[i]);
            assert(ids[j] < ids[ids.len() - 1]);
        }
        assert forall|i: int, j: int| 0 <= i < j < listed.len() implies (#[trigger] listed[i]) < (
        #[trigger] listed[j]) by {
            assert(listed[i] == fewer[i]);
            if j < fewer.len() {
                assert(listed[j] == fewer[j]);
            }
        }
        assert forall|s: u64| #[trigger] listed.contains(s) <==> ids.contains(s)
            && all.contains_key(s) by {
            assert(fewer.contains(s) <==> shorter.contains(s) && all.contains_key(s));
            if shorter.contains(s) {
                assert(ids[shorter.index_of(s)] == s);
            }
            if ids.contains(s) {
                let j = ids.index_of(s);
                if j < shorter.len() {
                    assert(shorter[j] == s);
                }
            }
            if fewer.contains(s) {
                assert(listed[fewer.index_of(s)] == s);
            }
            if listed.contains(s) {
                let j = listed.index_of(s);
                if j < fewer.len() {
                    assert(fewer[j] == s);
                } else {
                    assert(ids[ids.len() - 1] == s);
                }
            }
            if s == last && all.contains_key(s) {
                assert(listed[listed.len() - 1] == s);
            }
        }
    }
}

/// Without tombstones, every row is kept.
pub proof fn lemma_kept_rows_all<E>(ids: Seq<GlobalId>, rows: Seq<Seq<E>>, n: nat)
    ensures
        points::kept_rows(ids, rows, Set::empty(), n).len() == n,
    decreases n,
{
    if n > 0 {
        lemma_kept_rows_all(ids, rows, (n - 1) as nat);
    }
}

/// Without tombstones, segments hold as many points as rows.
pub proof fn lemma_kept_points_all<K: Kernel>(segments: Seq<Arc<SealedSegment<K>>>)
    ensures
        points::kept_points(segments, Set::empty()).len() == crate::segment::set::rows_in(segments),
    decreases segments.len(),
{
    if segments.len() > 0 {
        let last = segments.last();
        lemma_kept_points_all(segments.drop_last());
        lemma_kept_rows_all(last.global_ids(), last.rows(), last.rows().len());
    }
}

/// Registries that agree on every listed id give the same segments.
pub proof fn lemma_registered_agree<K: Kernel>(
    a: Map<u64, Arc<SealedSegment<K>>>,
    b: Map<u64, Arc<SealedSegment<K>>>,
    ids: Seq<u64>,
)
    requires
        forall|i: int|
            0 <= i < ids.len() ==> (a.contains_key(#[trigger] ids[i]) <==> b.contains_key(ids[i]))
                && (a.contains_key(ids[i]) ==> a[ids[i]] == b[ids[i]]),
    ensures
        query::registered(a, ids) == query::registered(b, ids),
    decreases ids.len(),
{
    if ids.len() > 0 {
        assert forall|i: int| 0 <= i < ids.drop_last().len() implies (a.contains_key(
            #[trigger] ids.drop_last()[i],
        ) <==> b.contains_key(ids.drop_last()[i])) && (a.contains_key(ids.drop_last()[i])
            ==> a[ids.drop_last()[i]] == b[ids.drop_last()[i]]) by {
            assert(ids.drop_last()[i] == ids[i]);
        }
        lemma_registered_agree(a, b, ids.drop_last());
        assert(ids.last() == ids[ids.len() - 1]);
    }
}

/// Lists the references to the segments that have rows.
fn list_refs<K: Kernel>(segments: &Vec<Arc<SealedSegment<K>>>) -> (refs: Vec<SegmentRef>)
    requires
        forall|i: int| 0 <= i < segments@.len() ==> (#[trigger] segments@[i]).wf(),
    ensures
        refs@ == refs_of(segments@),
{
    let mut refs: Vec<SegmentRef> = Vec::new();
    assert(refs_of(segments@.take(0)) =~= Seq::<SegmentRef>::empty());
    for i in 0..segments.len()
        invariant
            forall|i: int| 0 <= i < segments@.len() ==> (#[trigger] segments@[i]).wf(),
            refs@ == refs_of(segments@.take(i as int)),
    {
        proof {
            assert(segments@.take(i + 1).drop_last() =~= segments@.take(i as int));
            assert(segments@.take(i + 1).last() == segments@[i as int]);
        }
        let seg = &segments[i];
        if let Some((lo, hi)) = seg.global_id_range() {
            refs.push(
                SegmentRef { id: seg.id().get(), id_lo: lo, id_hi: hi, count: seg.len() as u64 },
            );
        }
    }
    assert(segments@.take(segments@.len() as int) =~= segments@);
    refs
}

impl<K: Kernel> Collection<K> {
    /// The allocators are ahead of everything allocated, the working segments are
    /// registered, segments are listed by ascending id, and `HEAD` exists.
    pub open spec fn consistent(&self) -> bool {
        &&& idset::ascending(recovery::segment_ids(self.working.sealed@))
        &&& forall|i: int|
            0 <= i < self.versions.commits@.len() ==> idset::ascending(
                manifest::ids_of((#[trigger] self.versions.commits@[i]).segments@),
            )
        &&& forall|id: u64| #[trigger]
            self.all_segments@.contains_key(id) ==> id < self.next_segment_id
        &&& forall|i: int, s: u64|
            0 <= i < self.versions.commits@.len() && #[trigger] self.versions.commits@[i].references(
                s,
            ) ==> s < self.next_segment_id
        &&& forall|i: int|
            0 <= i < self.working.sealed@.len() ==> self.all_segments@.contains_key(
                (#[trigger] self.working.sealed@[i]).id.0,
            ) && self.all_segments@[self.working.sealed@[i].id.0] == self.working.sealed@[i]
        &&& forall|v: u64| #[trigger]
            self.versions.exists_version(v) ==> v < self.versions.next_version
        &&& self.versions.head matches Some(h) ==> self.versions.exists_version(h)
    }

    /// Every manifest and every registered segment is still there, and whatever else is
    /// registered has a fresh id.
    pub open spec fn preserves_history(&self, after: Collection<K>) -> bool {
        &&& after.config == self.config
        &&& forall|i: int|
            0 <= i < self.versions.commits@.len() ==> after.versions.commits@.contains(
                #[trigger] self.versions.commits@[i],
            )
        &&& forall|id: u64| #[trigger]
            self.all_segments@.contains_key(id) ==> after.all_segments@.contains_key(id)
                && after.all_segments@[id] == self.all_segments@[id]
        &&& forall|id: u64| #[trigger]
            after.all_segments@.contains_key(id) && !self.all_segments@.contains_key(id) ==> id
                >= self.next_segment_id
    }

    /// Whether a segment is what sealing rows under the collection's configuration gives.
    pub open spec fn is_sealed(
        &self,
        segment: SealedSegment<K>,
        id: u64,
        ids: Seq<GlobalId>,
        rows: Seq<Seq<K::Elem>>,
    ) -> bool {
        &&& segment.wf()
        &&& segment.id.0 == id
        &&& segment.index.kernel == self.kernel
        &&& segment.index.config == self.config.hnsw
        &&& segment.index.graph.state() == HnswIndex::sequential_graph(
            *segment.index.vectors,
            self.config.hnsw,
        )
        &&& segment.index.deleted.ids() == Set::<u32>::empty()
        &&& segment.global_ids() == ids
        &&& segment.rows() == rows
    }

    /// Whether the segments of `after` are those of this collection with the appendable
    /// one sealed: nothing changes where it is empty.
    pub open spec fn seals_to(&self, after: Collection<K>) -> bool {
        if self.appendable.rows().len() == 0 {
            &&& after.appendable == self.appendable
            &&& after.working == self.working
            &&& after.all_segments == self.all_segments
            &&& after.next_segment_id == self.next_segment_id
        } else {
            let segment = after.working.sealed@.last();
            &&& after.appendable.rows().len() == 0
            &&& after.working.sealed@ == self.working.sealed@.push(segment)
            &&& after.all_segments@ == self.all_segments@.insert(self.next_segment_id, segment)
            &&& after.next_segment_id == self.next_segment_id + 1
            &&& self.is_sealed(
                *segment,
                self.next_segment_id,
                self.appendable.global_ids(),
                self.appendable.rows(),
            )
        }
    }

    /// Everything but the segments and the history is as before.
    pub open spec fn same_points(&self, after: Collection<K>) -> bool {
        &&& after.config == self.config
        &&& after.kernel == self.kernel
        &&& after.payloads == self.payloads
        &&& after.next_global_id == self.next_global_id
    }

    /// Whether `after` has the working state of `after` itself committed as `m`.
    pub open spec fn commit_of(&self, after: Collection<K>, m: Arc<Manifest>) -> bool {
        &&& m.segments@ == refs_of(after.working.sealed@)
        &&& m.deletions.ids() == after.working_deletions.ids()
        &&& m.wf()
    }

    /// Seals the current appendable segment into the working set + master registry.
    /// Returns the new segment id, or `None` if the appendable was empty.
    pub fn seal(&mut self) -> (sealed: Option<SegmentId>)
        requires
            old(self).wf(),
            old(self).next_segment_id < u64::MAX,
        ensures
            final(self).wf(),
            old(self).seals_to(*final(self)),
            old(self).same_points(*final(self)),
            final(self).working_deletions == old(self).working_deletions,
            final(self).versions == old(self).versions,
            sealed == if old(self).appendable.rows().len() == 0 {
                None
            } else {
                Some(SegmentId(old(self).next_segment_id))
            },
            old(self).consistent() ==> final(self).consistent() && old(self).preserves_history(
                *final(self),
            ),
    {
        if self.appendable.is_empty() {
            return None;
        }
        let id = SegmentId::new(self.next_segment_id);
        self.next_segment_id = self.next_segment_id + 1;
        let mut frozen = AppendableSegment::new(self.kernel);
        core::mem::swap(&mut frozen, &mut self.appendable);
        let sealed = Arc::new(frozen.seal(id, self.config.hnsw));
        let _ = self.all_segments.insert(id.get(), sealed.clone());
        self.working = self.working.with_appended(sealed);
        proof {
            let before = old(self).working.sealed@;
            assert(self.working.sealed@.last() == sealed);
            assert forall|i: int| 0 <= i < self.working.sealed@.len() implies (
            #[trigger] self.working.sealed@[i]).wf() && self.working.sealed@[i].index.kernel
                == self.kernel by {
                if i < before.len() {
                    assert(before[i].wf());
                }
            }
            if old(self).consistent() {
                assert forall|i: int| 0 <= i < self.working.sealed@.len() implies self.all_segments@.contains_key(
                    (#[trigger] self.working.sealed@[i]).id.0) && self.all_segments@[self.working.sealed@[i].id.0]
                    == self.working.sealed@[i] by {
                    if i < before.len() {
                        assert(old(self).all_segments@.contains_key(before[i].id.0));
                    }
                }
                let ids = recovery::segment_ids(self.working.sealed@);
                assert forall|i: int, j: int| 0 <= i < j < ids.len() implies (#[trigger] ids[i]) < (
                #[trigger] ids[j]) by {
                    let ids0 = recovery::segment_ids(before);
                    assert(ids[i] == ids0[i]);
                    assert(old(self).all_segments@.contains_key(before[i].id.0));
                    if j < before.len() {
                        assert(ids0[i] < ids0[j]);
                    }
                }
                assert forall|i: int| 0 <= i < old(self).versions.commits@.len() implies self.versions.commits@.contains(
                    #[trigger] old(self).versions.commits@[i]) by {}
            }
        }
        Some(id)
    }

    /// Commits the working state as a new version at the given time. Seals the appendable
    /// first so the version references only immutable segments.
    pub fn commit_at(
        &mut self,
        trigger: String,
        message: Option<String>,
        tag: Option<String>,
        now_ms: u64,
    ) -> (version: u64)
        requires
            old(self).wf(),
            old(self).next_segment_id < u64::MAX,
            old(self).versions.next_version < u64::MAX,
        ensures
            final(self).wf(),
            old(self).seals_to(*final(self)),
            old(self).same_points(*final(self)),
            final(self).working_deletions == old(self).working_deletions,
            version == old(self).versions.next_version,
            ({
                let m = final(self).versions.manifest(version);
                &&& final(self).versions.exists_version(version)
                &&& old(self).versions.commits_to(
                    final(self).versions,
                    m,
                    match tag {
                        Some(name) => Some(name@),
                        None => None,
                    },
                )
                &&& old(self).commit_of(*final(self), m)
                &&& m.created_at_ms == now_ms
                &&& m.trigger == trigger
                &&& m.message == message
            }),
            old(self).consistent() ==> final(self).consistent() && old(self).preserves_history(
                *final(self),
            ),
    {
        let _ = self.seal();
        let ghost sealed = *self;
        let segments = list_refs(&self.working.sealed);
        let deletions = self.working_deletions.clone();
        let m = self.versions.commit(trigger, message, tag, segments, deletions, now_ms);
        proof {
            let before = sealed.versions.commits@;
            let after = self.versions.commits@;
            store::lemma_with_commit(before, m);
            assert(after.contains(m));
            store::lemma_manifest_unique(self.versions, m);
            if old(self).consistent() {
                assert forall|i: int, s: u64|
                    0 <= i < after.len() && #[trigger] after[i].references(s) implies s
                    < self.next_segment_id by {
                    assert(after.contains(after[i]));
                    if after[i] != m {
                        let j = before.index_of(after[i]);
                        assert(before[j].references(s));
                    } else {
                        lemma_refs_of(self.working.sealed@);
                        let p = manifest::ids_of(m.segments@).index_of(s);
                        let r = refs_of(self.working.sealed@)[p];
                        assert(r.id == s);
                        let j = choose|j: int|
                            0 <= j < self.working.sealed@.len() && (
                            #[trigger] self.working.sealed@[j]).id.0 == r.id;
                        assert(self.all_segments@.contains_key(self.working.sealed@[j].id.0));
                    }
                }
                assert forall|i: int| 0 <= i < after.len() implies idset::ascending(
                    manifest::ids_of((#[trigger] after[i]).segments@),
                ) by {
                    assert(after.contains(after[i]));
                    if after[i] != m {
                        let j = before.index_of(after[i]);
                        assert(idset::ascending(manifest::ids_of(before[j].segments@)));
                    } else {
                        lemma_refs_ascend(self.working.sealed@);
                    }
                }
                assert forall|v: u64| #[trigger] self.versions.exists_version(v) implies v
                    < self.versions.next_version by {
                    assert(store::versions_of(after).contains(v));
                    if v != m.version {
                        assert(sealed.versions.exists_version(v));
                    }
                }
                assert forall|i: int| 0 <= i < before.len() implies after.contains(
                    #[trigger] before[i],
                ) by {
                    assert(before.contains(before[i]));
                    assert(store::versions_of(before)[i] == before[i].version);
                    assert(sealed.versions.exists_version(before[i].version));
                }
            }
        }
        m.version
    }

    /// Commits the working state as a new version, stamped with the system clock. Seals
    /// the appendable first so the version references only immutable segments.
    pub fn commit(&mut self, trigger: String, message: Option<String>, tag: Option<String>) -> (r:
        Result<u64, CoreError>)
        requires
            old(self).wf(),
            old(self).next_segment_id < u64::MAX,
            old(self).versions.next_version < u64::MAX,
        ensures
            final(self).wf(),
            old(self).seals_to(*final(self)),
            old(self).same_points(*final(self)),
            final(self).working_deletions == old(self).working_deletions,
            r == Ok::<u64, CoreError>(old(self).versions.next_version),
            ({
                let m = final(self).versions.manifest(old(self).versions.next_version);
                &&& final(self).versions.exists_version(old(self).versions.next_version)
                &&& old(self).versions.commits_to(
                    final(self).versions,
                    m,
                    match tag {
                        Some(name) => Some(name@),
                        None => None,
                    },
                )
                &&& old(self).commit_of(*final(self), m)
                &&& m.trigger == trigger
                &&& m.message == message
            }),
            old(self).consistent() ==> final(self).consistent() && old(self).preserves_history(
                *final(self),
            ),
    {
        let now: u64 = SystemClock.now_ms();
        Ok(self.commit_at(trigger, message, tag, now))
    }

    /// Restores the working state to `version`: a forward commit re-pointing the working
    /// segment set + deletions at the old version (history is preserved). Discards
    /// uncommitted appendable writes.
    pub fn restore(&mut self, version: u64) -> (r: Result<u64, CoreError>)
        requires
            old(self).wf(),
            old(self).next_segment_id < u64::MAX,
            old(self).versions.next_version < u64::MAX,
        ensures
            final(self).wf(),
            match r {
                Ok(restored) => {
                    let m = final(self).versions.manifest(restored);
                    &&& old(self).versions.exists_version(version)
                    &&& restored == old(self).versions.next_version
                    &&& old(self).same_points(*final(self))
                    &&& final(self).working.sealed@ == old(self).segments_at(version)
                    &&& final(self).working_deletions.ids() == old(self).deletions_at(version)
                    &&& final(self).appendable.rows().len() == 0
                    &&& final(self).all_segments == old(self).all_segments
                    &&& final(self).next_segment_id == old(self).next_segment_id
                    &&& final(self).versions.exists_version(restored)
                    &&& old(self).versions.commits_to(final(self).versions, m, None)
                    &&& old(self).commit_of(*final(self), m)
                    &&& m.trigger@ == "restore"@
                    &&& m.message matches Some(text) && text@ == "restore of v"@ + text::decimal(
                        version as nat,
                    )
                    &&& old(self).consistent() ==> final(self).consistent() && old(
                        self,
                    ).preserves_history(*final(self))
                },
                Err(e) => {
                    &&& !old(self).versions.exists_version(version)
                    &&& e matches CoreError::Version { detail } && detail@ == "no such version "@
                        + text::decimal(version as nat)
                    &&& *final(self) == *old(self)
                },
            },
    {
        let m = match self.versions.get(version) {
            Some(m) => m,
            None => {
                return Err(
                    CoreError::Version {
                        detail: "no such version ".to_owned().concat(
                            text::decimal_text(version).as_str(),
                        ),
                    },
                );
            },
        };
        let ids = m.segment_ids();
        let segments = query::gather_segments(&self.all_segments, &ids);
        proof {
            query::lemma_registered(self.all_segments@, ids@);
        }
        self.working = SegmentSet::from_sealed(segments);
        self.working_deletions = m.deletions.clone();
        self.appendable = AppendableSegment::new(self.kernel);
        let ghost middle = *self;
        proof {
            assert(collection::segments_ok(self.kernel, self.working.sealed@)) by {
                assert forall|i: int| 0 <= i < self.working.sealed@.len() implies (
                #[trigger] self.working.sealed@[i]).wf() && self.working.sealed@[i].index.kernel
                    == self.kernel by {
                    assert(query::in_registry(self.all_segments@, self.working.sealed@[i]));
                }
            }
            assert(old(self).consistent() ==> middle.consistent()) by {
                if old(self).consistent() {
                    let p = old(self).versions.versions().index_of(version);
                    assert(idset::ascending(
                        manifest::ids_of(old(self).versions.commits@[p].segments@),
                    ));
                    lemma_registered_ascend(self.all_segments@, ids@);
                }
                assert forall|i: int| 0 <= i < middle.working.sealed@.len() implies middle.all_segments@.contains_key(
                    (#[trigger] middle.working.sealed@[i]).id.0) && middle.all_segments@[middle.working.sealed@[i].id.0]
                    == middle.working.sealed@[i] by {
                    assert(query::in_registry(self.all_segments@, self.working.sealed@[i]));
                    let id = choose|id: u64| #[trigger]
                        self.all_segments@.contains_key(id) && self.all_segments@[id]
                            == self.working.sealed@[i];
                    assert(self.all_segments@[id].id.0 == id);
                }
            }
        }
        let message = "restore of v".to_owned().concat(text::decimal_text(version).as_str());
        self.commit("restore".to_owned(), Some(message), None)
    }

    /// Merges all working sealed segments into one, cutting search fan-out. The old
    /// segments stay in the master registry (so versions referencing them remain
    /// queryable) until GC. Returns the merged segment id, or `None` if there was nothing
    /// to merge. Tombstoned rows are carried along.
    pub fn compact(&mut self) -> (merged: Option<SegmentId>)
        requires
            old(self).wf(),
            old(self).next_segment_id < u64::MAX,
            crate::segment::set::rows_in(old(self).working.sealed@) <= u32::MAX,
        ensures
            final(self).wf(),
            old(self).same_points(*final(self)),
            final(self).appendable == old(self).appendable,
            final(self).working_deletions == old(self).working_deletions,
            final(self).versions == old(self).versions,
            merged == if old(self).working.sealed@.len() <= 1 {
                None
            } else {
                Some(SegmentId(old(self).next_segment_id))
            },
            merged is None ==> *final(self) == *old(self),
            merged is Some ==> {
                let segment = final(self).working.sealed@[0];
                &&& final(self).working.sealed@ == seq![segment]
                &&& final(self).all_segments@ == old(self).all_segments@.insert(
                    old(self).next_segment_id,
                    segment,
                )
                &&& final(self).next_segment_id == old(self).next_segment_id + 1
                &&& old(self).compacts_to(*segment)
            },
            old(self).consistent() ==> final(self).consistent() && old(self).preserves_history(
                *final(self),
            ),
    {
        if self.working.len() <= 1 {
            return None;
        }
        let rows = points::collect_points(&self.working.sealed, None, self.config.dim);
        let order = sorting::order_by_id(&points::raw_ids(&rows));
        let id = SegmentId::new(self.next_segment_id);
        self.next_segment_id = self.next_segment_id + 1;
        let mut merged = AppendableSegment::new(self.kernel);
        let n: usize = rows.len();
        let ghost all = points::pairs_of(rows@);
        let ghost ids = reordered_ids(all, order@);
        let ghost stored = reordered_rows(self.kernel, all, order@);
        proof {
            lemma_kept_points_all(old(self).working.sealed@);
            assert(ids.take(0) =~= Seq::<GlobalId>::empty());
            assert(stored.take(0) =~= Seq::<Seq<K::Elem>>::empty());
        }
        for i in 0..n
            invariant
                n == rows@.len(),
                n <= u32::MAX,
                self.kernel == old(self).kernel,
                self.kernel.spec_dim() == self.config.dim,
                points::all_of_dim(rows@, self.config.dim as nat),
                all == points::pairs_of(rows@),
                ids == reordered_ids(all, order@),
                stored == reordered_rows(self.kernel, all, order@),
                sorting::stable_order(points::ids_of(all), order@),
                merged.wf(),
                merged.vectors.kernel == self.kernel,
                merged.global_ids() == ids.take(i as int),
                merged.rows() == stored.take(i as int),
        {
            assert(order@[i as int] < n);
            let point = &rows[order[i]];
            let _ = merged.append(point.id, point.vector.as_slice());
            assert(merged.global_ids() =~= ids.take(i + 1));
            assert(merged.rows() =~= stored.take(i + 1));
        }
        let sealed = Arc::new(merged.seal(id, self.config.hnsw));
        proof {
            assert(ids.take(n as int) =~= ids);
            assert(stored.take(n as int) =~= stored);
            assert(old(self).compacts_to(*sealed));
        }
        let _ = self.all_segments.insert(id.get(), sealed.clone());
        let mut single: Vec<Arc<SealedSegment<K>>> = Vec::new();
        single.push(sealed);
        self.working = SegmentSet::from_sealed(single);
        proof {
            assert(self.working.sealed@ =~= seq![sealed]);
            if old(self).consistent() {
                assert forall|i: int| 0 <= i < old(self).versions.commits@.len() implies self.versions.commits@.contains(
                    #[trigger] old(self).versions.commits@[i]) by {}
            }
        }
        Some(id)
    }

    /// Whether a segment holds every row of the working segments, tombstoned or not, in
    /// stable id order, in the form in which they are stored when appended anew.
    pub open spec fn compacts_to(&self, segment: SealedSegment<K>) -> bool {
        let all = points::kept_points(self.working.sealed@, Set::empty());
        exists|order: Seq<usize>|
            #[trigger] sorting::stable_order(points::ids_of(all), order) && self.is_sealed(
                segment,
                self.next_segment_id,
                reordered_ids(all, order),
                reordered_rows(self.kernel, all, order),
            )
    }

    /// Whether GC drops a segment: no retained version references it, a dropped one does,
    /// and it is not in the working set.
    pub open spec fn collects(&self, rules: RetentionRules, segment: u64) -> bool {
        &&& self.versions.dropped_segment(rules, segment)
        &&& !self.versions.kept_segment(rules, segment)
        &&& forall|i: int|
            0 <= i < self.working.sealed@.len() ==> (#[trigger] self.working.sealed@[i]).id.0
                != segment
        &&& self.all_segments@.contains_key(segment)
    }

    /// Whether `after` has what a GC pass under the rules keeps: the retained manifests,
    /// and the registered segments but for the collected ones.
    pub open spec fn collects_to(&self, rules: RetentionRules, after: Collection<K>) -> bool {
        &&& after.config == self.config
        &&& forall|m: Arc<Manifest>| #[trigger]
            after.versions.commits@.contains(m) <==> self.versions.commits@.contains(m)
                && self.versions.retains(rules, m.version)
        &&& forall|s: u64| #[trigger]
            after.all_segments@.contains_key(s) <==> self.all_segments@.contains_key(s)
                && !self.collects(rules, s)
        &&& forall|s: u64| #[trigger]
            after.all_segments@.contains_key(s) ==> after.all_segments@[s]
                == self.all_segments@[s]
    }

    /// Runs a GC pass: drops versions not matched by `retention` and removes any segments
    /// no longer referenced by a retained version (but never a live working segment).
    /// Returns the dropped segment ids so the caller can delete their files.
    pub fn gc(&mut self, retention: &RetentionRules) -> (dropped: Vec<SegmentId>)
        requires
            old(self).wf(),
        ensures
            final(self).wf(),
            old(self).same_points(*final(self)),
            final(self).appendable == old(self).appendable,
            final(self).working == old(self).working,
            final(self).working_deletions == old(self).working_deletions,
            final(self).next_segment_id == old(self).next_segment_id,
            forall|i: int, j: int|
                0 <= i < j < dropped@.len() ==> (#[trigger] dropped@[i]).0 < (
                #[trigger] dropped@[j]).0,
            forall|s: u64| #[trigger]
                dropped@.contains(SegmentId(s)) <==> old(self).collects(*retention, s),
            old(self).collects_to(*retention, *final(self)),
            final(self).versions.head == old(self).versions.head,
            final(self).versions.branches == old(self).versions.branches,
            final(self).versions.tags == old(self).versions.tags,
            final(self).versions.next_version == old(self).versions.next_version,
            old(self).consistent() ==> final(self).consistent(),
    {
        let report = self.versions.gc(retention);
        let working_ids = self.sorted_working_ids();
        let mut dropped: Vec<SegmentId> = Vec::new();
        let orphans = report.orphan_segments;
        let ghost all = old(self).all_segments@;
        let ghost collected = self.versions;
        for i in 0..orphans.len()
            invariant
                old(self).wf(),
                self.versions == collected,
                idset::ascending(orphans@),
                idset::ascending(working_ids@),
                forall|s: u64| #[trigger]
                    working_ids@.contains(s) <==> exists|j: int|
                        0 <= j < old(self).working.sealed@.len() && (
                        #[trigger] old(self).working.sealed@[j]).id.0 == s,
                forall|s: u64| #[trigger]
                    orphans@.contains(s) <==> old(self).versions.dropped_segment(*retention, s)
                        && !old(self).versions.kept_segment(*retention, s),
                all == old(self).all_segments@,
                self.same_but_for_registry(*old(self)),
                forall|s: u64| #[trigger]
                    dropped@.contains(SegmentId(s)) <==> orphans@.take(i as int).contains(s)
                        && old(self).collects(*retention, s),
                forall|a: int, b: int|
                    0 <= a < b < dropped@.len() ==> (#[trigger] dropped@[a]).0 < (
                    #[trigger] dropped@[b]).0,
                forall|s: u64| #[trigger]
                    self.all_segments@.contains_key(s) <==> all.contains_key(s) && !dropped@.contains(
                        SegmentId(s),
                    ),
                forall|s: u64| #[trigger]
                    self.all_segments@.contains_key(s) ==> self.all_segments@[s] == all[s],
        {
            let sid: u64 = orphans[i];
            let ghost before = dropped@;
            let ghost registry = self.all_segments@;
            let ghost prefix = orphans@.take(i as int);
            let ghost longer = orphans@.take(i + 1);
            proof {
                assert(longer =~= prefix.push(sid));
                assert(orphans@.contains(sid));
                assert(!prefix.contains(sid)) by {
                    if prefix.contains(sid) {
                        let j = prefix.index_of(sid);
                        assert(orphans@[j] < orphans@[i as int]);
                    }
                }
                assert(!before.contains(SegmentId(sid)));
            }
            if !idset::holds(&working_ids, sid) {
                let found = self.all_segments.remove(&sid);
                if found.is_some() {
                    dropped.push(SegmentId::new(sid));
                }
            }
            proof {
                assert(old(self).collects(*retention, sid) <==> !working_ids@.contains(sid)
                    && all.contains_key(sid));
                assert forall|s: u64| #[trigger] dropped@.contains(SegmentId(s)) <==> longer.contains(s)
                    && old(self).collects(*retention, s) by {
                    if before.contains(SegmentId(s)) {
                        assert(dropped@[before.index_of(SegmentId(s))] == SegmentId(s));
                        assert(longer[prefix.index_of(s)] == s);
                    }
                    if dropped@.contains(SegmentId(s)) {
                        let j = dropped@.index_of(SegmentId(s));
                        if j < before.len() {
                            assert(before[j] == SegmentId(s));
                        } else {
                            assert(longer[i as int] == s);
                        }
                    }
                    if longer.contains(s) && old(self).collects(*retention, s) {
                        let j = longer.index_of(s);
                        if j < i {
                            assert(prefix[j] == s);
                        } else {
                            assert(dropped@[dropped@.len() - 1] == SegmentId(s));
                        }
                    }
                }
                assert forall|s: u64| #[trigger]
                    self.all_segments@.contains_key(s) <==> all.contains_key(s) && !dropped@.contains(
                        SegmentId(s),
                    ) by {
                    assert(registry.contains_key(s) <==> all.contains_key(s) && !before.contains(
                        SegmentId(s),
                    ));
                    if before.contains(SegmentId(s)) {
                        assert(dropped@[before.index_of(SegmentId(s))] == SegmentId(s));
                    }
                    if dropped@.contains(SegmentId(s)) {
                        let j = dropped@.index_of(SegmentId(s));
                        if j < before.len() {
                            assert(before[j] == SegmentId(s));
                        }
                    }
                    if dropped@.len() > before.len() && s == sid {
                        assert(dropped@[dropped@.len() - 1] == SegmentId(s));
                    }
                }
                assert forall|a: int, b: int| 0 <= a < b < dropped@.len() implies (
                #[trigger] dropped@[a]).0 < (#[trigger] dropped@[b]).0 by {
                    if b >= before.len() {
                        assert(before.contains(before[a]));
                        assert(SegmentId(before[a].0) == before[a]);
                        assert(prefix.contains(before[a].0));
                        let j = prefix.index_of(before[a].0);
                        assert(orphans@[j] < orphans@[i as int]);
                    }
                }
            }
        }
        proof {
            assert(orphans@.take(orphans@.len() as int) =~= orphans@);
            assert forall|s: u64| #[trigger] dropped@.contains(SegmentId(s)) <==> old(self).collects(
                *retention,
                s,
            ) by {
                if old(self).collects(*retention, s) {
                    assert(orphans@.contains(s));
                }
            }
            if old(self).consistent() {
                let before = old(self).versions.commits@;
                let after = self.versions.commits@;
                assert forall|i: int, s: u64|
                    0 <= i < after.len() && #[trigger] after[i].references(s) implies s
                    < self.next_segment_id by {
                    assert(after.contains(after[i]));
                    let j = before.index_of(after[i]);
                    assert(before[j].references(s));
                }
                assert forall|i: int| 0 <= i < after.len() implies idset::ascending(
                    manifest::ids_of((#[trigger] after[i]).segments@),
                ) by {
                    assert(after.contains(after[i]));
                    let j = before.index_of(after[i]);
                    assert(idset::ascending(manifest::ids_of(before[j].segments@)));
                }
                assert forall|v: u64| #[trigger] self.versions.exists_version(v) implies v
                    < self.versions.next_version by {
                    let j = self.versions.versions().index_of(v);
                    assert(after.contains(after[j]));
                    let p = before.index_of(after[j]);
                    assert(old(self).versions.versions()[p] == v);
                    assert(old(self).versions.exists_version(v));
                }
                if let Some(h) = self.versions.head {
                    assert(old(self).versions.exists_version(h));
                    let p = old(self).versions.versions().index_of(h);
                    assert(before.contains(before[p]));
                    assert(after.contains(before[p]));
                    let q = after.index_of(before[p]);
                    assert(self.versions.versions()[q] == h);
                }
                assert forall|i: int| 0 <= i < self.working.sealed@.len() implies self.all_segments@.contains_key(
                    (#[trigger] self.working.sealed@[i]).id.0) && self.all_segments@[self.working.sealed@[i].id.0]
                    == self.working.sealed@[i] by {
                    assert(all.contains_key(self.working.sealed@[i].id.0));
                    let s = self.working.sealed@[i].id.0;
                    assert(old(self).working.sealed@[i].id.0 == s);
                    assert(!old(self).collects(*retention, s));
                    assert(!dropped@.contains(SegmentId(s)));
                    assert(self.all_segments@.contains_key(s));
                }
            }
        }
        dropped
    }

    /// Everything but the registry and the history is as in `other`.
    pub open spec fn same_but_for_registry(&self, other: Collection<K>) -> bool {
        &&& self.config == other.config
        &&& self.kernel == other.kernel
        &&& self.appendable == other.appendable
        &&& self.working == other.working
        &&& self.working_deletions == other.working_deletions
        &&& self.payloads == other.payloads
        &&& self.next_global_id == other.next_global_id
        &&& self.next_segment_id == other.next_segment_id
    }

    /// The ids of the working segments, ascending.
    pub(crate) fn sorted_working_ids(&self) -> (ids: Vec<u64>)
        ensures
            idset::ascending(ids@),
            forall|s: u64| #[trigger]
                ids@.contains(s) <==> exists|j: int|
                    0 <= j < self.working.sealed@.len() && (
                    #[trigger] self.working.sealed@[j]).id.0 == s,
    {
        let mut ids: Vec<u64> = Vec::new();
        for i in 0..self.working.sealed.len()
            invariant
                idset::ascending(ids@),
                forall|s: u64| #[trigger]
                    ids@.contains(s) <==> exists|j: int|
                        0 <= j < i && (#[trigger] self.working.sealed@[j]).id.0 == s,
        {
            let ghost before = ids@;
            idset::include_id(&mut ids, self.working.sealed[i].id().get());
            proof {
                assert forall|s: u64| #[trigger] ids@.contains(s) <==> exists|j: int|
                    0 <= j < i + 1 && (#[trigger] self.working.sealed@[j]).id.0 == s by {
                    if before.contains(s) {
                        let j = choose|j: int|
                            0 <= j < i && (#[trigger] self.working.sealed@[j]).id.0 == s;
                        assert(self.working.sealed@[j].id.0 == s);
                    }
                    if s == self.working.sealed@[i as int].id.0 {
                        assert(self.working.sealed@[i as int].id.0 == s);
                    }
                    if exists|j: int|
                        0 <= j < i + 1 && (#[trigger] self.working.sealed@[j]).id.0 == s {
                        let j = choose|j: int|
                            0 <= j < i + 1 && (#[trigger] self.working.sealed@[j]).id.0 == s;
                        if j < i {
                            assert(before.contains(s));
                        }
                    }
                }
            }
        }
        ids
    }

    /// Diffs two versions' live id sets: the ids under which their segments hold rows, minus
    /// their tombstones.
    pub fn diff(&self, from: u64, to: u64) -> (r: Result<Diff, CoreError>)
        requires
            self.wf(),
        ensures
            match r {
                Ok(d) => {
                    &&& self.versions.exists_version(from)
                    &&& self.versions.exists_version(to)
                    &&& d.from == from
                    &&& d.to == to
                    &&& idset::ascending(d.added@)
                    &&& idset::ascending(d.removed@)
                    &&& forall|id: u64| #[trigger]
                        d.added@.contains(id) <==> self.live_at(to, id)
                            && !self.live_at(from, id)
                    &&& forall|id: u64| #[trigger]
                        d.removed@.contains(id) <==> self.live_at(from, id)
                            && !self.live_at(to, id)
                },
                Err(e) => {
                    &&& !(self.versions.exists_version(from) && self.versions.exists_version(to))
                    &&& e matches CoreError::Version { detail } && detail@
                        == VersionError::NoSuchVersion(
                        if !self.versions.exists_version(from) {
                            from
                        } else {
                            to
                        },
                    ).message()
                },
            },
    {
        let a = match self.versions.get(from) {
            Some(m) => m,
            None => {
                return Err(
                    CoreError::Version { detail: VersionError::NoSuchVersion(from).display() },
                );
            },
        };
        let b = match self.versions.get(to) {
            Some(m) => m,
            None => {
                return Err(
                    CoreError::Version { detail: VersionError::NoSuchVersion(to).display() },
                );
            },
        };
        let before = points::collect_live_ids(&self.segments_of(&a), &a.deletions);
        let after = points::collect_live_ids(&self.segments_of(&b), &b.deletions);
        Ok(
            Diff {
                from,
                to,
                added: idset::minus(&after, &before),
                removed: idset::minus(&before, &after),
            },
        )
    }

    /// Creates or moves a tag to a version.
    pub fn create_tag(&mut self, name: String, version: u64) -> (r: Result<(), CoreError>)
        requires
            old(self).wf(),
        ensures
            final(self).wf(),
            old(self).same_but_for_pointers(*final(self)),
            final(self).versions.branches == old(self).versions.branches,
            match r {
                Ok(_) => {
                    &&& old(self).versions.exists_version(version)
                    &&& forall|other: Seq<char>| #[trigger]
                        final(self).versions.tags.at(other) == if other == name@ {
                            Some(version)
                        } else {
                            old(self).versions.tags.at(other)
                        }
                },
                Err(e) => {
                    &&& !old(self).versions.exists_version(version)
                    &&& e matches CoreError::Version { detail } && detail@
                        == VersionError::NoSuchVersion(version).message()
                    &&& *final(self) == *old(self)
                },
            },
            old(self).consistent() ==> final(self).consistent() && old(self).preserves_history(
                *final(self),
            ),
    {
        let r = match self.versions.set_tag(name, version) {
            Ok(_) => Ok(()),
            Err(e) => Err(CoreError::Version { detail: e.display() }),
        };
        proof {
            if old(self).consistent() {
                law_pointers_preserve_history(*old(self), *self);
            }
        }
        r
    }

    /// Everything but the tags and branches is as before.
    pub open spec fn same_but_for_pointers(&self, after: Collection<K>) -> bool {
        &&& self.same_but_for_registry(after)
        &&& after.all_segments == self.all_segments
        &&& after.versions.commits == self.versions.commits
        &&& after.versions.head == self.versions.head
        &&& after.versions.next_version == self.versions.next_version
    }

    /// Creates or moves a branch to a version.
    pub fn create_branch(&mut self, name: String, version: u64) -> (r: Result<(), CoreError>)
        requires
            old(self).wf(),
        ensures
            final(self).wf(),
            old(self).same_but_for_pointers(*final(self)),
            final(self).versions.tags == old(self).versions.tags,
            match r {
                Ok(_) => {
                    &&& old(self).versions.exists_version(version)
                    &&& forall|other: Seq<char>| #[trigger]
                        final(self).versions.branches.at(other) == if other == name@ {
                            Some(version)
                        } else {
                            old(self).versions.branches.at(other)
                        }
                },
                Err(e) => {
                    &&& !old(self).versions.exists_version(version)
                    &&& e matches CoreError::Version { detail } && detail@
                        == VersionError::NoSuchVersion(version).message()
                    &&& *final(self) == *old(self)
                },
            },
            old(self).consistent() ==> final(self).consistent() && old(self).preserves_history(
                *final(self),
            ),
    {
        let r = match self.versions.set_branch(name, version) {
            Ok(_) => Ok(()),
            Err(e) => Err(CoreError::Version { detail: e.display() }),
        };
        proof {
            if old(self).consistent() {
                law_pointers_preserve_history(*old(self), *self);
            }
        }
        r
    }

    /// All committed versions, oldest first.
    pub fn list_versions(&self) -> (manifests: Vec<Arc<Manifest>>)
        ensures
            manifests@ == self.versions.commits@,
    {
        self.versions.list()
    }

    /// The current `HEAD` version, if any.
    pub fn head_version(&self) -> (head: Option<u64>)
        ensures
            head == self.versions.head,
    {
        self.versions.head()
    }
}

/// Moving tags and branches leaves the history as it was.
pub proof fn law_pointers_preserve_history<K: Kernel>(before: Collection<K>, after: Collection<K>)
    requires
        before.consistent(),
        before.same_but_for_pointers(after),
    ensures
        after.consistent(),
        before.preserves_history(after),
{
    assert(after.versions.versions() == before.versions.versions());
    assert forall|v: u64| #[trigger] after.versions.exists_version(v) implies v
        < after.versions.next_version by {
        assert(before.versions.exists_version(v));
    }
    assert forall|i: int| 0 <= i < before.versions.commits@.len() implies after.versions.commits@.contains(
        #[trigger] before.versions.commits@[i]) by {}
}

/// Writes and deletions leave the history as it was.
pub proof fn law_writes_preserve_history<K: Kernel>(before: Collection<K>, after: Collection<K>)
    requires
        before.consistent(),
        after.config == before.config,
        after.working == before.working,
        after.all_segments == before.all_segments,
        after.versions == before.versions,
        after.next_segment_id == before.next_segment_id,
    ensures
        after.consistent(),
        before.preserves_history(after),
{
    assert forall|i: int| 0 <= i < before.versions.commits@.len() implies after.versions.commits@.contains(
        #[trigger] before.versions.commits@[i]) by {}
}

/// Snapshot isolation: whatever happens to a collection short of a GC pass, a committed
/// version keeps its segments and its frozen deletions, and a search as of it returns the
/// same results. (Payloads are not versioned: a filter sees the current ones.)
pub proof fn law_snapshot_isolation<K: Kernel>(
    before: Collection<K>,
    after: Collection<K>,
    version: u64,
)
    requires
        before.wf(),
        after.wf(),
        before.consistent(),
        before.preserves_history(after),
        before.versions.exists_version(version),
    ensures
        after.versions.exists_version(version),
        after.versions.manifest(version) == before.versions.manifest(version),
        after.segments_at(version) == before.segments_at(version),
        after.deletions_at(version) == before.deletions_at(version),
        after.points_at(version) == before.points_at(version),
        forall|q: Seq<K::Elem>, k: nat, filter: Option<&Filter>|
            filter is None || after.payloads@ == before.payloads@ ==> #[trigger] after.found_at(
                version,
                q,
                k,
                filter,
            ) == before.found_at(version, q, k, filter),
{
    let i = before.versions.versions().index_of(version);
    let m = before.versions.commits@[i];
    assert(after.versions.commits@.contains(m));
    store::lemma_manifest_unique(after.versions, m);
    let ids = manifest::ids_of(m.segments@);
    assert forall|j: int| 0 <= j < ids.len() implies (before.all_segments@.contains_key(
        #[trigger] ids[j],
    ) <==> after.all_segments@.contains_key(ids[j])) && (before.all_segments@.contains_key(ids[j])
        ==> before.all_segments@[ids[j]] == after.all_segments@[ids[j]]) by {
        assert(ids.contains(ids[j]));
        assert(before.versions.commits@[i].references(ids[j]));
        if after.all_segments@.contains_key(ids[j]) && !before.all_segments@.contains_key(ids[j]) {
            assert(false);
        }
    }
    lemma_registered_agree(before.all_segments@, after.all_segments@, ids);
    assert forall|q: Seq<K::Elem>, k: nat, filter: Option<&Filter>|
        filter is None || after.payloads@ == before.payloads@ implies #[trigger] after.found_at(
        version,
        q,
        k,
        filter,
    ) == before.found_at(version, q, k, filter) by {
        assert(query::live(after.deletions_at(version), filter, after.payloads@) =~= query::live(
            before.deletions_at(version),
            filter,
            before.payloads@,
        ));
    }
}

/// GC keeps every retained version queryable: its manifest and all its segments survive,
/// and so do its points.
pub proof fn law_gc_keeps_retained_versions<K: Kernel>(
    before: Collection<K>,
    after: Collection<K>,
    rules: RetentionRules,
    version: u64,
)
    requires
        before.wf(),
        after.wf(),
        before.versions.exists_version(version),
        before.versions.retains(rules, version),
        before.collects_to(rules, after),
    ensures
        after.versions.exists_version(version),
        after.versions.manifest(version) == before.versions.manifest(version),
        after.segments_at(version) == before.segments_at(version),
        after.deletions_at(version) == before.deletions_at(version),
        after.points_at(version) == before.points_at(version),
{
    let i = before.versions.versions().index_of(version);
    let m = before.versions.commits@[i];
    assert(before.versions.commits@.contains(m));
    assert(after.versions.commits@.contains(m));
    store::lemma_manifest_unique(after.versions, m);
    let ids = manifest::ids_of(m.segments@);
    assert forall|j: int| 0 <= j < ids.len() implies (before.all_segments@.contains_key(
        #[trigger] ids[j],
    ) <==> after.all_segments@.contains_key(ids[j])) && (before.all_segments@.contains_key(ids[j])
        ==> before.all_segments@[ids[j]] == after.all_segments@[ids[j]]) by {
        assert(ids.contains(ids[j]));
        assert(before.versions.commits@[i].references(ids[j]));
        assert(before.versions.kept_segment(rules, ids[j]));
    }
    lemma_registered_agree(before.all_segments@, after.all_segments@, ids);
}

} // verus!
