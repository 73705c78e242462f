//! Laws of a collection's history: what a sequence of operations leaves as it was, and what
//! a diff reports across them.

use std::sync::Arc;

use vstd::prelude::*;

use crate::collection::history;
use crate::collection::laws;
use crate::collection::points;
use crate::collection::query;
use crate::collection::Collection;
use crate::distance::Kernel;
use crate::id::GlobalId;
use crate::idset;
use crate::payload::Filter;
use crate::segment::SealedSegment;
use crate::sorting;
use crate::version::Diff;
use crate::version::RetentionRules;

verus! {

/// Whether a step leaves a version alone: it keeps the whole history, or it is a GC pass
/// that retains the version.
pub open spec fn leaves_version<K: Kernel>(
    before: Collection<K>,
    after: Collection<K>,
    version: u64,
) -> bool {
    ||| before.preserves_history(after)
    ||| exists|rules: RetentionRules|
        before.versions.retains(rules, version) && #[trigger] before.collects_to(rules, after)
}

/// Snapshot isolation over a whole history: however many operations follow a commit, as
/// long as no GC pass drops the version, its segments, its frozen deletions and its points
/// stay as they were, and a search as of it returns the same results. (Payloads are not
/// versioned: a filter sees the current ones.)
pub proof fn law_history_is_isolated<K: Kernel>(steps: Seq<Collection<K>>, version: u64, n: int)
    requires
        0 <= n < steps.len(),
        forall|i: int|
            0 <= i < steps.len() ==> (#[trigger] steps[i]).wf() && steps[i].consistent(),
        forall|i: int, j: int|
            0 <= i && j == i + 1 && j < steps.len() ==> leaves_version(
                #[trigger] steps[i],
                #[trigger] steps[j],
                version,
            ),
        steps[0].versions.exists_version(version),
    ensures
        steps[n].versions.exists_version(version),
        steps[n].versions.manifest(version) == steps[0].versions.manifest(version),
        steps[n].segments_at(version) == steps[0].segments_at(version),
        steps[n].deletions_at(version) == steps[0].deletions_at(version),
        steps[n].points_at(version) == steps[0].points_at(version),
        forall|q: Seq<K::Elem>, k: nat, filter: Option<&Filter>|
            filter is None || steps[n].payloads@ == steps[0].payloads@
                ==> #[trigger] steps[n].found_at(version, q, k, filter) == steps[0].found_at(
                version,
                q,
                k,
                filter,
            ),
    decreases n,
{
    if n > 0 {
        law_history_is_isolated(steps, version, n - 1);
        let before = steps[n - 1];
        let after = steps[n];
        assert(before.wf() && before.consistent() && after.wf());
        assert(leaves_version(before, after, version));
        if before.preserves_history(after) {
            history::law_snapshot_isolation(before, after, version);
        } else {
            let rules = choose|rules: RetentionRules|
                before.versions.retains(rules, version) && #[trigger] before.collects_to(
                    rules,
                    after,
                );
            history::law_gc_keeps_retained_versions(before, after, rules, version);
        }
        lemma_config_stays(steps, version, n);
        assert forall|q: Seq<K::Elem>, k: nat, filter: Option<&Filter>|
            filter is None || steps[n].payloads@ == steps[0].payloads@ implies #[trigger] steps[n].found_at(
            version,
            q,
            k,
            filter,
        ) == steps[0].found_at(version, q, k, filter) by {
            assert(query::live(steps[n].deletions_at(version), filter, steps[n].payloads@)
                =~= query::live(steps[0].deletions_at(version), filter, steps[0].payloads@));
        }
    }
}

/// No step changes the configuration.
proof fn lemma_config_stays<K: Kernel>(steps: Seq<Collection<K>>, version: u64, n: int)
    requires
        0 <= n < steps.len(),
        forall|i: int, j: int|
            0 <= i && j == i + 1 && j < steps.len() ==> leaves_version(
                #[trigger] steps[i],
                #[trigger] steps[j],
                version,
            ),
    ensures
        steps[n].config == steps[0].config,
    decreases n,
{
    if n > 0 {
        lemma_config_stays(steps, version, n - 1);
        assert(leaves_version(steps[n - 1], steps[n], version));
    }
}

/// What is live as of a version is what its segments store and it has not tombstoned.
pub proof fn law_live_at<K: Kernel>(collection: Collection<K>, version: u64, id: u64)
    requires
        collection.wf(),
    ensures
        collection.live_at(version, id) <==> !collection.deletions_at(version).contains(id)
            && points::stored_in(collection.segments_at(version), id),
{
    query::lemma_registered(
        collection.all_segments@,
        crate::version::manifest::ids_of(collection.versions.manifest(version).segments@),
    );
    points::lemma_kept_ids(
        collection.segments_at(version),
        collection.deletions_at(version),
        id,
    );
}

/// Diffing a version with itself finds nothing, and swapping the two versions swaps what
/// was added with what was removed.
pub proof fn law_diff_is_symmetric<K: Kernel>(
    collection: Collection<K>,
    a: u64,
    b: u64,
    ab: Diff,
    ba: Diff,
)
    requires
        idset::ascending(ab.added@),
        idset::ascending(ba.removed@),
        forall|id: u64| #[trigger]
            ab.added@.contains(id) <==> collection.live_at(b, id) && !collection.live_at(a, id),
        forall|id: u64| #[trigger]
            ba.removed@.contains(id) <==> collection.live_at(b, id) && !collection.live_at(a, id),
    ensures
        ab.added@ == ba.removed@,
        a == b ==> ab.added@.len() == 0,
{
    idset::law_ascending_unique(ab.added@, ba.removed@);
    if a == b && ab.added@.len() > 0 {
        assert(ab.added@.contains(ab.added@[0]));
    }
}

/// After a restore, a diff between the version and the one that restored it is empty: the
/// same points are live in both.
pub proof fn law_diff_of_restore_is_empty<K: Kernel>(
    before: Collection<K>,
    after: Collection<K>,
    version: u64,
    restored: u64,
    id: u64,
)
    requires
        before.wf(),
        before.consistent(),
        before.versions.exists_version(version),
        before.preserves_history(after),
        before.same_points(after),
        after.wf(),
        after.consistent(),
        after.working.sealed@ == before.segments_at(version),
        after.working_deletions.ids() == before.deletions_at(version),
        after.appendable.rows().len() == 0,
        after.versions.exists_version(restored),
        before.commit_of(after, after.versions.manifest(restored)),
    ensures
        after.points_at(restored) == after.points_at(version),
        after.live_at(restored, id) == after.live_at(version, id),
{
    laws::law_commit_freezes_live_view(after, restored);
    laws::law_restore_brings_back(before, after, version, Seq::empty(), 0, None);
    history::law_snapshot_isolation(before, after, version);
}

/// Compaction keeps exactly the ids that the working segments store.
pub proof fn law_compaction_keeps_ids<K: Kernel>(
    before: Collection<K>,
    segment: Arc<SealedSegment<K>>,
    id: u64,
)
    requires
        before.wf(),
        before.compacts_to(*segment),
    ensures
        points::stored_in(seq![segment], id) <==> points::stored_in(before.working.sealed@, id),
{
    let segments = before.working.sealed@;
    let all = points::kept_points(segments, Set::empty());
    let raw = points::ids_of(all);
    points::lemma_kept_ids(segments, Set::empty(), id);
    let order = choose|order: Seq<usize>|
        #[trigger] sorting::stable_order(raw, order) && before.is_sealed(
            *segment,
            before.next_segment_id,
            history::reordered_ids(all, order),
            history::reordered_rows(before.kernel, all, order),
        );
    sorting::law_stable_order_is_permutation(raw, order);
    let ids = segment.global_ids();
    let merged = seq![segment];
    assert(merged[0] == segment);
    if points::stored_in(merged, id) {
        let at = ids.index_of(GlobalId(id));
        assert(raw[order[at] as int] == ids[at].0);
    }
    if raw.contains(id) {
        let p = raw.index_of(id);
        laws::lemma_place_is_visited(raw, order, p);
        let i = choose|i: int| 0 <= i < order.len() && #[trigger] order[i] as int == p;
        assert(ids[i] == GlobalId(id));
    }
}

/// A diff across a compaction is empty: with nothing else changed, the version committed
/// before it and the one committed after it have the same live points, whatever ranges
/// their segments span.
pub proof fn law_diff_across_compaction_is_empty<K: Kernel>(
    before: Collection<K>,
    segment: Arc<SealedSegment<K>>,
    after: Collection<K>,
    earlier: u64,
    later: u64,
    id: u64,
)
    requires
        before.wf(),
        before.consistent(),
        before.appendable.rows().len() == 0,
        before.versions.exists_version(earlier),
        before.commit_of(before, before.versions.manifest(earlier)),
        before.compacts_to(*segment),
        before.preserves_history(after),
        after.wf(),
        after.consistent(),
        after.working.sealed@ == seq![segment],
        after.working_deletions.ids() == before.working_deletions.ids(),
        after.appendable.rows().len() == 0,
        after.versions.exists_version(later),
        after.commit_of(after, after.versions.manifest(later)),
    ensures
        after.live_at(earlier, id) == after.live_at(later, id),
{
    let dropped = before.working_deletions.ids();
    laws::law_commit_freezes_live_view(before, earlier);
    laws::law_commit_freezes_live_view(after, later);
    history::law_snapshot_isolation(before, after, earlier);
    law_compaction_keeps_ids(before, segment, id);
    points::lemma_kept_ids(before.working.sealed@, dropped, id);
    points::lemma_kept_ids(after.working.sealed@, dropped, id);
    let kept = points::kept_points(before.working.sealed@, dropped);
    assert(before.live_points() =~= kept);
    assert(after.live_points() =~= points::kept_points(after.working.sealed@, dropped));
}

} // verus!
