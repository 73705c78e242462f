//! What the operations on a collection leave alone, and what versions hold.

use std::sync::Arc;

use vstd::prelude::*;

use crate::collection::history;
use crate::collection::points;
use crate::collection::query;
use crate::collection::recovery;
use crate::collection::timeline;
use crate::collection::Collection;
use crate::collection::PointRecord;
use crate::distance::Kernel;
use crate::durable;
use crate::durable::Checkpoint;
use crate::id::GlobalId;
use crate::laws::retention;
use crate::payload::JsonValue;
use crate::segment::search;
use crate::segment::SealedSegment;
use crate::sorting;
use crate::version::manifest;
use crate::version::manifest::Manifest;
use crate::version::store;
use crate::version::RetentionRules;
use crate::version::SegmentRef;
use crate::version::VersionSelector;
use crate::version::VersionStore;

verus! {

/// A write changes nothing but the appendable segment, the payloads and the id allocator:
/// no segment, no tombstone, no version.
pub proof fn law_writes_touch_nothing_else<K: Kernel>(before: Collection<K>, after: Collection<K>)
    requires
        before.same_but_for_writes(after),
    ensures
        after.config == before.config,
        after.kernel == before.kernel,
        after.working == before.working,
        after.all_segments == before.all_segments,
        after.working_deletions == before.working_deletions,
        after.versions == before.versions,
        after.next_segment_id == before.next_segment_id,
{
}

/// Logged operations change nothing but the appended rows, the tombstones, the payloads and
/// the id allocator, and those are all that they are stated over.
pub proof fn law_logged_operations_touch_nothing_else<K: Kernel>(
    before: Collection<K>,
    after: Collection<K>,
)
    requires
        before.same_but_for_live(after),
    ensures
        after.config == before.config,
        after.kernel == before.kernel,
        after.working == before.working,
        after.all_segments == before.all_segments,
        after.versions == before.versions,
        after.next_segment_id == before.next_segment_id,
        after.live_state().ids == after.appendable.global_ids(),
        after.live_state().rows == after.appendable.rows(),
        after.live_state().deletions == after.working_deletions.ids(),
        after.live_state().payloads == after.payloads@,
        after.live_state().next_global == after.next_global_id,
{
}

/// What counts as sealed for logged operations is what the working segments store.
pub proof fn law_sealed_points_are_stored<K: Kernel>(collection: Collection<K>, id: u64)
    ensures
        collection.sealed_points().contains(id) <==> exists|i: int|
            0 <= i < collection.working.sealed@.len() && (
            #[trigger] collection.working.sealed@[i]).global_ids().contains(GlobalId(id)),
{
}

/// Sealing, committing, compacting, restoring and collecting leave the configuration, the
/// payloads and the id allocator alone.
pub proof fn law_history_keeps_payloads<K: Kernel>(before: Collection<K>, after: Collection<K>)
    requires
        before.same_points(after),
    ensures
        after.config == before.config,
        after.kernel == before.kernel,
        after.payloads == before.payloads,
        after.next_global_id == before.next_global_id,
{
}

/// Moving a tag or a branch changes nothing but the pointer.
pub proof fn law_pointers_touch_nothing_else<K: Kernel>(before: Collection<K>, after: Collection<K>)
    requires
        before.same_but_for_pointers(after),
    ensures
        after.config == before.config,
        after.kernel == before.kernel,
        after.appendable == before.appendable,
        after.working == before.working,
        after.all_segments == before.all_segments,
        after.working_deletions == before.working_deletions,
        after.payloads == before.payloads,
        after.next_global_id == before.next_global_id,
        after.next_segment_id == before.next_segment_id,
        after.versions.commits == before.versions.commits,
        after.versions.head == before.versions.head,
        after.versions.next_version == before.versions.next_version,
{
}

/// An upsert of the right length succeeds, appends its row under its id in the form in which
/// rows are stored, and moves the allocator past the id; one of the wrong length is refused
/// and changes nothing.
pub proof fn law_upsert_appends_one_row<K: Kernel>(
    before: Collection<K>,
    after: Collection<K>,
    id: GlobalId,
    vector: Seq<K::Elem>,
    r: Result<(), crate::error::CoreError>,
)
    requires
        before.upserts(after, id, vector, r),
        id.0 < u64::MAX,
    ensures
        r is Ok <==> vector.len() == before.config.dim,
        r is Err ==> after == before,
        r is Ok ==> {
            &&& after.appendable.global_ids() == before.appendable.global_ids().push(id)
            &&& after.appendable.rows().len() == before.appendable.rows().len() + 1
            &&& after.appendable.rows().drop_last() == before.appendable.rows()
            &&& after.appendable.rows().last() == if before.kernel.spec_metric() is Cosine {
                before.kernel.spec_normalized(vector)
            } else {
                vector
            }
            &&& after.next_global_id > id.0
            &&& after.next_global_id == before.next_global_id || after.next_global_id == id.0 + 1
            &&& before.next_global_id > id.0 ==> after.next_global_id == before.next_global_id
        },
{
    if r is Ok {
        assert(after.appendable.rows().drop_last() =~= before.appendable.rows());
    }
}

/// The live points of a segment are its rows in order, but for those of tombstoned points.
pub proof fn law_kept_rows_are_the_untombstoned<E>(
    ids: Seq<GlobalId>,
    rows: Seq<Seq<E>>,
    dropped: Set<u64>,
    n: nat,
)
    ensures
        points::kept_rows(ids, rows, dropped, n) == Seq::new(
            n,
            |i: int| (ids[i], rows[i]),
        ).filter(|p: (GlobalId, Seq<E>)| !dropped.contains(p.0.0)),
    decreases n,
{
    reveal(Seq::filter);
    let all = Seq::new(n, |i: int| (ids[i], rows[i]));
    if n > 0 {
        let m = (n - 1) as nat;
        law_kept_rows_are_the_untombstoned(ids, rows, dropped, m);
        assert(all.drop_last() =~= Seq::new(m, |i: int| (ids[i], rows[i])));
        assert(all.last() == (ids[n - 1], rows[n - 1]));
    }
}

/// The points of segments are those of each, one segment after the other.
pub proof fn law_points_of_segments_follow_each_other<K: Kernel>(
    segments: Seq<Arc<SealedSegment<K>>>,
    segment: Arc<SealedSegment<K>>,
    dropped: Set<u64>,
)
    ensures
        points::kept_points(Seq::<Arc<SealedSegment<K>>>::empty(), dropped).len() == 0,
        points::kept_points(segments.push(segment), dropped) == points::kept_points(
            segments,
            dropped,
        ) + Seq::new(
            segment.rows().len(),
            |i: int| (segment.global_ids()[i], segment.rows()[i]),
        ).filter(|p: (GlobalId, Seq<K::Elem>)| !dropped.contains(p.0.0)),
{
    assert(segments.push(segment).drop_last() =~= segments);
    law_kept_rows_are_the_untombstoned(
        segment.global_ids(),
        segment.rows(),
        dropped,
        segment.rows().len(),
    );
}

/// The live view is the working segments' points followed by those of the appendable one; a
/// past version is its segments' points; each without what is tombstoned there.
pub proof fn law_views_are_points_of_segments<K: Kernel>(collection: Collection<K>, version: u64)
    ensures
        collection.live_points() == points::kept_points(
            collection.working.sealed@,
            collection.working_deletions.ids(),
        ) + Seq::new(
            collection.appendable.rows().len(),
            |i: int| (collection.appendable.global_ids()[i], collection.appendable.rows()[i]),
        ).filter(
            |p: (GlobalId, Seq<K::Elem>)| !collection.working_deletions.ids().contains(p.0.0),
        ),
        collection.points_at(version) == points::kept_points(
            collection.segments_at(version),
            collection.versions.manifest(version).deletions.ids(),
        ),
        collection.live_count() == collection.live_points().len(),
{
    law_kept_rows_are_the_untombstoned(
        collection.appendable.global_ids(),
        collection.appendable.rows(),
        collection.working_deletions.ids(),
        collection.appendable.rows().len(),
    );
}

/// A point is live as of a version exactly if one of the version's segments has a row under
/// it and the version has not tombstoned it; it is in the live view exactly if a working or
/// the appendable segment has a row under it.
pub proof fn law_membership_is_by_stored_rows<K: Kernel>(
    collection: Collection<K>,
    version: u64,
    id: u64,
)
    requires
        collection.wf(),
    ensures
        collection.live_at(version, id) <==> {
            &&& !collection.versions.manifest(version).deletions.ids().contains(id)
            &&& exists|i: int|
                0 <= i < collection.segments_at(version).len() && (
                #[trigger] collection.segments_at(version)[i]).global_ids().contains(GlobalId(id))
        },
        collection.has_point(GlobalId(id)) <==> {
            ||| collection.appendable.global_ids().contains(GlobalId(id))
            ||| exists|i: int|
                0 <= i < collection.working.sealed@.len() && (
                #[trigger] collection.working.sealed@[i]).global_ids().contains(GlobalId(id))
        },
{
    timeline::law_live_at(collection, version, id);
}

/// Sealing moves the rows of the appendable segment, as they are and under their ids, into a
/// new segment at the end of the working set; where there are none it does nothing.
pub proof fn law_seal_moves_the_rows<K: Kernel>(before: Collection<K>, after: Collection<K>)
    requires
        before.seals_to(after),
    ensures
        before.appendable.rows().len() == 0 ==> after.working == before.working
            && after.appendable == before.appendable && after.all_segments == before.all_segments
            && after.next_segment_id == before.next_segment_id,
        before.appendable.rows().len() > 0 ==> {
            let segment = after.working.sealed@.last();
            &&& after.appendable.rows().len() == 0
            &&& after.working.sealed@ == before.working.sealed@.push(segment)
            &&& segment.id.0 == before.next_segment_id
            &&& segment.global_ids() == before.appendable.global_ids()
            &&& segment.rows() == before.appendable.rows()
            &&& segment.index.deleted.ids() == Set::<u32>::empty()
            &&& after.all_segments@.contains_key(segment.id.0)
            &&& after.all_segments@[segment.id.0] == segment
            &&& forall|id: u64|
                id != segment.id.0 ==> #[trigger] after.all_segments@.contains_key(id)
                    == before.all_segments@.contains_key(id)
            &&& forall|id: u64|
                id != segment.id.0 && before.all_segments@.contains_key(id)
                    ==> #[trigger] after.all_segments@[id] == before.all_segments@[id]
            &&& after.next_segment_id == before.next_segment_id + 1
        },
{
}

/// The reference to a segment spans its ids and counts its rows.
pub proof fn law_reference_spans_its_segment<K: Kernel>(segment: &SealedSegment<K>)
    requires
        segment.wf(),
    ensures
        history::ref_of(*segment) is None <==> segment.global_ids().len() == 0,
        history::ref_of(*segment) matches Some(r) ==> {
            &&& r.id == segment.id.0
            &&& r.count == segment.rows().len()
            &&& segment.global_ids().contains(GlobalId(r.id_lo))
            &&& segment.global_ids().contains(GlobalId(r.id_hi))
            &&& forall|i: int|
                0 <= i < segment.global_ids().len() ==> r.id_lo <= (
                #[trigger] segment.global_ids()[i]).0 <= r.id_hi
        },
{
    search::law_id_span(segment.global_ids());
}

/// A commit lists the working segments that have rows, in order, and freezes the tombstones.
pub proof fn law_commit_lists_the_working_set<K: Kernel>(
    collection: Collection<K>,
    m: Arc<Manifest>,
)
    requires
        collection.wf(),
        collection.commit_of(collection, m),
        forall|i: int|
            0 <= i < collection.working.sealed@.len() ==> (
            #[trigger] collection.working.sealed@[i]).rows().len() > 0,
    ensures
        m.deletions.ids() == collection.working_deletions.ids(),
        m.segments@.len() == collection.working.sealed@.len(),
        forall|i: int|
            0 <= i < m.segments@.len() ==> {
                let segment = collection.working.sealed@[i];
                &&& (#[trigger] m.segments@[i]).id == segment.id.0
                &&& m.segments@[i].count == segment.rows().len()
                &&& segment.global_ids().contains(GlobalId(m.segments@[i].id_lo))
                &&& segment.global_ids().contains(GlobalId(m.segments@[i].id_hi))
            },
{
    let segments = collection.working.sealed@;
    assert forall|i: int| 0 <= i < segments.len() implies (#[trigger] segments[i]).wf()
        && segments[i].rows().len() > 0 by {}
    lemma_refs(segments);
    assert forall|i: int| 0 <= i < m.segments@.len() implies {
        let segment = segments[i];
        &&& (#[trigger] m.segments@[i]).id == segment.id.0
        &&& m.segments@[i].count == segment.rows().len()
        &&& segment.global_ids().contains(GlobalId(m.segments@[i].id_lo))
        &&& segment.global_ids().contains(GlobalId(m.segments@[i].id_hi))
    } by {
        assert(segments[i].wf());
        law_reference_spans_its_segment(&*segments[i]);
    }
}

proof fn lemma_refs<K: Kernel>(segments: Seq<Arc<SealedSegment<K>>>)
    requires
        forall|i: int|
            0 <= i < segments.len() ==> (#[trigger] segments[i]).wf() && segments[i].rows().len()
                > 0,
    ensures
        history::refs_of(segments).len() == segments.len(),
        forall|i: int|
            0 <= i < segments.len() ==> Some(#[trigger] history::refs_of(segments)[i])
                == history::ref_of(*segments[i]),
    decreases segments.len(),
{
    if segments.len() > 0 {
        let shorter = segments.drop_last();
        assert forall|i: int| 0 <= i < shorter.len() implies (#[trigger] shorter[i]).wf()
            && shorter[i].rows().len() > 0 by {
            assert(shorter[i] == segments[i]);
        }
        lemma_refs(shorter);
        let last = segments[segments.len() - 1];
        assert(last.wf() && last.rows().len() > 0);
        law_reference_spans_its_segment(&*last);
        assert forall|i: int| 0 <= i < segments.len() implies Some(
            #[trigger] history::refs_of(segments)[i],
        ) == history::ref_of(*segments[i]) by {
            if i < shorter.len() {
                assert(shorter[i] == segments[i]);
                assert(history::refs_of(segments)[i] == history::refs_of(shorter)[i]);
            }
        }
    }
}

/// Whether a merged row is the point at a place, under its id, in the form in which rows are
/// stored.
pub open spec fn merges_row<K: Kernel>(
    kernel: K,
    all: Seq<(GlobalId, Seq<K::Elem>)>,
    p: int,
    id: GlobalId,
    row: Seq<K::Elem>,
) -> bool {
    &&& 0 <= p < all.len()
    &&& all[p].0 == id
    &&& row == if kernel.spec_metric() is Cosine {
        kernel.spec_normalized(all[p].1)
    } else {
        all[p].1
    }
}

/// Whether a merged row is one of the points, under its id.
pub open spec fn comes_from<K: Kernel>(
    kernel: K,
    all: Seq<(GlobalId, Seq<K::Elem>)>,
    id: GlobalId,
    row: Seq<K::Elem>,
) -> bool {
    exists|p: int| #[trigger] merges_row(kernel, all, p, id, row)
}

/// Compaction merges the working segments into one whose rows are in ascending id order: each
/// of its rows is a row of one of them under the same id, and it has as many.
pub proof fn law_compaction_sorts_the_rows<K: Kernel>(
    before: Collection<K>,
    segment: SealedSegment<K>,
)
    requires
        before.compacts_to(segment),
    ensures
        segment.id.0 == before.next_segment_id,
        segment.index.deleted.ids() == Set::<u32>::empty(),
        segment.rows().len() == points::kept_points(before.working.sealed@, Set::empty()).len(),
        forall|i: int, j: int|
            0 <= i < j < segment.global_ids().len() ==> (#[trigger] segment.global_ids()[i]).0 <= (
            #[trigger] segment.global_ids()[j]).0,
        forall|i: int|
            0 <= i < segment.rows().len() ==> comes_from(
                before.kernel,
                points::kept_points(before.working.sealed@, Set::empty()),
                segment.global_ids()[i],
                #[trigger] segment.rows()[i],
            ),
{
    let all = points::kept_points(before.working.sealed@, Set::empty());
    let raw = points::ids_of(all);
    let order = choose|order: Seq<usize>|
        #[trigger] sorting::stable_order(raw, order) && before.is_sealed(
            segment,
            before.next_segment_id,
            history::reordered_ids(all, order),
            history::reordered_rows(before.kernel, all, order),
        );
    assert forall|i: int, j: int| 0 <= i < j < segment.global_ids().len() implies (
    #[trigger] segment.global_ids()[i]).0 <= (#[trigger] segment.global_ids()[j]).0 by {
        assert(raw[order[i] as int] == segment.global_ids()[i].0);
        assert(raw[order[j] as int] == segment.global_ids()[j].0);
    }
    assert forall|i: int| 0 <= i < segment.rows().len() implies comes_from(
        before.kernel,
        all,
        segment.global_ids()[i],
        #[trigger] segment.rows()[i],
    ) by {
        let p = order[i] as int;
        assert(merges_row(before.kernel, all, p, segment.global_ids()[i], segment.rows()[i]));
    }
}

/// After a GC pass under a limit of `k`, a version with fewer than `k` newer ones is still
/// there, with the same manifest, segments and points; and so is every version without a
/// limit.
pub proof fn law_gc_keeps_recent_versions_queryable<K: Kernel>(
    before: Collection<K>,
    after: Collection<K>,
    rules: RetentionRules,
    i: int,
)
    requires
        before.wf(),
        after.wf(),
        before.collects_to(rules, after),
        0 <= i < before.versions.commits@.len(),
        rules.keep_last matches Some(k) ==> retention::newer_than(
            before.versions.commits@,
            before.versions.commits@[i].version,
        ) < k,
    ensures
        ({
            let v = before.versions.commits@[i].version;
            &&& after.versions.exists_version(v)
            &&& after.versions.manifest(v) == before.versions.commits@[i]
            &&& after.segments_at(v) == before.segments_at(v)
            &&& after.points_at(v) == before.points_at(v)
        }),
{
    let store = before.versions;
    let m = store.commits@[i];
    assert(store.versions()[i] == m.version);
    assert(store.exists_version(m.version));
    assert(store.commits@.contains(m));
    if rules.keep_last is Some {
        retention::lemma_recent_is_retained(store, rules, i);
    }
    assert(store.retains(rules, m.version));
    history::law_gc_keeps_retained_versions(before, after, rules, m.version);
    store::lemma_manifest_unique(store, m);
}

/// A GC pass never drops a segment of the working set, and drops no segment that a version
/// that stays references; what it leaves registered is as it was.
pub proof fn law_gc_never_drops_what_is_used<K: Kernel>(
    before: Collection<K>,
    after: Collection<K>,
    rules: RetentionRules,
    segment: u64,
)
    requires
        before.collects_to(rules, after),
        before.all_segments@.contains_key(segment),
        ({
            ||| exists|i: int|
                0 <= i < before.working.sealed@.len() && (
                #[trigger] before.working.sealed@[i]).id.0 == segment
            ||| exists|i: int, j: int|
                0 <= i < after.versions.commits@.len() && 0 <= j
                    < after.versions.commits@[i].segments@.len() && (
                #[trigger] after.versions.commits@[i].segments@[j]).id == segment
        }),
    ensures
        after.all_segments@.contains_key(segment),
        after.all_segments@[segment] == before.all_segments@[segment],
{
    if before.collects(rules, segment) {
        let (i, j) = choose|i: int, j: int|
            0 <= i < after.versions.commits@.len() && 0 <= j
                < after.versions.commits@[i].segments@.len() && (
            #[trigger] after.versions.commits@[i].segments@[j]).id == segment;
        let m = after.versions.commits@[i];
        assert(after.versions.commits@.contains(m));
        assert(before.versions.commits@.contains(m));
        let p = before.versions.commits@.index_of(m);
        let ids = manifest::ids_of(m.segments@);
        assert(ids[j] == segment);
        assert(before.versions.commits@[p].references(segment));
        assert(before.versions.kept_segment(rules, segment));
    }
    assert(after.all_segments@.contains_key(segment));
}

/// A GC pass drops every registered segment that only versions it removes reference and that
/// is not in the working set.
pub proof fn law_gc_drops_what_nothing_uses<K: Kernel>(
    before: Collection<K>,
    after: Collection<K>,
    rules: RetentionRules,
    segment: u64,
    i: int,
    j: int,
)
    requires
        before.collects_to(rules, after),
        0 <= i < before.versions.commits@.len(),
        0 <= j < before.versions.commits@[i].segments@.len(),
        before.versions.commits@[i].segments@[j].id == segment,
        !after.versions.commits@.contains(before.versions.commits@[i]),
        forall|p: int|
            0 <= p < before.working.sealed@.len() ==> (#[trigger] before.working.sealed@[p]).id.0
                != segment,
        forall|p: int, s: int|
            0 <= p < after.versions.commits@.len() && 0 <= s
                < after.versions.commits@[p].segments@.len() ==> (
            #[trigger] after.versions.commits@[p].segments@[s]).id != segment,
    ensures
        !after.all_segments@.contains_key(segment),
{
    let m = before.versions.commits@[i];
    assert(before.versions.commits@.contains(m));
    let ids = manifest::ids_of(m.segments@);
    assert(ids[j] == segment);
    assert(before.versions.commits@[i].references(segment));
    assert(before.versions.dropped_segment(rules, segment));
    if before.versions.kept_segment(rules, segment) {
        let p = choose|p: int|
            0 <= p < before.versions.commits@.len() && before.versions.retains(
                rules,
                (#[trigger] before.versions.commits@[p]).version,
            ) && before.versions.commits@[p].references(segment);
        let kept = before.versions.commits@[p];
        assert(before.versions.commits@.contains(kept));
        assert(after.versions.commits@.contains(kept));
        let q = after.versions.commits@.index_of(kept);
        let listed = manifest::ids_of(kept.segments@);
        let s = listed.index_of(segment);
        assert(after.versions.commits@[q].segments@[s].id == segment);
    }
}

/// A version exists exactly if a commit bears its number, and that commit is its manifest.
pub proof fn law_versions_are_commits(store: VersionStore, v: u64, i: int)
    requires
        store.wf(),
    ensures
        store.exists_version(v) <==> exists|p: int|
            0 <= p < store.commits@.len() && (#[trigger] store.commits@[p]).version == v,
        0 <= i < store.commits@.len() && store.commits@[i].version == v ==> store.manifest(v)
            == store.commits@[i],
{
    if store.exists_version(v) {
        let p = store.versions().index_of(v);
        assert(store.commits@[p].version == v);
    }
    if exists|p: int| 0 <= p < store.commits@.len() && (#[trigger] store.commits@[p]).version == v {
        let p = choose|p: int|
            0 <= p < store.commits@.len() && (#[trigger] store.commits@[p]).version == v;
        assert(store.versions()[p] == v);
    }
    if 0 <= i < store.commits@.len() && store.commits@[i].version == v {
        assert(store.commits@.contains(store.commits@[i]));
        store::lemma_manifest_unique(store, store.commits@[i]);
    }
}

/// A selector resolves to the version it names, if a commit bears that number, and else to
/// nothing: a number names itself, a tag and a branch what they point at, and the head the
/// head.
pub proof fn law_selectors_resolve_to_commits(store: VersionStore, selector: VersionSelector, v: u64)
    requires
        store.wf(),
    ensures
        store.resolved(selector) == Some(v) <==> {
            &&& exists|p: int|
                0 <= p < store.commits@.len() && (#[trigger] store.commits@[p]).version == v
            &&& match selector {
                VersionSelector::Version(n) => n == v,
                VersionSelector::Tag(t) => exists|p: int|
                    0 <= p < store.tags.entries@.len() && (
                    #[trigger] store.tags.entries@[p]).name@ == t@
                        && store.tags.entries@[p].version == v,
                VersionSelector::Branch(b) => exists|p: int|
                    0 <= p < store.branches.entries@.len() && (
                    #[trigger] store.branches.entries@[p]).name@ == b@
                        && store.branches.entries@[p].version == v,
                VersionSelector::Head => store.head == Some(v),
            }
        },
{
    law_versions_are_commits(store, v, 0);
    match selector {
        VersionSelector::Tag(t) => {
            lemma_names(store.tags, t@, v);
        },
        VersionSelector::Branch(b) => {
            lemma_names(store.branches, b@, v);
        },
        _ => {},
    }
}

/// A name points at a version exactly if an entry says so.
proof fn lemma_names(map: crate::version::NameMap, name: Seq<char>, v: u64)
    requires
        map.wf(),
    ensures
        map.at(name) == Some(v) <==> exists|p: int|
            0 <= p < map.entries@.len() && (#[trigger] map.entries@[p]).name@ == name
                && map.entries@[p].version == v,
{
    let pairs = map.pairs();
    crate::version::names::lemma_lookup(pairs, name);
    if map.at(name) == Some(v) {
        let p = choose|p: int| 0 <= p < pairs.len() && #[trigger] pairs[p] == (name, v);
        assert(map.entries@[p].name@ == name);
    }
    if exists|p: int|
        0 <= p < map.entries@.len() && (#[trigger] map.entries@[p]).name@ == name
            && map.entries@[p].version == v {
        let p = choose|p: int|
            0 <= p < map.entries@.len() && (#[trigger] map.entries@[p]).name@ == name
                && map.entries@[p].version == v;
        assert(pairs[p].0 == name);
    }
}

/// A manifest covers an id live exactly if some referenced segment's range holds it and it is
/// not tombstoned; its rows are the sum over its segments.
pub proof fn law_manifest_counts_its_segments(
    m: Manifest,
    segments: Seq<SegmentRef>,
    r: SegmentRef,
    id: u64,
)
    ensures
        m.covers_live(id) <==> {
            &&& !m.deletions.ids().contains(id)
            &&& exists|i: int|
                0 <= i < m.segments@.len() && (#[trigger] m.segments@[i]).id_lo <= id && id
                    <= m.segments@[i].id_hi
        },
        m.tombstones_inside().contains(id) <==> {
            &&& m.deletions.ids().contains(id)
            &&& exists|i: int|
                0 <= i < m.segments@.len() && (#[trigger] m.segments@[i]).id_lo <= id && id
                    <= m.segments@[i].id_hi
        },
        manifest::total_rows(Seq::empty()) == 0,
        manifest::total_rows(segments.push(r)) == manifest::total_rows(segments) + r.count,
        m.references(id) <==> exists|i: int|
            0 <= i < m.segments@.len() && (#[trigger] m.segments@[i]).id == id,
{
    assert(segments.push(r).drop_last() =~= segments);
    let ids = manifest::ids_of(m.segments@);
    if ids.contains(id) {
        let i = ids.index_of(id);
        assert(m.segments@[i].id == id);
    }
    if exists|i: int| 0 <= i < m.segments@.len() && (#[trigger] m.segments@[i]).id == id {
        let i = choose|i: int| 0 <= i < m.segments@.len() && (#[trigger] m.segments@[i]).id == id;
        assert(ids[i] == id);
    }
}

/// What a checkpoint persists is the working set and whatever a version references, and a
/// restart brings every name back to what it pointed at.
pub proof fn law_checkpoint_keeps_names_and_segments<K: Kernel>(
    collection: Collection<K>,
    checkpoint: Checkpoint<K>,
    restored: Collection<K>,
    segment: u64,
    name: Seq<char>,
)
    requires
        collection.wf(),
        durable::is_checkpoint(collection, checkpoint),
        durable::restores(checkpoint.head, checkpoint.segments@, restored),
    ensures
        checkpoint.head.sealed_ids@.contains(segment) <==> {
            ||| exists|i: int|
                0 <= i < collection.working.sealed@.len() && (
                #[trigger] collection.working.sealed@[i]).id.0 == segment
            ||| exists|i: int, j: int|
                0 <= i < collection.versions.commits@.len() && 0 <= j
                    < collection.versions.commits@[i].segments@.len() && (
                #[trigger] collection.versions.commits@[i].segments@[j]).id == segment
        },
        restored.versions.tags.at(name) == collection.versions.tags.at(name),
        restored.versions.branches.at(name) == collection.versions.branches.at(name),
        restored.versions.next_version == collection.versions.next_version,
        restored.versions.head == collection.versions.head,
        restored.next_global_id == collection.next_global_id,
        restored.next_segment_id == collection.next_segment_id,
        restored.payloads@ == collection.payloads@,
        restored.appendable.rows().len() == 0,
        restored.working_deletions.ids() =~= collection.working_deletions.ids(),
{
    let listed = recovery::segment_ids(collection.working.sealed@);
    if listed.contains(segment) {
        let i = listed.index_of(segment);
        assert(collection.working.sealed@[i].id.0 == segment);
    }
    if exists|i: int|
        0 <= i < collection.working.sealed@.len() && (
        #[trigger] collection.working.sealed@[i]).id.0 == segment {
        let i = choose|i: int|
            0 <= i < collection.working.sealed@.len() && (
            #[trigger] collection.working.sealed@[i]).id.0 == segment;
        assert(listed[i] == segment);
    }
    let commits = collection.versions.commits@;
    if exists|i: int| 0 <= i < commits.len() && (#[trigger] commits[i]).references(segment) {
        let i = choose|i: int| 0 <= i < commits.len() && (#[trigger] commits[i]).references(segment);
        let ids = manifest::ids_of(commits[i].segments@);
        let j = ids.index_of(segment);
        assert(commits[i].segments@[j].id == segment);
    }
    if exists|i: int, j: int|
        0 <= i < commits.len() && 0 <= j < commits[i].segments@.len() && (
        #[trigger] commits[i].segments@[j]).id == segment {
        let (i, j) = choose|i: int, j: int|
            0 <= i < commits.len() && 0 <= j < commits[i].segments@.len() && (
            #[trigger] commits[i].segments@[j]).id == segment;
        let ids = manifest::ids_of(commits[i].segments@);
        assert(ids[j] == segment);
        assert(commits[i].references(segment));
    }
    assert(collection.persists(segment) <==> checkpoint.head.sealed_ids@.contains(segment));
    assert forall|id: u64| restored.working_deletions.ids().contains(id)
        <==> collection.working_deletions.ids().contains(id) by {
        assert(checkpoint.head.deletions@.to_set().contains(id)
            <==> checkpoint.head.deletions@.contains(id));
    }
}

/// A page holds the points from its offset on, as many as its limit allows, in ascending id
/// order, each with its vector and its payload; and no point between two of a page is left
/// out.
pub proof fn law_pages_are_in_id_order<E>(
    page: Seq<PointRecord<E>>,
    all: Seq<(GlobalId, Seq<E>)>,
    payloads: Map<u64, Arc<JsonValue>>,
    offset: nat,
    limit: nat,
)
    requires
        query::is_page(page, all, payloads, offset, limit),
    ensures
        page.len() <= limit,
        offset + limit <= all.len() ==> page.len() == limit,
        offset <= all.len() <= offset + limit ==> page.len() == all.len() - offset,
        offset >= all.len() ==> page.len() == 0,
        forall|i: int, j: int|
            0 <= i < j < page.len() ==> (#[trigger] page[i]).id.0 <= (#[trigger] page[j]).id.0,
        forall|i: int|
            0 <= i < page.len() ==> {
                &&& all.contains(((#[trigger] page[i]).id, page[i].vector@))
                &&& page[i].payload == if payloads.contains_key(page[i].id.0) {
                    Some(payloads[page[i].id.0])
                } else {
                    None
                }
            },
{
    let ids = points::ids_of(all);
    let order = choose|order: Seq<usize>|
        sorting::stable_order(ids, order) && (forall|i: int|
            0 <= i < page.len() ==> {
                let (id, vector) = all[#[trigger] order[offset + i] as int];
                &&& (#[trigger] page[i]).id == id
                &&& page[i].vector@ == vector
                &&& page[i].payload == query::shared_payload(payloads, id.0)
            });
    assert forall|i: int, j: int| 0 <= i < j < page.len() implies (#[trigger] page[i]).id.0 <= (
    #[trigger] page[j]).id.0 by {
        let a = order[offset + i];
        let b = order[offset + j];
        assert(ids[a as int] <= ids[b as int]);
        assert(page[i].id == all[a as int].0 && page[j].id == all[b as int].0);
    }
    assert forall|i: int| 0 <= i < page.len() implies {
        &&& all.contains(((#[trigger] page[i]).id, page[i].vector@))
        &&& page[i].payload == if payloads.contains_key(page[i].id.0) {
            Some(payloads[page[i].id.0])
        } else {
            None
        }
    } by {
        let a = order[offset + i];
        assert(all[a as int] == (page[i].id, page[i].vector@));
    }
}

/// Pages line up: the record at a place of the whole list is the same whichever page it is
/// read from, so consecutive pages leave nothing out and repeat nothing.
pub proof fn law_pages_line_up<E>(
    page: Seq<PointRecord<E>>,
    other: Seq<PointRecord<E>>,
    all: Seq<(GlobalId, Seq<E>)>,
    payloads: Map<u64, Arc<JsonValue>>,
    offset: nat,
    limit: nat,
    start: nat,
    length: nat,
    i: int,
)
    requires
        query::is_page(page, all, payloads, offset, limit),
        query::is_page(other, all, payloads, start, length),
        0 <= i < page.len(),
        0 <= offset + i - start < other.len(),
    ensures
        page[i].id == other[offset + i - start].id,
        page[i].vector@ == other[offset + i - start].vector@,
        page[i].payload == other[offset + i - start].payload,
{
    let ids = points::ids_of(all);
    let a = choose|order: Seq<usize>|
        sorting::stable_order(ids, order) && (forall|i: int|
            0 <= i < page.len() ==> {
                let (id, vector) = all[#[trigger] order[offset + i] as int];
                &&& (#[trigger] page[i]).id == id
                &&& page[i].vector@ == vector
                &&& page[i].payload == query::shared_payload(payloads, id.0)
            });
    let b = choose|order: Seq<usize>|
        sorting::stable_order(ids, order) && (forall|i: int|
            0 <= i < other.len() ==> {
                let (id, vector) = all[#[trigger] order[start + i] as int];
                &&& (#[trigger] other[i]).id == id
                &&& other[i].vector@ == vector
                &&& other[i].payload == query::shared_payload(payloads, id.0)
            });
    sorting::law_stable_order_unique(ids, a, b);
    let j = offset + i - start;
    assert(a[offset + i] == b[start + j]);
    assert(page[i].id == all[a[offset + i] as int].0);
    assert(other[j].id == all[b[start + j] as int].0);
}

/// A page of everything holds every point: whatever is live is somewhere on it.
pub proof fn law_pages_leave_nothing_out<E>(
    page: Seq<PointRecord<E>>,
    all: Seq<(GlobalId, Seq<E>)>,
    payloads: Map<u64, Arc<JsonValue>>,
    limit: nat,
    p: int,
)
    requires
        query::is_page(page, all, payloads, 0, limit),
        limit >= all.len(),
        0 <= p < all.len(),
    ensures
        exists|i: int|
            0 <= i < page.len() && (#[trigger] page[i]).id == all[p].0 && page[i].vector@
                == all[p].1,
{
    let ids = points::ids_of(all);
    let order = choose|order: Seq<usize>|
        sorting::stable_order(ids, order) && (forall|i: int|
            0 <= i < page.len() ==> {
                let (id, vector) = all[#[trigger] order[0 + i] as int];
                &&& (#[trigger] page[i]).id == id
                &&& page[i].vector@ == vector
                &&& page[i].payload == query::shared_payload(payloads, id.0)
            });
    crate::collection::laws::lemma_place_is_visited(ids, order, p);
    let i = choose|i: int| 0 <= i < order.len() && #[trigger] order[i] as int == p;
    assert(order[0 + i] as int == p);
    assert(page[i].id == all[p].0);
}

/// Commits are numbered one after the other: each takes the number that is next, and leaves
/// the one after it to the next commit.
pub proof fn law_commits_are_numbered_in_order(
    before: VersionStore,
    first: Arc<Manifest>,
    between: VersionStore,
    second: Arc<Manifest>,
    after: VersionStore,
    tag: Option<Seq<char>>,
    other: Option<Seq<char>>,
)
    requires
        before.commits_to(between, first, tag),
        between.commits_to(after, second, other),
    ensures
        first.version == before.next_version,
        first.parent == before.head,
        second.version == first.version + 1,
        second.parent == Some(first.version),
        after.head == Some(second.version),
        after.branches == before.branches,
{
}

} // verus!
