//! What holds of a collection across its operations.

use std::sync::Arc;

use vstd::prelude::*;

use crate::collection::history;
use crate::collection::merge;
use crate::collection::points;
use crate::collection::query;
use crate::collection::Collection;
use crate::collection::ScoredGlobal;
use crate::distance;
use crate::distance::Kernel;
use crate::id::GlobalId;
use crate::index;
use crate::index::hnsw::heuristic;
use crate::ordered;
use crate::ordered::OrderedF32;
use crate::payload::Filter;
use crate::ranking;
use crate::ranking::Ranked;
use crate::segment::sealed;
use crate::segment::search;
use crate::segment::AppendableSegment;
use crate::segment::SealedSegment;
use crate::sorting;
use crate::vector::VectorStorage;
use crate::version::manifest;

verus! {

/// Segments that have rows and are registered as themselves are what their references
/// lead back to.
proof fn lemma_refs_lead_back<K: Kernel>(
    all: Map<u64, Arc<SealedSegment<K>>>,
    segments: Seq<Arc<SealedSegment<K>>>,
)
    requires
        forall|i: int|
            0 <= i < segments.len() ==> (#[trigger] segments[i]).global_ids().len() > 0
                && all.contains_key(segments[i].id.0) && all[segments[i].id.0] == segments[i],
    ensures
        query::registered(all, manifest::ids_of(history::refs_of(segments))) == segments,
    decreases segments.len(),
{
    let refs = history::refs_of(segments);
    if segments.len() == 0 {
        assert(query::registered(all, manifest::ids_of(refs)) =~= segments);
    } else {
        let shorter = segments.drop_last();
        let last = segments.last();
        assert(last == segments[segments.len() - 1]);
        assert forall|i: int| 0 <= i < shorter.len() implies (
        #[trigger] shorter[i]).global_ids().len() > 0 && all.contains_key(shorter[i].id.0)
            && all[shorter[i].id.0] == shorter[i] by {
            assert(shorter[i] == segments[i]);
        }
        lemma_refs_lead_back(all, shorter);
        let fewer = history::refs_of(shorter);
        assert(history::ref_of(*last) is Some);
        assert(refs == fewer.push(history::ref_of(*last)->0));
        assert(manifest::ids_of(refs).drop_last() =~= manifest::ids_of(fewer));
        assert(manifest::ids_of(refs).last() == last.id.0);
        assert(query::registered(all, manifest::ids_of(refs)) =~= segments);
    }
}

/// A segment without rows finds nothing.
pub proof fn lemma_empty_segment_finds_nothing<K: Kernel>(
    segment: AppendableSegment<K>,
    q: Seq<K::Elem>,
    k: nat,
    keeps: spec_fn(u64) -> bool,
)
    requires
        segment.rows().len() == 0,
    ensures
        segment.results(q, k, keeps).len() == 0,
{
    let kept = search::rows_kept(segment.global_ids(), keeps);
    ranking::law_top_k(index::scan_pool(segment.vectors.kernel, segment.rows(), q, kept), k);
}

/// References lead back to segments that hold the same points and offer the same results:
/// those without rows have no reference, and nothing to offer.
proof fn lemma_refs_offer_alike<K: Kernel>(
    all: Map<u64, Arc<SealedSegment<K>>>,
    segments: Seq<Arc<SealedSegment<K>>>,
    q: Seq<K::Elem>,
    k: nat,
    keeps: spec_fn(u64) -> bool,
    higher: bool,
    dropped: Set<u64>,
)
    requires
        forall|i: int|
            0 <= i < segments.len() ==> (#[trigger] segments[i]).wf() && all.contains_key(
                segments[i].id.0,
            ) && all[segments[i].id.0] == segments[i],
    ensures
        ({
            let back = query::registered(all, manifest::ids_of(history::refs_of(segments)));
            &&& merge::offered(back, q, k, keeps, higher) == merge::offered(
                segments,
                q,
                k,
                keeps,
                higher,
            )
            &&& points::kept_points(back, dropped) == points::kept_points(segments, dropped)
        }),
    decreases segments.len(),
{
    let refs = history::refs_of(segments);
    let back = query::registered(all, manifest::ids_of(refs));
    if segments.len() == 0 {
        assert(back =~= segments);
    } else {
        let shorter = segments.drop_last();
        let last = segments.last();
        assert(last == segments[segments.len() - 1]);
        assert forall|i: int| 0 <= i < shorter.len() implies (#[trigger] shorter[i]).wf()
            && all.contains_key(shorter[i].id.0) && all[shorter[i].id.0] == shorter[i] by {
            assert(shorter[i] == segments[i]);
        }
        lemma_refs_offer_alike(all, shorter, q, k, keeps, higher, dropped);
        let fewer = history::refs_of(shorter);
        if last.global_ids().len() > 0 {
            assert(history::ref_of(*last) is Some);
            assert(refs == fewer.push(history::ref_of(*last)->0));
            assert(manifest::ids_of(refs).drop_last() =~= manifest::ids_of(fewer));
            assert(manifest::ids_of(refs).last() == last.id.0);
            assert(back.drop_last() =~= query::registered(all, manifest::ids_of(fewer)));
            assert(back.last() == last);
        } else {
            assert(refs == fewer);
            sealed::law_sealed_results(&*last, q, k, keeps);
            let rest = merge::offered(shorter, q, k, keeps, higher);
            assert(rest + merge::ranks_of(last.results(q, k, keeps), higher) =~= rest);
            let kept = points::kept_points(shorter, dropped);
            assert(last.rows().len() == 0);
            assert(kept + points::kept_rows(last.global_ids(), last.rows(), dropped, 0) =~= kept);
        }
    }
}

/// A commit freezes the live view: as of the new version, the tombstones and points are
/// those of the working state, and a search returns what a live search returns. The
/// segments are those of the working state that have rows.
pub proof fn law_commit_freezes_live_view<K: Kernel>(collection: Collection<K>, version: u64)
    requires
        collection.wf(),
        collection.consistent(),
        collection.versions.exists_version(version),
        collection.appendable.rows().len() == 0,
        collection.commit_of(collection, collection.versions.manifest(version)),
    ensures
        (forall|i: int|
            0 <= i < collection.working.sealed@.len() ==> (
            #[trigger] collection.working.sealed@[i]).rows().len() > 0)
            ==> collection.segments_at(version) == collection.working.sealed@,
        collection.deletions_at(version) == collection.working_deletions.ids(),
        collection.points_at(version) == collection.live_points(),
        forall|q: Seq<K::Elem>, k: nat, filter: Option<&Filter>| #[trigger]
            collection.found_at(version, q, k, filter) == collection.found(q, k, filter),
{
    let segments = collection.working.sealed@;
    let dropped = collection.working_deletions.ids();
    if forall|i: int| 0 <= i < segments.len() ==> (#[trigger] segments[i]).rows().len() > 0 {
        assert forall|i: int| 0 <= i < segments.len() implies (
        #[trigger] segments[i]).global_ids().len() > 0 by {
            assert(segments[i].rows().len() > 0);
        }
        lemma_refs_lead_back(collection.all_segments@, segments);
    }
    assert(collection.points_at(version) == collection.live_points()) by {
        lemma_refs_offer_alike(
            collection.all_segments@,
            segments,
            Seq::empty(),
            0,
            |id: u64| true,
            true,
            dropped,
        );
        let kept = points::kept_points(segments, dropped);
        assert(kept + points::kept_rows(
            collection.appendable.global_ids(),
            collection.appendable.rows(),
            dropped,
            0,
        ) =~= kept);
    }
    assert forall|q: Seq<K::Elem>, k: nat, filter: Option<&Filter>| #[trigger]
        collection.found_at(version, q, k, filter) == collection.found(q, k, filter) by {
        let higher = collection.config.metric.prefers_higher();
        let keeps = query::live(dropped, filter, collection.payloads@);
        lemma_refs_offer_alike(collection.all_segments@, segments, q, k, keeps, higher, dropped);
        lemma_empty_segment_finds_nothing(collection.appendable, q, k, keeps);
        let sealed_pool = merge::offered(segments, q, k, keeps, higher);
        assert(sealed_pool + merge::ranks_of(collection.appendable.results(q, k, keeps), higher)
            =~= sealed_pool);
    }
}

/// A restore brings a version back: live search then returns what a search as of that
/// version returned.
pub proof fn law_restore_brings_back<K: Kernel>(
    before: Collection<K>,
    after: Collection<K>,
    version: u64,
    q: Seq<K::Elem>,
    k: nat,
    filter: Option<&Filter>,
)
    requires
        before.same_points(after),
        after.working.sealed@ == before.segments_at(version),
        after.working_deletions.ids() == before.deletions_at(version),
        after.appendable.rows().len() == 0,
    ensures
        after.found(q, k, filter) == before.found_at(version, q, k, filter),
        after.live_points() == before.points_at(version),
{
    let higher = after.config.metric.prefers_higher();
    let keeps = query::live(after.working_deletions.ids(), filter, after.payloads@);
    lemma_empty_segment_finds_nothing(after.appendable, q, k, keeps);
    let pool = merge::offered(after.working.sealed@, q, k, keeps, higher);
    assert(pool + merge::ranks_of(after.appendable.results(q, k, keeps), higher) =~= pool);
    assert(after.live_points() =~= before.points_at(version));
}

/// Sealing keeps every point of the live view, in the same order.
pub proof fn law_seal_keeps_points<K: Kernel>(before: Collection<K>, after: Collection<K>)
    requires
        before.wf(),
        before.seals_to(after),
        after.working_deletions == before.working_deletions,
    ensures
        after.live_points() == before.live_points(),
        after.live_count() == before.live_count(),
{
    if before.appendable.rows().len() > 0 {
        let segment = after.working.sealed@.last();
        let dropped = before.working_deletions.ids();
        assert(after.working.sealed@.drop_last() =~= before.working.sealed@);
        let empty = points::kept_rows(
            after.appendable.global_ids(),
            after.appendable.rows(),
            dropped,
            0,
        );
        let sealed_points = points::kept_points(before.working.sealed@, dropped);
        let moved = points::kept_rows(
            segment.global_ids(),
            segment.rows(),
            dropped,
            segment.rows().len(),
        );
        assert((sealed_points + moved) + empty =~= sealed_points + moved);
    }
}

/// Whether a point is stored in a row whose exact score is `score`.
pub open spec fn stored_at_score<K: Kernel>(
    kernel: K,
    ids: Seq<GlobalId>,
    rows: Seq<Seq<K::Elem>>,
    q: Seq<K::Elem>,
    id: GlobalId,
    score: OrderedF32,
) -> bool {
    exists|l: int|
        0 <= l < ids.len() && ids[l] == id && #[trigger] kernel.spec_score(q, rows[l]) == score
}

/// Whether a sealed segment stores a point in a row whose exact score is `score`.
pub open spec fn sealed_at_score<K: Kernel>(
    segment: SealedSegment<K>,
    q: Seq<K::Elem>,
    id: GlobalId,
    score: OrderedF32,
) -> bool {
    stored_at_score(segment.index.kernel, segment.global_ids(), segment.rows(), q, id, score)
}

/// Whether one of several sealed segments stores a point in a row whose exact score is
/// `score`.
pub open spec fn found_among<K: Kernel>(
    segments: Seq<Arc<SealedSegment<K>>>,
    q: Seq<K::Elem>,
    id: GlobalId,
    score: OrderedF32,
) -> bool {
    exists|i: int|
        0 <= i < segments.len() && sealed_at_score(*(#[trigger] segments[i]), q, id, score)
}

/// Everything sealed segments offer names a kept point of one of them, at its exact score.
pub proof fn lemma_offered<K: Kernel>(
    segments: Seq<Arc<SealedSegment<K>>>,
    q: Seq<K::Elem>,
    k: nat,
    keeps: spec_fn(u64) -> bool,
    higher: bool,
)
    requires
        forall|i: int| 0 <= i < segments.len() ==> (#[trigger] segments[i]).wf(),
    ensures
        forall|x: Ranked| #[trigger]
            merge::offered(segments, q, k, keeps, higher).contains(x) ==> {
                &&& keeps(x.id)
                &&& found_among(
                    segments,
                    q,
                    GlobalId(x.id),
                    distance::badness_of(x.badness, higher),
                )
                &&& exists|i: int|
                    0 <= i < segments.len() && (#[trigger] segments[i]).global_ids().contains(
                        GlobalId(x.id),
                    )
            },
    decreases segments.len(),
{
    if segments.len() > 0 {
        let shorter = segments.drop_last();
        let last = segments.last();
        assert(last == segments[segments.len() - 1]);
        assert forall|i: int| 0 <= i < shorter.len() implies (#[trigger] shorter[i]).wf() by {
            assert(shorter[i] == segments[i]);
        }
        lemma_offered(shorter, q, k, keeps, higher);
        sealed::law_sealed_results(&*last, q, k, keeps);
        let rest = merge::offered(shorter, q, k, keeps, higher);
        let found = last.results(q, k, keeps);
        let ranks = merge::ranks_of(found, higher);
        let pool = merge::offered(segments, q, k, keeps, higher);
        assert forall|x: Ranked| #[trigger] pool.contains(x) implies {
            &&& keeps(x.id)
            &&& found_among(segments, q, GlobalId(x.id), distance::badness_of(x.badness, higher))
            &&& exists|i: int|
                0 <= i < segments.len() && (#[trigger] segments[i]).global_ids().contains(
                    GlobalId(x.id),
                )
        } by {
            let id = GlobalId(x.id);
            let score = distance::badness_of(x.badness, higher);
            let p = pool.index_of(x);
            if p < rest.len() {
                assert(rest[p] == x);
                assert(rest.contains(x));
                let i = choose|i: int|
                    0 <= i < shorter.len() && (#[trigger] shorter[i]).global_ids().contains(id);
                assert(segments[i] == shorter[i]);
                let m = choose|m: int|
                    0 <= m < shorter.len() && sealed_at_score(
                        *(#[trigger] shorter[m]),
                        q,
                        id,
                        score,
                    );
                assert(segments[m] == shorter[m]);
            } else {
                let j = p - rest.len();
                assert(ranks[j] == x);
                assert(keeps(found[j].0.0));
                ordered::law_negation_reverses_order(found[j].1, found[j].1);
                assert(score == found[j].1);
                let local = choose|local: int|
                    0 <= local < last.rows().len() && last.global_ids()[local] == found[j].0
                        && #[trigger] last.index.kernel.spec_score(q, last.rows()[local])
                        == found[j].1 && !last.index.deleted.ids().contains(local as u32);
                assert(last.global_ids()[local] == id);
                assert(last.global_ids().contains(id));
                assert(segments[segments.len() - 1].global_ids().contains(id));
                assert(sealed_at_score(*segments[segments.len() - 1], q, id, score));
            }
        }
    }
}

/// Everything the appendable segment finds names a kept point of it, at its exact score.
pub proof fn lemma_appendable_results<K: Kernel>(
    segment: AppendableSegment<K>,
    q: Seq<K::Elem>,
    k: nat,
    keeps: spec_fn(u64) -> bool,
)
    requires
        segment.wf(),
    ensures
        forall|i: int|
            0 <= i < segment.results(q, k, keeps).len() ==> {
                let r = #[trigger] segment.results(q, k, keeps)[i];
                &&& keeps(r.0.0)
                &&& segment.global_ids().contains(r.0)
                &&& stored_at_score(
                    segment.vectors.kernel,
                    segment.global_ids(),
                    segment.rows(),
                    q,
                    r.0,
                    r.1,
                )
            },
{
    let kept = search::rows_kept(segment.global_ids(), keeps);
    index::law_exact_topk(segment.vectors.kernel, segment.rows(), q, k, kept);
    let found = index::exact_topk(segment.vectors.kernel, segment.rows(), q, k, kept);
    assert forall|i: int| 0 <= i < segment.results(q, k, keeps).len() implies {
        let r = #[trigger] segment.results(q, k, keeps)[i];
        &&& keeps(r.0.0)
        &&& segment.global_ids().contains(r.0)
        &&& stored_at_score(
            segment.vectors.kernel,
            segment.global_ids(),
            segment.rows(),
            q,
            r.0,
            r.1,
        )
    } by {
        let local = found[i].id.0 as int;
        assert(kept(found[i].id.0));
        assert(segment.global_ids()[local] == segment.results(q, k, keeps)[i].0);
        assert(segment.vectors.kernel.spec_score(q, segment.rows()[local]) == found[i].score);
    }
}

/// A live search returns at most `k` points, best first and none twice. Each is a point of
/// the live view that is neither tombstoned nor rejected by the filter, at the exact score
/// of a row that stores it.
pub proof fn law_search_returns_live_points<K: Kernel>(
    collection: Collection<K>,
    q: Seq<K::Elem>,
    k: nat,
    filter: Option<&Filter>,
)
    requires
        collection.wf(),
    ensures
        ({
            let found = collection.found(q, k, filter);
            let segment = collection.appendable;
            &&& found.len() <= k
            &&& merge::best_first(found, collection.config.metric.prefers_higher())
            &&& forall|i: int, j: int|
                0 <= i < j < found.len() ==> (#[trigger] found[i]).id != (#[trigger] found[j]).id
            &&& forall|i: int|
                0 <= i < found.len() ==> {
                    &&& collection.has_point((#[trigger] found[i]).id)
                    &&& query::live(
                        collection.working_deletions.ids(),
                        filter,
                        collection.payloads@,
                    )(found[i].id.0)
                    &&& found_among(collection.working.sealed@, q, found[i].id, found[i].score)
                        || stored_at_score(
                        segment.vectors.kernel,
                        segment.global_ids(),
                        segment.rows(),
                        q,
                        found[i].id,
                        found[i].score,
                    )
                }
        }),
{
    let found = collection.found(q, k, filter);
    let segment = collection.appendable;
    let higher = collection.config.metric.prefers_higher();
    let keeps = query::live(collection.working_deletions.ids(), filter, collection.payloads@);
    let sealed_pool = merge::offered(collection.working.sealed@, q, k, keeps, higher);
    let recent = segment.results(q, k, keeps);
    let ranks = merge::ranks_of(recent, higher);
    let pool = sealed_pool + ranks;
    merge::law_merged(pool, k, higher);
    lemma_offered(collection.working.sealed@, q, k, keeps, higher);
    lemma_appendable_results(segment, q, k, keeps);
    assert forall|i: int| 0 <= i < found.len() implies {
        &&& collection.has_point((#[trigger] found[i]).id)
        &&& keeps(found[i].id.0)
        &&& found_among(collection.working.sealed@, q, found[i].id, found[i].score)
            || stored_at_score(
            segment.vectors.kernel,
            segment.global_ids(),
            segment.rows(),
            q,
            found[i].id,
            found[i].score,
        )
    } by {
        let x = ranking::rank_of(found[i].score, found[i].id.0, higher);
        assert(pool.contains(x));
        assert(GlobalId(x.id) == found[i].id);
        ordered::law_negation_reverses_order(found[i].score, found[i].score);
        let p = pool.index_of(x);
        if p < sealed_pool.len() {
            assert(sealed_pool[p] == x);
            assert(sealed_pool.contains(x));
        } else {
            let r = recent[p - sealed_pool.len()];
            assert(ranks[p - sealed_pool.len()] == x);
            assert(r.0 == found[i].id);
            ordered::law_negation_reverses_order(r.1, r.1);
            assert(r.1 == found[i].score);
        }
    }
}

/// While nothing is sealed, search is exact: no row of a visible point that is left out is
/// closer than a point that is returned.
pub proof fn law_unsealed_search_is_exact<K: Kernel>(
    collection: Collection<K>,
    q: Seq<K::Elem>,
    k: nat,
    filter: Option<&Filter>,
    row: int,
    i: int,
)
    requires
        collection.wf(),
        collection.working.sealed@.len() == 0,
        0 <= row < collection.appendable.rows().len(),
        query::live(collection.working_deletions.ids(), filter, collection.payloads@)(
            collection.appendable.global_ids()[row].0,
        ),
        0 <= i < collection.found(q, k, filter).len(),
        forall|j: int|
            0 <= j < collection.found(q, k, filter).len() ==> (#[trigger] collection.found(
                q,
                k,
                filter,
            )[j]).id != collection.appendable.global_ids()[row],
    ensures
        ({
            let higher = collection.config.metric.prefers_higher();
            let score = collection.kernel.spec_score(q, collection.appendable.rows()[row]);
            distance::badness_of(collection.found(q, k, filter)[i].score, higher).key
                <= distance::badness_of(score, higher).key
        }),
{
    let segment = collection.appendable;
    let higher = collection.config.metric.prefers_higher();
    let keeps = query::live(collection.working_deletions.ids(), filter, collection.payloads@);
    let kept = search::rows_kept(segment.global_ids(), keeps);
    let best = index::exact_topk(segment.vectors.kernel, segment.rows(), q, k, kept);
    let results = collection.found(q, k, filter);
    index::law_exact_topk(segment.vectors.kernel, segment.rows(), q, k, kept);
    let recent = segment.results(q, k, keeps);
    let ranks = merge::ranks_of(recent, higher);
    let pool = merge::offered(collection.working.sealed@, q, k, keeps, higher) + ranks;
    assert(pool =~= ranks);
    merge::law_merged(pool, k, higher);
    let x = ranking::rank_of(results[i].score, results[i].id.0, higher);
    let p = pool.index_of(x);
    assert(best[p].score == recent[p].1);
    assert(x == ranks[p]);
    // What is among the best rows is returned.
    assert forall|j: int| 0 <= j < best.len() implies (#[trigger] best[j]).id.0 != row by {
        if best[j].id.0 == row {
            ranking::law_top_k(pool, k);
            ranking::law_sort_ranked(pool);
            let top = ranking::top_k(pool, k);
            let scored = ranking::all_scored(top, higher);
            assert(pool.contains(pool[j]));
            assert(top == ranking::sort_ranked(pool));
            assert(top.contains(pool[j]));
            let t = top.index_of(pool[j]);
            merge::lemma_first_of_each(scored);
            assert(scored[t].id == segment.global_ids()[row].0);
            assert(merge::holds_id(results, scored[t].id));
            let m = choose|m: int|
                0 <= m < results.len() && (#[trigger] results[m]).id.0 == scored[t].id;
            assert(results[m].id == segment.global_ids()[row]);
        }
    }
    assert(kept(row as u32));
    assert(!ranking::rank_of(
        segment.vectors.kernel.spec_score(q, segment.rows()[row as u32 as int]),
        row as u32 as u64,
        higher,
    ).before(ranking::rank_of(best[p].score, best[p].id.0 as u64, higher)));
}

/// A time-travel search returns at most `k` points, best first and none twice. Each is
/// stored in one of the version's segments at the exact score given, and is not one that
/// the version had deleted.
pub proof fn law_search_at_returns_version_points<K: Kernel>(
    collection: Collection<K>,
    version: u64,
    q: Seq<K::Elem>,
    k: nat,
    filter: Option<&Filter>,
)
    requires
        collection.wf(),
    ensures
        ({
            let found = collection.found_at(version, q, k, filter);
            &&& found.len() <= k
            &&& merge::best_first(found, collection.config.metric.prefers_higher())
            &&& forall|i: int, j: int|
                0 <= i < j < found.len() ==> (#[trigger] found[i]).id != (#[trigger] found[j]).id
            &&& forall|i: int|
                0 <= i < found.len() ==> {
                    &&& query::live(
                        collection.deletions_at(version),
                        filter,
                        collection.payloads@,
                    )((#[trigger] found[i]).id.0)
                    &&& found_among(
                        collection.segments_at(version),
                        q,
                        found[i].id,
                        found[i].score,
                    )
                }
        }),
{
    let found = collection.found_at(version, q, k, filter);
    let higher = collection.config.metric.prefers_higher();
    let keeps = query::live(collection.deletions_at(version), filter, collection.payloads@);
    let segments = collection.segments_at(version);
    let pool = merge::offered(segments, q, k, keeps, higher);
    let ids = manifest::ids_of(collection.versions.manifest(version).segments@);
    query::lemma_registered(collection.all_segments@, ids);
    assert forall|i: int| 0 <= i < segments.len() implies (#[trigger] segments[i]).wf() by {
        assert(query::in_registry(collection.all_segments@, segments[i]));
    }
    merge::law_merged(pool, k, higher);
    lemma_offered(segments, q, k, keeps, higher);
    assert forall|i: int| 0 <= i < found.len() implies keeps((#[trigger] found[i]).id.0)
        && found_among(segments, q, found[i].id, found[i].score) by {
        let x = ranking::rank_of(found[i].score, found[i].id.0, higher);
        assert(pool.contains(x));
        ordered::law_negation_reverses_order(found[i].score, found[i].score);
    }
}

/// Entries whose ids are all different are all kept.
pub proof fn lemma_distinct_are_kept(scored: Seq<ranking::Scored>)
    requires
        forall|i: int, j: int|
            0 <= i < j < scored.len() ==> (#[trigger] scored[i]).id != (#[trigger] scored[j]).id,
    ensures
        merge::first_of_each(scored).len() == scored.len(),
    decreases scored.len(),
{
    if scored.len() > 0 {
        let shorter = scored.drop_last();
        lemma_distinct_are_kept(shorter);
        merge::lemma_first_of_each(shorter);
        let rest = merge::first_of_each(shorter);
        if merge::holds_id(rest, scored.last().id) {
            let i = choose|i: int| 0 <= i < rest.len() && (#[trigger] rest[i]).id.0 == scored.last().id;
            let p = choose|p: int|
                0 <= p < shorter.len() && (#[trigger] shorter[p]).id == rest[i].id.0
                    && shorter[p].score == rest[i].score;
            assert(scored[p].id != scored[scored.len() - 1].id);
        }
    }
}

/// How many rows of sealed segments are visible.
pub open spec fn visible_in<K: Kernel>(
    segments: Seq<Arc<SealedSegment<K>>>,
    keeps: spec_fn(u64) -> bool,
) -> nat
    decreases segments.len(),
{
    if segments.len() == 0 {
        0
    } else {
        let last = segments.last();
        visible_in(segments.drop_last(), keeps) + index::count_rows(
            last.rows().len(),
            last.admitted(keeps),
        )
    }
}

/// How many points of the live view are visible.
pub open spec fn visible_points<K: Kernel>(collection: Collection<K>, filter: Option<&Filter>) -> nat {
    let keeps = query::live(collection.working_deletions.ids(), filter, collection.payloads@);
    visible_in(collection.working.sealed@, keeps) + index::count_rows(
        collection.appendable.rows().len(),
        search::rows_kept(collection.appendable.global_ids(), keeps),
    )
}

/// No point is stored twice: every id occurs once in one segment.
pub open spec fn stored_once<K: Kernel>(
    segments: Seq<Arc<SealedSegment<K>>>,
    recent: Seq<GlobalId>,
) -> bool {
    &&& recent.no_duplicates()
    &&& forall|i: int|
        0 <= i < segments.len() ==> (#[trigger] segments[i]).global_ids().no_duplicates()
    &&& forall|i: int, j: int, id: GlobalId|
        0 <= i < j < segments.len() && #[trigger] segments[i].global_ids().contains(id)
            ==> !#[trigger] segments[j].global_ids().contains(id)
    &&& forall|i: int, id: GlobalId|
        0 <= i < segments.len() && #[trigger] segments[i].global_ids().contains(id)
            ==> !recent.contains(id)
}

/// What sealed segments offer names no point twice, and there is enough of it.
pub proof fn lemma_offered_distinct<K: Kernel>(
    segments: Seq<Arc<SealedSegment<K>>>,
    q: Seq<K::Elem>,
    k: nat,
    keeps: spec_fn(u64) -> bool,
    higher: bool,
)
    requires
        forall|i: int| 0 <= i < segments.len() ==> (#[trigger] segments[i]).wf(),
        stored_once(segments, Seq::empty()),
    ensures
        heuristic::distinct_ids(merge::offered(segments, q, k, keeps, higher)),
        merge::offered(segments, q, k, keeps, higher).len() <= visible_in(segments, keeps),
        visible_in(segments, keeps) <= k ==> merge::offered(segments, q, k, keeps, higher).len()
            == visible_in(segments, keeps),
        visible_in(segments, keeps) >= k ==> merge::offered(segments, q, k, keeps, higher).len()
            >= k,
    decreases segments.len(),
{
    if segments.len() > 0 {
        let shorter = segments.drop_last();
        let last = segments.last();
        assert(last == segments[segments.len() - 1]);
        assert forall|i: int| 0 <= i < shorter.len() implies shorter[i] == segments[i] by {}
        assert(stored_once(shorter, Seq::empty())) by {
            assert forall|i: int| 0 <= i < shorter.len() implies (
            #[trigger] shorter[i]).global_ids().no_duplicates() by {
                assert(segments[i].global_ids().no_duplicates());
            }
            assert forall|i: int, j: int, id: GlobalId|
                0 <= i < j < shorter.len() && #[trigger] shorter[i].global_ids().contains(
                    id,
                ) implies !#[trigger] shorter[j].global_ids().contains(id) by {
                assert(segments[i].global_ids().contains(id));
            }
        }
        lemma_offered_distinct(shorter, q, k, keeps, higher);
        lemma_offered(shorter, q, k, keeps, higher);
        sealed::law_sealed_results(&*last, q, k, keeps);
        let rest = merge::offered(shorter, q, k, keeps, higher);
        let found = last.results(q, k, keeps);
        let ranks = merge::ranks_of(found, higher);
        let pool = merge::offered(segments, q, k, keeps, higher);
        assert forall|i: int, j: int| 0 <= i < j < pool.len() implies (#[trigger] pool[i]).id != (
        #[trigger] pool[j]).id by {
            if j < rest.len() {
                assert(rest[i].id != rest[j].id);
            } else if i < rest.len() {
                assert(rest.contains(rest[i]));
                let s = choose|s: int|
                    0 <= s < shorter.len() && (#[trigger] shorter[s]).global_ids().contains(
                        GlobalId(rest[i].id),
                    );
                assert(segments[s].global_ids().contains(GlobalId(rest[i].id)));
                let r = found[j - rest.len()];
                let local = choose|local: int|
                    0 <= local < last.rows().len() && last.global_ids()[local] == r.0
                        && #[trigger] last.index.kernel.spec_score(q, last.rows()[local]) == r.1
                        && !last.index.deleted.ids().contains(local as u32);
                assert(last.global_ids()[local] == r.0);
                assert(segments[segments.len() - 1].global_ids().contains(r.0));
                assert(GlobalId(pool[j].id) == r.0);
            } else {
                assert(found[i - rest.len()].0 != found[j - rest.len()].0);
            }
        }
    }
}

/// Search is complete: where no point is stored twice, a search finds as many points as it
/// is asked for, or all that are visible if there are fewer.
pub proof fn law_search_is_complete<K: Kernel>(
    collection: Collection<K>,
    q: Seq<K::Elem>,
    k: nat,
    filter: Option<&Filter>,
)
    requires
        collection.wf(),
        stored_once(collection.working.sealed@, collection.appendable.global_ids()),
    ensures
        collection.found(q, k, filter).len() == if visible_points(collection, filter) <= k {
            visible_points(collection, filter)
        } else {
            k
        },
{
    let segment = collection.appendable;
    let segments = collection.working.sealed@;
    let higher = collection.config.metric.prefers_higher();
    let keeps = query::live(collection.working_deletions.ids(), filter, collection.payloads@);
    let kept = search::rows_kept(segment.global_ids(), keeps);
    index::law_exact_topk(segment.vectors.kernel, segment.rows(), q, k, kept);
    let found = index::exact_topk(segment.vectors.kernel, segment.rows(), q, k, kept);
    let recent = segment.results(q, k, keeps);
    let ranks = merge::ranks_of(recent, higher);
    assert(stored_once(segments, Seq::empty()));
    lemma_offered_distinct(segments, q, k, keeps, higher);
    lemma_offered(segments, q, k, keeps, higher);
    let sealed_pool = merge::offered(segments, q, k, keeps, higher);
    let pool = sealed_pool + ranks;
    assert(heuristic::distinct_ids(pool)) by {
        assert forall|i: int, j: int| 0 <= i < j < pool.len() implies (#[trigger] pool[i]).id != (
        #[trigger] pool[j]).id by {
            if j < sealed_pool.len() {
                assert(sealed_pool[i].id != sealed_pool[j].id);
            } else {
                let b = found[j - sealed_pool.len()].id.0 as int;
                assert(GlobalId(pool[j].id) == segment.global_ids()[b]);
                if i < sealed_pool.len() {
                    assert(sealed_pool.contains(sealed_pool[i]));
                    let s = choose|s: int|
                        0 <= s < segments.len() && (#[trigger] segments[s]).global_ids().contains(
                            GlobalId(sealed_pool[i].id),
                        );
                    assert(segments[s].global_ids().contains(GlobalId(pool[i].id)));
                    assert(segment.global_ids().contains(segment.global_ids()[b]));
                } else {
                    let a = found[i - sealed_pool.len()].id.0 as int;
                    assert(GlobalId(pool[i].id) == segment.global_ids()[a]);
                    assert(found[i - sealed_pool.len()].id != found[j - sealed_pool.len()].id);
                }
            }
        }
    }
    ranking::law_top_k(pool, k);
    ranking::law_sort_ranked(pool);
    heuristic::lemma_sort_distinct(pool);
    let top = ranking::top_k(pool, k);
    let scored = ranking::all_scored(top, higher);
    assert forall|i: int, j: int| 0 <= i < j < scored.len() implies (#[trigger] scored[i]).id != (
    #[trigger] scored[j]).id by {
        let sorted = ranking::sort_ranked(pool);
        assert(top[i] == sorted[i] && top[j] == sorted[j]);
    }
    lemma_distinct_are_kept(scored);
}

/// What is left after excluding points comes from the results, in their order.
proof fn lemma_without(results: Seq<ScoredGlobal>, excluded: Set<u64>)
    ensures
        query::without(results, excluded).len() <= results.len(),
        forall|i: int|
            0 <= i < query::without(results, excluded).len() ==> {
                let r = #[trigger] query::without(results, excluded)[i];
                !excluded.contains(r.id.0) && results.contains(r)
            },
    decreases results.len(),
{
    if results.len() > 0 {
        let shorter = results.drop_last();
        lemma_without(shorter, excluded);
        let rest = query::without(shorter, excluded);
        let all = query::without(results, excluded);
        assert forall|i: int| 0 <= i < all.len() implies {
            let r = #[trigger] all[i];
            !excluded.contains(r.id.0) && results.contains(r)
        } by {
            if i < rest.len() {
                assert(rest[i] == all[i]);
                assert(results[shorter.index_of(rest[i])] == rest[i]);
            } else {
                assert(results[results.len() - 1] == all[i]);
            }
        }
    }
}

/// A recommendation returns at most `k` live points and none of the positive examples.
pub proof fn law_recommendation_excludes_positives<K: Kernel>(
    collection: Collection<K>,
    positive: Seq<GlobalId>,
    negative: Seq<GlobalId>,
    k: nat,
    filter: Option<&Filter>,
)
    requires
        collection.wf(),
    ensures
        ({
            let results = collection.recommended(positive, negative, k, filter);
            &&& results.len() <= k
            &&& forall|i: int|
                0 <= i < results.len() ==> {
                    &&& !positive.contains((#[trigger] results[i]).id)
                    &&& query::live(
                        collection.working_deletions.ids(),
                        filter,
                        collection.payloads@,
                    )(results[i].id.0)
                }
        }),
{
    let q = collection.example_query(positive, negative);
    let excluded = query::id_set(positive);
    let fetched = collection.found(q, k + excluded.len(), filter);
    law_search_returns_live_points(collection, q, k + excluded.len(), filter);
    lemma_without(fetched, excluded);
    let kept = query::without(fetched, excluded);
    let results = collection.recommended(positive, negative, k, filter);
    assert forall|i: int| 0 <= i < results.len() implies {
        &&& !positive.contains((#[trigger] results[i]).id)
        &&& query::live(collection.working_deletions.ids(), filter, collection.payloads@)(
            results[i].id.0,
        )
    } by {
        assert(results[i] == kept[i]);
        let p = fetched.index_of(kept[i]);
        assert(fetched[p] == results[i]);
        if positive.contains(results[i].id) {
            let raw = Seq::new(positive.len(), |j: int| positive[j].0);
            let j = positive.index_of(results[i].id);
            assert(raw[j] == results[i].id.0);
            assert(raw.contains(results[i].id.0));
        }
    }
}

/// Compaction keeps every row of the working segments: the merged segment has as many
/// rows, and each of them is there under its id, in the form in which it is stored.
pub proof fn law_compaction_keeps_rows<K: Kernel>(
    before: Collection<K>,
    segment: SealedSegment<K>,
    p: int,
)
    requires
        before.compacts_to(segment),
        0 <= p < points::kept_points(before.working.sealed@, Set::empty()).len(),
    ensures
        segment.rows().len() == crate::segment::set::rows_in(before.working.sealed@),
        exists|i: int|
            0 <= i < segment.rows().len() && (#[trigger] segment.global_ids()[i])
                == points::kept_points(before.working.sealed@, Set::empty())[p].0
                && segment.rows()[i] == VectorStorage::ingested(
                before.kernel,
                points::kept_points(before.working.sealed@, Set::empty())[p].1,
            ),
{
    let all = points::kept_points(before.working.sealed@, Set::empty());
    let order = choose|order: Seq<usize>|
        #[trigger] sorting::stable_order(points::ids_of(all), order) && before.is_sealed(
            segment,
            before.next_segment_id,
            history::reordered_ids(all, order),
            history::reordered_rows(before.kernel, all, order),
        );
    history::lemma_kept_points_all(before.working.sealed@);
    sorting::law_stable_order_is_permutation(points::ids_of(all), order);
    assert(forall|i: int| 0 <= i < order.len() ==> (#[trigger] order[i]) < all.len());
    lemma_place_is_visited(points::ids_of(all), order, p);
    let i = choose|i: int| 0 <= i < order.len() && #[trigger] order[i] as int == p;
    assert(segment.global_ids()[i] == all[p].0);
}

/// How many of the listed ids are not dropped.
pub open spec fn count_undropped(ids: Seq<u64>, dropped: Set<u64>) -> nat
    decreases ids.len(),
{
    if ids.len() == 0 {
        0
    } else {
        count_undropped(ids.drop_last(), dropped) + if dropped.contains(ids.last()) {
            0nat
        } else {
            1nat
        }
    }
}

/// The places of the ids that are not dropped.
spec fn undropped_places(ids: Seq<u64>, dropped: Set<u64>) -> Set<int> {
    Set::new(|i: int| 0 <= i < ids.len() && !dropped.contains(ids[i]))
}

/// There are as many places as ids that are not dropped.
proof fn lemma_count_places(ids: Seq<u64>, dropped: Set<u64>)
    ensures
        undropped_places(ids, dropped).finite(),
        undropped_places(ids, dropped).len() == count_undropped(ids, dropped),
    decreases ids.len(),
{
    let places = undropped_places(ids, dropped);
    if ids.len() == 0 {
        assert(places =~= Set::empty());
    } else {
        let shorter = ids.drop_last();
        let fewer = undropped_places(shorter, dropped);
        lemma_count_places(shorter, dropped);
        if dropped.contains(ids.last()) {
            assert(places =~= fewer);
        } else {
            assert(places =~= fewer.insert(ids.len() - 1));
        }
    }
}

/// Reordering a list changes nothing about how many of its ids are not dropped.
proof fn lemma_count_reordered(ids: Seq<u64>, order: Seq<usize>, dropped: Set<u64>)
    requires
        sorting::stable_order(ids, order),
    ensures
        count_undropped(Seq::new(order.len(), |i: int| ids[order[i] as int]), dropped)
            == count_undropped(ids, dropped),
{
    let moved = Seq::new(order.len(), |i: int| ids[order[i] as int]);
    let from = undropped_places(moved, dropped);
    let to = undropped_places(ids, dropped);
    let place = |i: int| order[i] as int;
    lemma_count_places(moved, dropped);
    lemma_count_places(ids, dropped);
    sorting::law_stable_order_is_permutation(ids, order);
    assert(vstd::relations::injective_on(place, from)) by {
        assert forall|i: int, j: int|
            from.contains(i) && from.contains(j) && #[trigger] place(i) == #[trigger] place(
                j,
            ) implies i == j by {
            assert(order[i] == order[j]);
        }
    }
    assert(from.map(place) =~= to) by {
        assert forall|p: int| from.map(place).contains(p) implies to.contains(p) by {
            let i = choose|i: int| from.contains(i) && #[trigger] place(i) == p;
            assert(moved[i] == ids[p]);
        }
        assert forall|p: int| to.contains(p) implies from.map(place).contains(p) by {
            lemma_place_is_visited(ids, order, p);
            let i = choose|i: int| 0 <= i < order.len() && #[trigger] order[i] as int == p;
            assert(moved[i] == ids[p]);
            assert(from.contains(i) && place(i) == p);
        }
    }
    vstd::set_lib::lemma_map_size(from, to, place);
}

/// Two lists together have the undropped ids of both.
proof fn lemma_count_joined(a: Seq<u64>, b: Seq<u64>, dropped: Set<u64>)
    ensures
        count_undropped(a + b, dropped) == count_undropped(a, dropped) + count_undropped(b, dropped),
    decreases b.len(),
{
    if b.len() == 0 {
        assert(a + b =~= a);
    } else {
        assert((a + b).drop_last() =~= a + b.drop_last());
        assert((a + b).last() == b.last());
        lemma_count_joined(a, b.drop_last(), dropped);
    }
}

/// The kept rows of a segment are as many as its undropped ids.
proof fn lemma_count_rows<E>(ids: Seq<GlobalId>, rows: Seq<Seq<E>>, dropped: Set<u64>, n: nat)
    ensures
        points::kept_rows(ids, rows, dropped, n).len() == count_undropped(
            points::ids_of(points::kept_rows(ids, rows, Set::empty(), n)),
            dropped,
        ),
    decreases n,
{
    if n > 0 {
        let m = (n - 1) as nat;
        lemma_count_rows(ids, rows, dropped, m);
        let all = points::ids_of(points::kept_rows(ids, rows, Set::empty(), n));
        assert(all.drop_last() =~= points::ids_of(points::kept_rows(ids, rows, Set::empty(), m)));
        assert(all.last() == ids[n - 1].0);
    }
}

/// The kept points of segments are as many as their undropped ids.
proof fn lemma_count_points<K: Kernel>(
    segments: Seq<Arc<SealedSegment<K>>>,
    dropped: Set<u64>,
)
    ensures
        points::kept_points(segments, dropped).len() == count_undropped(
            points::ids_of(points::kept_points(segments, Set::empty())),
            dropped,
        ),
    decreases segments.len(),
{
    if segments.len() > 0 {
        let last = segments.last();
        let shorter = segments.drop_last();
        lemma_count_points(shorter, dropped);
        lemma_count_rows(last.global_ids(), last.rows(), dropped, last.rows().len());
        let rest = points::kept_points(shorter, Set::empty());
        let rows = points::kept_rows(
            last.global_ids(),
            last.rows(),
            Set::empty(),
            last.rows().len(),
        );
        lemma_count_joined(points::ids_of(rest), points::ids_of(rows), dropped);
        assert(points::ids_of(rest + rows) =~= points::ids_of(rest) + points::ids_of(rows));
    }
}

/// Compaction keeps the number of live points.
pub proof fn law_compaction_keeps_live_count<K: Kernel>(
    before: Collection<K>,
    segment: Arc<SealedSegment<K>>,
    after: Collection<K>,
)
    requires
        before.compacts_to(*segment),
        after.working.sealed@ == seq![segment],
        after.appendable == before.appendable,
        after.working_deletions == before.working_deletions,
    ensures
        after.live_count() == before.live_count(),
{
    let dropped = before.working_deletions.ids();
    let segments = before.working.sealed@;
    let all = points::kept_points(segments, Set::empty());
    let raw = points::ids_of(all);
    let order = choose|order: Seq<usize>|
        #[trigger] sorting::stable_order(raw, order) && before.is_sealed(
            *segment,
            before.next_segment_id,
            history::reordered_ids(all, order),
            history::reordered_rows(before.kernel, all, order),
        );
    let merged = seq![segment];
    assert(merged.drop_last() =~= Seq::<Arc<SealedSegment<K>>>::empty());
    assert(merged.last() == segment);
    assert(points::kept_points(merged.drop_last(), Set::<u64>::empty()).len() == 0);
    let rows = points::kept_rows(
        segment.global_ids(),
        segment.rows(),
        Set::empty(),
        segment.rows().len(),
    );
    lemma_rows_of_segment(segment.global_ids(), segment.rows(), segment.rows().len());
    assert(points::kept_points(merged, Set::empty()) =~= rows);
    assert(points::ids_of(rows) =~= Seq::new(order.len(), |i: int| raw[order[i] as int]));
    lemma_count_points(segments, dropped);
    lemma_count_points(merged, dropped);
    lemma_count_reordered(raw, order, dropped);
}

/// A stable order visits each place.
pub proof fn lemma_place_is_visited(ids: Seq<u64>, order: Seq<usize>, p: int)
    requires
        sorting::stable_order(ids, order),
        0 <= p < ids.len(),
    ensures
        exists|i: int| 0 <= i < order.len() && #[trigger] order[i] as int == p,
{
    sorting::law_stable_order_is_permutation(ids, order);
    assert(p <= usize::MAX) by {
        lemma_order_fits(ids, order);
    }
    assert(order.contains(p as usize));
    let i = order.index_of(p as usize);
    assert(order[i] as int == p);
}

/// A list that has a stable order has no more places than there are `usize` values.
proof fn lemma_order_fits(ids: Seq<u64>, order: Seq<usize>)
    requires
        sorting::stable_order(ids, order),
    ensures
        ids.len() <= usize::MAX + 1,
{
    sorting::law_stable_order_is_permutation(ids, order);
    let places = Seq::new(order.len(), |i: int| order[i] as int);
    assert(places.no_duplicates());
    places.unique_seq_to_set();
    let all = vstd::set_lib::set_int_range(0, usize::MAX + 1);
    vstd::set_lib::lemma_int_range(0, usize::MAX + 1);
    assert(places.to_set().subset_of(all));
    vstd::set_lib::lemma_len_subset(places.to_set(), all);
}

/// The points that segments hold, by the ids of each.
pub proof fn lemma_points_of_segments<K: Kernel>(segments: Seq<Arc<SealedSegment<K>>>, id: u64)
    requires
        forall|i: int| 0 <= i < segments.len() ==> (#[trigger] segments[i]).wf(),
    ensures
        points::ids_of(points::kept_points(segments, Set::empty())).contains(id) <==> exists|i: int|
            0 <= i < segments.len() && (#[trigger] segments[i]).global_ids().contains(GlobalId(id)),
{
    points::lemma_kept_ids(segments, Set::empty(), id);
}

/// Without tombstones, the kept rows are all the rows.
pub proof fn lemma_rows_of_segment<E>(ids: Seq<GlobalId>, rows: Seq<Seq<E>>, n: nat)
    ensures
        points::kept_rows(ids, rows, Set::empty(), n).len() == n,
        forall|i: int|
            0 <= i < n ==> (#[trigger] points::kept_rows(ids, rows, Set::empty(), n)[i]) == (
                ids[i],
                rows[i],
            ),
    decreases n,
{
    if n > 0 {
        lemma_rows_of_segment(ids, rows, (n - 1) as nat);
    }
}

/// The references to segments, one by one.
proof fn lemma_covered<K: Kernel>(segments: Seq<Arc<SealedSegment<K>>>, id: u64)
    ensures
        manifest::covered(history::refs_of(segments), id) <==> exists|i: int|
            0 <= i < segments.len() && (history::ref_of(*#[trigger] segments[i]) matches Some(r)
                && r.id_lo <= id && id <= r.id_hi),
    decreases segments.len(),
{
    let refs = history::refs_of(segments);
    if segments.len() > 0 {
        let shorter = segments.drop_last();
        lemma_covered(shorter, id);
        let rest = history::refs_of(shorter);
        if manifest::covered(refs, id) {
            let i = choose|i: int|
                0 <= i < refs.len() && (#[trigger] refs[i]).id_lo <= id && id <= refs[i].id_hi;
            if i < rest.len() {
                assert(rest[i] == refs[i]);
                assert(manifest::covered(rest, id));
                let j = choose|j: int|
                    0 <= j < shorter.len() && (history::ref_of(*#[trigger] shorter[j]) matches Some(
                        r,
                    ) && r.id_lo <= id && id <= r.id_hi);
                assert(segments[j] == shorter[j]);
            } else {
                assert(history::ref_of(*segments[segments.len() - 1]) is Some);
            }
        }
        if exists|i: int|
            0 <= i < segments.len() && (history::ref_of(*#[trigger] segments[i]) matches Some(r)
                && r.id_lo <= id && id <= r.id_hi) {
            let i = choose|i: int|
                0 <= i < segments.len() && (history::ref_of(*#[trigger] segments[i]) matches Some(r)
                    && r.id_lo <= id && id <= r.id_hi);
            if i < shorter.len() {
                assert(shorter[i] == segments[i]);
                assert(manifest::covered(rest, id));
                let j = choose|j: int|
                    0 <= j < rest.len() && (#[trigger] rest[j]).id_lo <= id && id <= rest[j].id_hi;
                assert(refs[j] == rest[j]);
            } else {
                assert(refs[refs.len() - 1] == history::ref_of(*segments.last())->0);
            }
        }
    }
}

/// Where the working segments hold one contiguous range of ids, compaction changes nothing
/// about which ids a manifest covers.
pub proof fn law_compaction_keeps_coverage<K: Kernel>(
    before: Collection<K>,
    segment: Arc<SealedSegment<K>>,
    lo: u64,
    hi: u64,
    id: u64,
)
    requires
        before.wf(),
        before.compacts_to(*segment),
        lo <= hi,
        forall|g: u64|
            lo <= g <= hi <==> #[trigger] points::ids_of(
                points::kept_points(before.working.sealed@, Set::empty()),
            ).contains(g),
    ensures
        manifest::covered(history::refs_of(before.working.sealed@), id) <==> lo <= id <= hi,
        manifest::covered(history::refs_of(seq![segment]), id) <==> lo <= id <= hi,
{
    let segments = before.working.sealed@;
    let all = points::kept_points(segments, Set::empty());
    let raw = points::ids_of(all);
    lemma_covered(segments, id);
    lemma_covered(seq![segment], id);
    assert forall|i: int| 0 <= i < segments.len() implies (#[trigger] segments[i]).wf() by {}
    // Before: every span lies within the range, and every id lies within a span.
    if manifest::covered(history::refs_of(segments), id) {
        let i = choose|i: int|
            0 <= i < segments.len() && (history::ref_of(*#[trigger] segments[i]) matches Some(r)
                && r.id_lo <= id && id <= r.id_hi);
        let ids = segments[i].global_ids();
        search::law_id_span(ids);
        let (first, last) = search::id_span(ids)->0;
        lemma_points_of_segments(segments, first);
        lemma_points_of_segments(segments, last);
        assert(raw.contains(first) && raw.contains(last));
    }
    if lo <= id <= hi {
        assert(raw.contains(id));
        lemma_points_of_segments(segments, id);
        let i = choose|i: int|
            0 <= i < segments.len() && (#[trigger] segments[i]).global_ids().contains(GlobalId(id));
        let ids = segments[i].global_ids();
        let r = ids.index_of(GlobalId(id));
        search::law_id_span(ids);
        assert(ids[r] == GlobalId(id));
        assert(history::ref_of(*segments[i]) is Some);
    }
    // After: the merged segment runs from the smallest id to the largest.
    let order = choose|order: Seq<usize>|
        #[trigger] sorting::stable_order(raw, order) && before.is_sealed(
            *segment,
            before.next_segment_id,
            history::reordered_ids(all, order),
            history::reordered_rows(before.kernel, all, order),
        );
    let ids = segment.global_ids();
    assert(raw.contains(lo) && raw.contains(hi));
    let at_lo = raw.index_of(lo);
    let at_hi = raw.index_of(hi);
    lemma_place_is_visited(raw, order, at_lo);
    lemma_place_is_visited(raw, order, at_hi);
    let i_lo = choose|i: int| 0 <= i < order.len() && #[trigger] order[i] as int == at_lo;
    let i_hi = choose|i: int| 0 <= i < order.len() && #[trigger] order[i] as int == at_hi;
    assert(ids.len() == order.len());
    assert(ids[i_lo].0 == lo && ids[i_hi].0 == hi);
    search::law_id_span(ids);
    let (first, last) = search::id_span(ids)->0;
    let at_first = ids.index_of(GlobalId(first));
    let at_last = ids.index_of(GlobalId(last));
    assert(raw[order[at_first] as int] == ids[at_first].0);
    assert(raw[order[at_last] as int] == ids[at_last].0);
    assert(raw.contains(first) && raw.contains(last));
    assert(first == lo && last == hi);
    assert(seq![segment][0] == segment);
    assert(history::ref_of(*segment) is Some);
}

} // verus!
