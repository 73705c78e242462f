//! What a search of segments and of a whole collection returns.

use std::sync::Arc;

use vstd::prelude::*;

use crate::collection::laws;
use crate::collection::merge;
use crate::collection::query;
use crate::collection::Collection;
use crate::collection::ScoredGlobal;
use crate::distance::Kernel;
use crate::distance::Metric;
use crate::id::GlobalId;
use crate::index;
use crate::index::hnsw::heuristic;
use crate::index::hnsw::search::Graph;
use crate::laws::beams;
use crate::laws::graphs;
use crate::laws::indexes;
use crate::ordered;
use crate::ordered::OrderedF32;
use crate::payload::Filter;
use crate::payload::JsonValue;
use crate::ranking;
use crate::ranking::Ranked;
use crate::segment::sealed;
use crate::segment::search;
use crate::segment::AppendableSegment;
use crate::segment::SealedSegment;
use crate::version::manifest;

verus! {

/// Whether one score is at least as good as another.
pub open spec fn no_worse(metric: Metric, score: OrderedF32, other: OrderedF32) -> bool {
    match metric {
        Metric::Cosine => score.key >= other.key,
        Metric::Dot => score.key >= other.key,
        Metric::Euclidean => score.key <= other.key,
    }
}

/// Whether a point is visible: not tombstoned, and accepted by the filter, if there is one,
/// on the payload it has, if it has one.
pub open spec fn is_visible(
    deletions: Set<u64>,
    filter: Option<&Filter>,
    payloads: Map<u64, Arc<JsonValue>>,
    id: u64,
) -> bool {
    &&& !deletions.contains(id)
    &&& filter matches Some(f) ==> f.accepts(
        if payloads.contains_key(id) {
            Some(*payloads[id])
        } else {
            None
        },
    )
}

/// A collection's searches see exactly the visible points.
pub proof fn law_searches_see_visible_points(
    deletions: Set<u64>,
    filter: Option<&Filter>,
    payloads: Map<u64, Arc<JsonValue>>,
    id: u64,
)
    ensures
        query::live(deletions, filter, payloads)(id) == is_visible(
            deletions,
            filter,
            payloads,
            id,
        ),
{
}

/// The admitted rows of a sealed segment are those that it has not tombstoned itself and
/// whose point is kept.
pub proof fn law_sealed_rows_are_admitted_by_point<K: Kernel>(
    segment: SealedSegment<K>,
    keeps: spec_fn(u64) -> bool,
    row: u32,
)
    ensures
        segment.admitted(keeps)(row) <==> {
            &&& !segment.index.deleted.ids().contains(row)
            &&& row < segment.global_ids().len()
            &&& keeps(segment.global_ids()[row as int].0)
        },
{
}

/// The rows of kept points.
pub open spec fn kept_rows_of(ids: Seq<GlobalId>, keeps: spec_fn(u64) -> bool) -> spec_fn(
    u32,
) -> bool {
    |row: u32| row < ids.len() && keeps(ids[row as int].0)
}

/// An appendable segment is searched exactly: it returns as many rows of kept points as asked
/// for, or all there are, each at its score and no worse than any that is left out.
pub proof fn law_appendable_search_is_exact<K: Kernel>(
    segment: AppendableSegment<K>,
    q: Seq<K::Elem>,
    k: nat,
    keeps: spec_fn(u64) -> bool,
)
    requires
        segment.wf(),
    ensures
        ({
            let found = segment.results(q, k, keeps);
            let ids = segment.global_ids();
            let rows = segment.rows();
            let kernel = segment.vectors.kernel;
            let all = beams::admitted_points(rows.len(), kept_rows_of(ids, keeps)).len();
            &&& found.len() == if all <= k {
                all
            } else {
                k
            }
            &&& forall|i: int|
                0 <= i < found.len() ==> {
                    &&& keeps((#[trigger] found[i]).0.0)
                    &&& exists|row: int|
                        0 <= row < rows.len() && ids[row] == found[i].0
                            && #[trigger] kernel.spec_score(q, rows[row]) == found[i].1
                }
            &&& forall|row: int|
                0 <= row < rows.len() && keeps((#[trigger] ids[row]).0) ==> {
                    ||| found.contains((ids[row], kernel.spec_score(q, rows[row])))
                    ||| found.len() == k && forall|i: int|
                        0 <= i < found.len() ==> no_worse(
                            kernel.spec_metric(),
                            (#[trigger] found[i]).1,
                            kernel.spec_score(q, rows[row]),
                        )
                }
        }),
{
    let ids = segment.global_ids();
    let rows = segment.rows();
    let kernel = segment.vectors.kernel;
    let kept = search::rows_kept(ids, keeps);
    assert(kept =~= kept_rows_of(ids, keeps));
    laws::lemma_appendable_results(segment, q, k, keeps);
    indexes::law_exact_scan_returns_the_best(kernel, rows, q, k, kept);
    lemma_scan_by_point(kernel, ids, rows, q, k, kept, keeps);
    let found = segment.results(q, k, keeps);
    assert forall|i: int| 0 <= i < found.len() implies {
        &&& keeps((#[trigger] found[i]).0.0)
        &&& exists|row: int|
            0 <= row < rows.len() && ids[row] == found[i].0 && #[trigger] kernel.spec_score(
                q,
                rows[row],
            ) == found[i].1
    } by {
        let l = choose|l: int|
            0 <= l < ids.len() && ids[l] == found[i].0 && #[trigger] kernel.spec_score(q, rows[l])
                == found[i].1;
        assert(kernel.spec_score(q, rows[l]) == found[i].1);
    }
}

/// What an exact scan returns, under global ids.
proof fn lemma_scan_by_point<K: Kernel>(
    kernel: K,
    ids: Seq<GlobalId>,
    rows: Seq<Seq<K::Elem>>,
    q: Seq<K::Elem>,
    k: nat,
    kept: spec_fn(u32) -> bool,
    keeps: spec_fn(u64) -> bool,
)
    requires
        rows.len() <= u32::MAX,
        ids.len() == rows.len(),
    ensures
        ({
            let found = search::globals_of(ids, index::exact_topk(kernel, rows, q, k, kept));
            forall|row: int|
                0 <= row < rows.len() && kept(row as u32) ==> {
                    ||| found.contains(
                        (#[trigger] ids[row], kernel.spec_score(q, rows[row])),
                    )
                    ||| found.len() == k && forall|i: int|
                        0 <= i < found.len() ==> no_worse(
                            kernel.spec_metric(),
                            (#[trigger] found[i]).1,
                            kernel.spec_score(q, rows[row]),
                        )
                }
        }),
{
    let best = index::exact_topk(kernel, rows, q, k, kept);
    let found = search::globals_of(ids, best);
    indexes::law_exact_scan_returns_the_best(kernel, rows, q, k, kept);
    let all = beams::admitted_points(rows.len(), kept);
    beams::lemma_admitted_finite(rows.len(), kept);
    assert forall|row: int| 0 <= row < rows.len() && kept(row as u32) implies {
        ||| found.contains((#[trigger] ids[row], kernel.spec_score(q, rows[row])))
        ||| found.len() == k && forall|i: int|
            0 <= i < found.len() ==> no_worse(
                kernel.spec_metric(),
                (#[trigger] found[i]).1,
                kernel.spec_score(q, rows[row]),
            )
    } by {
        let id = row as u32;
        if exists|i: int| 0 <= i < best.len() && (#[trigger] best[i]).id.0 == id {
            let i = choose|i: int| 0 <= i < best.len() && (#[trigger] best[i]).id.0 == id;
            assert(found[i] == (ids[row], kernel.spec_score(q, rows[row])));
        } else {
            assert(kept(id));
            assert forall|i: int| 0 <= i < found.len() implies no_worse(
                kernel.spec_metric(),
                (#[trigger] found[i]).1,
                kernel.spec_score(q, rows[row]),
            ) by {
                assert(best[i].score == found[i].1);
            }
            if best.len() < k {
                // Everything admitted was returned.
                lemma_all_returned(kernel, rows, q, k, kept, id);
            }
        }
    }
}

/// A scan that returns fewer rows than asked for returns every admitted row.
proof fn lemma_all_returned<K: Kernel>(
    kernel: K,
    rows: Seq<Seq<K::Elem>>,
    q: Seq<K::Elem>,
    k: nat,
    kept: spec_fn(u32) -> bool,
    id: u32,
)
    requires
        rows.len() <= u32::MAX,
        id < rows.len(),
        kept(id),
        index::exact_topk(kernel, rows, q, k, kept).len() < k,
    ensures
        exists|i: int|
            0 <= i < index::exact_topk(kernel, rows, q, k, kept).len() && (
            #[trigger] index::exact_topk(kernel, rows, q, k, kept)[i]).id.0 == id,
{
    let best = index::exact_topk(kernel, rows, q, k, kept);
    let all = beams::admitted_points(rows.len(), kept);
    indexes::law_exact_scan_returns_the_best(kernel, rows, q, k, kept);
    beams::lemma_admitted_finite(rows.len(), kept);
    let ids = Seq::new(best.len(), |i: int| best[i].id.0);
    assert(ids.no_duplicates()) by {
        assert forall|i: int, j: int|
            0 <= i < ids.len() && 0 <= j < ids.len() && i != j implies ids[i] != ids[j] by {
            if i < j {
                assert(indexes::better(
                    kernel.spec_metric(),
                    best[i].score,
                    best[i].id.0 as u64,
                    best[j].score,
                    best[j].id.0 as u64,
                ));
                if best[i].id.0 == best[j].id.0 {
                    assert(best[i].score == best[j].score);
                }
            } else {
                assert(indexes::better(
                    kernel.spec_metric(),
                    best[j].score,
                    best[j].id.0 as u64,
                    best[i].score,
                    best[i].id.0 as u64,
                ));
                if best[i].id.0 == best[j].id.0 {
                    assert(best[i].score == best[j].score);
                }
            }
        }
    }
    ids.unique_seq_to_set();
    assert(ids.to_set().subset_of(all)) by {
        assert forall|x: u32| ids.to_set().contains(x) implies all.contains(x) by {
            let i = ids.index_of(x);
            assert(best[i].id.0 == x);
        }
    }
    vstd::set_lib::lemma_subset_equality(ids.to_set(), all);
    assert(all.contains(id));
    assert(ids.to_set().contains(id));
    let i = ids.index_of(id);
    assert(best[i].id.0 == id);
}

/// A sealed segment returns as many admitted rows as asked for, or all there are, each at its
/// exact score. Where its graph is searched by exact distances, with a beam as wide as there
/// are admitted rows, and reaches all of them, no row that is left out is better.
pub proof fn law_sealed_search_is_complete<K: Kernel>(
    segment: SealedSegment<K>,
    q: Seq<K::Elem>,
    k: nat,
    keeps: spec_fn(u64) -> bool,
)
    requires
        segment.wf(),
    ensures
        ({
            let found = segment.results(q, k, keeps);
            let ids = segment.global_ids();
            let rows = segment.rows();
            let kernel = segment.index.kernel;
            let all = beams::admitted_points(rows.len(), segment.admitted(keeps)).len();
            &&& found.len() == if all <= k {
                all
            } else {
                k
            }
            &&& forall|i: int|
                0 <= i < found.len() ==> {
                    &&& keeps((#[trigger] found[i]).0.0)
                    &&& exists|row: int|
                        0 <= row < rows.len() && ids[row] == found[i].0
                            && #[trigger] kernel.spec_score(q, rows[row]) == found[i].1
                            && !segment.index.deleted.ids().contains(row as u32)
                }
            &&& all < k || (segment.index.quantized is None && graphs::connected(
                segment.index.graph.adjacency(),
                segment.admitted(keeps),
            ) && (all <= segment.index.config.ef_search || all <= k)) ==> forall|row: int|
                0 <= row < rows.len() && segment.admitted(keeps)(row as u32) ==> {
                    ||| found.contains((#[trigger] ids[row], kernel.spec_score(q, rows[row])))
                    ||| found.len() == k && forall|i: int|
                        0 <= i < found.len() ==> no_worse(
                            kernel.spec_metric(),
                            (#[trigger] found[i]).1,
                            kernel.spec_score(q, rows[row]),
                        )
                }
        }),
{
    let found = segment.results(q, k, keeps);
    let ids = segment.global_ids();
    let rows = segment.rows();
    let kernel = segment.index.kernel;
    let admitted = segment.admitted(keeps);
    let all = beams::admitted_points(rows.len(), admitted).len();
    sealed::law_sealed_results(&segment, q, k, keeps);
    indexes::lemma_count_rows(rows.len(), admitted);
    lemma_scan_by_point(kernel, ids, rows, q, k, admitted, keeps);
    let graph = segment.graph_results(q, k, keeps);
    if graph.len() >= k && segment.index.quantized is None && graphs::connected(
        segment.index.graph.adjacency(),
        admitted,
    ) && (all <= segment.index.config.ef_search || all <= k) {
        let params = sealed::default_params();
        indexes::law_wide_search_is_exact(segment.index, q, k, params, admitted);
        assert forall|row: int| 0 <= row < rows.len() && admitted(row as u32) implies {
            ||| found.contains((#[trigger] ids[row], kernel.spec_score(q, rows[row])))
            ||| found.len() == k && forall|i: int|
                0 <= i < found.len() ==> no_worse(
                    kernel.spec_metric(),
                    (#[trigger] found[i]).1,
                    kernel.spec_score(q, rows[row]),
                )
        } by {
            let id = row as u32;
            assert(admitted(id));
            if exists|i: int| 0 <= i < graph.len() && (#[trigger] graph[i]).id.0 == id {
                let i = choose|i: int| 0 <= i < graph.len() && (#[trigger] graph[i]).id.0 == id;
                indexes::law_index_results_are_exact_scores(
                    segment.index,
                    q,
                    k,
                    params,
                    admitted,
                );
                assert(found[i] == (ids[row], kernel.spec_score(q, rows[row])));
            } else {
                assert forall|i: int| 0 <= i < found.len() implies no_worse(
                    kernel.spec_metric(),
                    (#[trigger] found[i]).1,
                    kernel.spec_score(q, rows[row]),
                ) by {
                    assert(graph[i].score == found[i].1);
                }
            }
        }
    }
}

/// Merging keeps the best: where no two entries share an id, the merged results are `k` or
/// all there are, best first, and each is better than every entry that is left out.
pub proof fn law_merge_keeps_the_best(pool: Seq<Ranked>, k: nat, metric: Metric)
    requires
        heuristic::distinct_ids(pool),
    ensures
        ({
            let found = merge::merged(pool, k, metric.prefers_higher());
            &&& found.len() == if pool.len() <= k {
                pool.len()
            } else {
                k
            }
            &&& forall|i: int, j: int|
                0 <= i < j < found.len() ==> indexes::better(
                    metric,
                    (#[trigger] found[i]).score,
                    found[i].id.0,
                    (#[trigger] found[j]).score,
                    found[j].id.0,
                )
            &&& forall|score: OrderedF32, id: u64|
                pool.contains(#[trigger] ranking::rank_of(score, id, metric.prefers_higher()))
                    ==> {
                    ||| found.contains(ScoredGlobal { id: GlobalId(id), score })
                    ||| found.len() == k && forall|i: int|
                        0 <= i < found.len() ==> indexes::better(
                            metric,
                            (#[trigger] found[i]).score,
                            found[i].id.0,
                            score,
                            id,
                        )
                }
        }),
{
    let higher = metric.prefers_higher();
    let top = ranking::top_k(pool, k);
    let sorted = ranking::sort_ranked(pool);
    let scored = ranking::all_scored(top, higher);
    let found = merge::merged(pool, k, higher);
    ranking::law_top_k(pool, k);
    ranking::law_sort_ranked(pool);
    heuristic::lemma_sort_distinct(pool);
    assert forall|i: int, j: int| 0 <= i < j < scored.len() implies (#[trigger] scored[i]).id != (
    #[trigger] scored[j]).id by {
        assert(top[i] == sorted[i] && top[j] == sorted[j]);
        assert(sorted[i].id != sorted[j].id);
    }
    laws::lemma_distinct_are_kept(scored);
    lemma_distinct_unchanged(scored);
    assert forall|i: int| 0 <= i < found.len() implies ranking::rank_of(
        (#[trigger] found[i]).score,
        found[i].id.0,
        higher,
    ) == top[i] by {
        assert(found[i].id.0 == scored[i].id && found[i].score == scored[i].score);
        ordered::law_negation_reverses_order(top[i].badness, top[i].badness);
    }
    assert forall|i: int, j: int| 0 <= i < j < found.len() implies indexes::better(
        metric,
        (#[trigger] found[i]).score,
        found[i].id.0,
        (#[trigger] found[j]).score,
        found[j].id.0,
    ) by {
        assert(top[i] == sorted[i] && top[j] == sorted[j]);
        assert(!sorted[j].before(sorted[i]));
        assert(sorted[i].id != sorted[j].id);
        indexes::law_ranking_is_by_score_then_id(
            metric,
            found[i].score,
            found[i].id.0,
            found[j].score,
            found[j].id.0,
        );
    }
    assert forall|score: OrderedF32, id: u64|
        pool.contains(#[trigger] ranking::rank_of(score, id, higher)) implies {
        ||| found.contains(ScoredGlobal { id: GlobalId(id), score })
        ||| found.len() == k && forall|i: int|
            0 <= i < found.len() ==> indexes::better(
                metric,
                (#[trigger] found[i]).score,
                found[i].id.0,
                score,
                id,
            )
    } by {
        let x = ranking::rank_of(score, id, higher);
        assert(sorted.contains(x));
        let p = sorted.index_of(x);
        if p < top.len() {
            assert(top[p] == x);
            ordered::law_negation_reverses_order(score, score);
            assert(found[p] == ScoredGlobal { id: GlobalId(id), score });
        } else {
            assert forall|i: int| 0 <= i < found.len() implies indexes::better(
                metric,
                (#[trigger] found[i]).score,
                found[i].id.0,
                score,
                id,
            ) by {
                assert(top[i] == sorted[i]);
                assert(!sorted[p].before(sorted[i]));
                assert(sorted[i].id != sorted[p].id);
                indexes::law_ranking_is_by_score_then_id(
                    metric,
                    found[i].score,
                    found[i].id.0,
                    score,
                    id,
                );
            }
        }
    }
}

/// Entries whose ids all differ are kept in place.
proof fn lemma_distinct_unchanged(scored: Seq<ranking::Scored>)
    requires
        forall|i: int, j: int|
            0 <= i < j < scored.len() ==> (#[trigger] scored[i]).id != (#[trigger] scored[j]).id,
    ensures
        merge::first_of_each(scored).len() == scored.len(),
        forall|i: int|
            0 <= i < scored.len() ==> (#[trigger] merge::first_of_each(scored)[i]).id.0
                == scored[i].id && merge::first_of_each(scored)[i].score == scored[i].score,
    decreases scored.len(),
{
    laws::lemma_distinct_are_kept(scored);
    if scored.len() > 0 {
        let shorter = scored.drop_last();
        assert forall|i: int, j: int| 0 <= i < j < shorter.len() implies (
        #[trigger] shorter[i]).id != (#[trigger] shorter[j]).id by {
            assert(scored[i].id != scored[j].id);
        }
        lemma_distinct_unchanged(shorter);
        let rest = merge::first_of_each(shorter);
        let all = merge::first_of_each(scored);
        assert forall|i: int| 0 <= i < scored.len() implies (#[trigger] all[i]).id.0
            == scored[i].id && all[i].score == scored[i].score by {
            if i < shorter.len() {
                assert(all[i] == rest[i]);
                assert(shorter[i] == scored[i]);
            }
        }
    }
}

/// What each segment finds is offered.
proof fn lemma_offered_has<K: Kernel>(
    segments: Seq<Arc<SealedSegment<K>>>,
    q: Seq<K::Elem>,
    k: nat,
    keeps: spec_fn(u64) -> bool,
    higher: bool,
    s: int,
    i: int,
)
    requires
        0 <= s < segments.len(),
        0 <= i < segments[s].results(q, k, keeps).len(),
    ensures
        ({
            let r = segments[s].results(q, k, keeps)[i];
            merge::offered(segments, q, k, keeps, higher).contains(
                ranking::rank_of(r.1, r.0.0, higher),
            )
        }),
    decreases segments.len(),
{
    let shorter = segments.drop_last();
    let rest = merge::offered(shorter, q, k, keeps, higher);
    let all = merge::offered(segments, q, k, keeps, higher);
    let r = segments[s].results(q, k, keeps)[i];
    let x = ranking::rank_of(r.1, r.0.0, higher);
    if s < shorter.len() {
        assert(shorter[s] == segments[s]);
        lemma_offered_has(shorter, q, k, keeps, higher, s, i);
        let p = rest.index_of(x);
        assert(all[p] == x);
    } else {
        assert(all[rest.len() + i] == x);
    }
}

/// What a collection search merges names no point twice, where no point is stored twice.
proof fn lemma_pool<K: Kernel>(
    collection: Collection<K>,
    q: Seq<K::Elem>,
    k: nat,
    keeps: spec_fn(u64) -> bool,
)
    requires
        collection.wf(),
        laws::stored_once(collection.working.sealed@, collection.appendable.global_ids()),
    ensures
        ({
            let higher = collection.config.metric.prefers_higher();
            heuristic::distinct_ids(
                merge::offered(collection.working.sealed@, q, k, keeps, higher) + merge::ranks_of(
                    collection.appendable.results(q, k, keeps),
                    higher,
                ),
            )
        }),
{
    let segment = collection.appendable;
    let segments = collection.working.sealed@;
    let higher = collection.config.metric.prefers_higher();
    let kept = search::rows_kept(segment.global_ids(), keeps);
    index::law_exact_topk(segment.vectors.kernel, segment.rows(), q, k, kept);
    let found = index::exact_topk(segment.vectors.kernel, segment.rows(), q, k, kept);
    let recent = segment.results(q, k, keeps);
    let ranks = merge::ranks_of(recent, higher);
    assert(laws::stored_once(segments, Seq::empty()));
    laws::lemma_offered_distinct(segments, q, k, keeps, higher);
    laws::lemma_offered(segments, q, k, keeps, higher);
    let sealed_pool = merge::offered(segments, q, k, keeps, higher);
    let pool = sealed_pool + ranks;
    assert forall|i: int, j: int| 0 <= i < j < pool.len() implies (#[trigger] pool[i]).id != (
    #[trigger] pool[j]).id by {
        if j < sealed_pool.len() {
            assert(sealed_pool[i].id != sealed_pool[j].id);
        } else {
            let b = found[j - sealed_pool.len()].id.0 as int;
            assert(GlobalId(pool[j].id) == segment.global_ids()[b]);
            if i < sealed_pool.len() {
                assert(sealed_pool.contains(sealed_pool[i]));
                let s = choose|s: int|
                    0 <= s < segments.len() && (#[trigger] segments[s]).global_ids().contains(
                        GlobalId(sealed_pool[i].id),
                    );
                assert(segments[s].global_ids().contains(GlobalId(pool[i].id)));
                assert(segment.global_ids().contains(segment.global_ids()[b]));
            } else {
                let a = found[i - sealed_pool.len()].id.0 as int;
                assert(GlobalId(pool[i].id) == segment.global_ids()[a]);
                assert(found[i - sealed_pool.len()].id != found[j - sealed_pool.len()].id);
            }
        }
    }
}

/// Where no point is stored twice, a collection search returns the best of what its segments
/// find, sealed and appendable alike: whatever a segment finds is returned, or `k` points
/// that are all better.
pub proof fn law_search_merges_its_segments<K: Kernel>(
    collection: Collection<K>,
    q: Seq<K::Elem>,
    k: nat,
    filter: Option<&Filter>,
)
    requires
        collection.wf(),
        laws::stored_once(collection.working.sealed@, collection.appendable.global_ids()),
    ensures
        ({
            let found = collection.found(q, k, filter);
            let sealed = collection.working.sealed@;
            let metric = collection.config.metric;
            let sees = |id: u64|
                is_visible(
                    collection.working_deletions.ids(),
                    filter,
                    collection.payloads@,
                    id,
                );
            &&& forall|s: int, r: (GlobalId, OrderedF32)|
                0 <= s < sealed.len() && #[trigger] sealed[s].results(q, k, sees).contains(r) ==> {
                    ||| found.contains(ScoredGlobal { id: r.0, score: r.1 })
                    ||| found.len() == k && forall|i: int|
                        0 <= i < found.len() ==> indexes::better(
                            metric,
                            (#[trigger] found[i]).score,
                            found[i].id.0,
                            r.1,
                            r.0.0,
                        )
                }
            &&& forall|r: (GlobalId, OrderedF32)| #[trigger]
                collection.appendable.results(q, k, sees).contains(r) ==> {
                    ||| found.contains(ScoredGlobal { id: r.0, score: r.1 })
                    ||| found.len() == k && forall|i: int|
                        0 <= i < found.len() ==> indexes::better(
                            metric,
                            (#[trigger] found[i]).score,
                            found[i].id.0,
                            r.1,
                            r.0.0,
                        )
                }
        }),
{
    let found = collection.found(q, k, filter);
    let sealed = collection.working.sealed@;
    let metric = collection.config.metric;
    let higher = metric.prefers_higher();
    let sees = |id: u64|
        is_visible(collection.working_deletions.ids(), filter, collection.payloads@, id);
    let keeps = query::live(collection.working_deletions.ids(), filter, collection.payloads@);
    assert(keeps =~= sees);
    let offered = merge::offered(sealed, q, k, keeps, higher);
    let recent = collection.appendable.results(q, k, keeps);
    let ranks = merge::ranks_of(recent, higher);
    let pool = offered + ranks;
    lemma_pool(collection, q, k, keeps);
    law_merge_keeps_the_best(pool, k, metric);
    assert forall|s: int, r: (GlobalId, OrderedF32)|
        0 <= s < sealed.len() && #[trigger] sealed[s].results(q, k, sees).contains(r) implies {
        ||| found.contains(ScoredGlobal { id: r.0, score: r.1 })
        ||| found.len() == k && forall|i: int|
            0 <= i < found.len() ==> indexes::better(
                metric,
                (#[trigger] found[i]).score,
                found[i].id.0,
                r.1,
                r.0.0,
            )
    } by {
        let i = sealed[s].results(q, k, keeps).index_of(r);
        lemma_offered_has(sealed, q, k, keeps, higher, s, i);
        let x = ranking::rank_of(r.1, r.0.0, higher);
        assert(pool[offered.index_of(x)] == x);
        assert(pool.contains(x));
        assert(GlobalId(r.0.0) == r.0);
    }
    assert forall|r: (GlobalId, OrderedF32)| #[trigger]
        collection.appendable.results(q, k, sees).contains(r) implies {
        ||| found.contains(ScoredGlobal { id: r.0, score: r.1 })
        ||| found.len() == k && forall|i: int|
            0 <= i < found.len() ==> indexes::better(
                metric,
                (#[trigger] found[i]).score,
                found[i].id.0,
                r.1,
                r.0.0,
            )
    } by {
        let i = recent.index_of(r);
        let x = ranking::rank_of(r.1, r.0.0, higher);
        assert(pool[offered.len() + i] == x);
        assert(pool.contains(x));
        assert(GlobalId(r.0.0) == r.0);
    }
}

/// A time-travel search returns the best of what the version's own segments find among the
/// points that it had not deleted.
pub proof fn law_search_at_merges_the_version<K: Kernel>(
    collection: Collection<K>,
    version: u64,
    q: Seq<K::Elem>,
    k: nat,
    filter: Option<&Filter>,
)
    requires
        collection.wf(),
        laws::stored_once(collection.segments_at(version), Seq::empty()),
    ensures
        ({
            let found = collection.found_at(version, q, k, filter);
            let sealed = collection.segments_at(version);
            let metric = collection.config.metric;
            let sees = |id: u64|
                is_visible(
                    collection.versions.manifest(version).deletions.ids(),
                    filter,
                    collection.payloads@,
                    id,
                );
            &&& forall|s: int, r: (GlobalId, OrderedF32)|
                0 <= s < sealed.len() && #[trigger] sealed[s].results(q, k, sees).contains(r) ==> {
                    ||| found.contains(ScoredGlobal { id: r.0, score: r.1 })
                    ||| found.len() == k && forall|i: int|
                        0 <= i < found.len() ==> indexes::better(
                            metric,
                            (#[trigger] found[i]).score,
                            found[i].id.0,
                            r.1,
                            r.0.0,
                        )
                }
        }),
{
    let found = collection.found_at(version, q, k, filter);
    let sealed = collection.segments_at(version);
    let metric = collection.config.metric;
    let higher = metric.prefers_higher();
    let sees = |id: u64|
        is_visible(
            collection.versions.manifest(version).deletions.ids(),
            filter,
            collection.payloads@,
            id,
        );
    let keeps = query::live(collection.deletions_at(version), filter, collection.payloads@);
    assert(keeps =~= sees);
    query::lemma_registered(
        collection.all_segments@,
        manifest::ids_of(collection.versions.manifest(version).segments@),
    );
    assert forall|i: int| 0 <= i < sealed.len() implies (#[trigger] sealed[i]).wf() by {
        assert(query::in_registry(collection.all_segments@, sealed[i]));
    }
    let pool = merge::offered(sealed, q, k, keeps, higher);
    laws::lemma_offered_distinct(sealed, q, k, keeps, higher);
    law_merge_keeps_the_best(pool, k, metric);
    assert forall|s: int, r: (GlobalId, OrderedF32)|
        0 <= s < sealed.len() && #[trigger] sealed[s].results(q, k, sees).contains(r) implies {
        ||| found.contains(ScoredGlobal { id: r.0, score: r.1 })
        ||| found.len() == k && forall|i: int|
            0 <= i < found.len() ==> indexes::better(
                metric,
                (#[trigger] found[i]).score,
                found[i].id.0,
                r.1,
                r.0.0,
            )
    } by {
        let i = sealed[s].results(q, k, keeps).index_of(r);
        lemma_offered_has(sealed, q, k, keeps, higher, s, i);
        assert(GlobalId(r.0.0) == r.0);
    }
}

/// Every result of a collection search is a visible point at the exact score of a row that a
/// segment stores under it; there are no more than asked for, best first.
pub proof fn law_search_returns_visible_points<K: Kernel>(
    collection: Collection<K>,
    q: Seq<K::Elem>,
    k: nat,
    filter: Option<&Filter>,
)
    requires
        collection.wf(),
    ensures
        ({
            let found = collection.found(q, k, filter);
            let sealed = collection.working.sealed@;
            let recent = collection.appendable;
            &&& found.len() <= k
            &&& forall|i: int, j: int|
                0 <= i < j < found.len() ==> indexes::better(
                    collection.config.metric,
                    (#[trigger] found[i]).score,
                    found[i].id.0,
                    (#[trigger] found[j]).score,
                    found[j].id.0,
                )
            &&& forall|i: int|
                0 <= i < found.len() ==> {
                    &&& is_visible(
                        collection.working_deletions.ids(),
                        filter,
                        collection.payloads@,
                        (#[trigger] found[i]).id.0,
                    )
                    &&& {
                        ||| exists|row: int|
                            0 <= row < recent.rows().len() && recent.global_ids()[row]
                                == found[i].id && #[trigger] collection.kernel.spec_score(
                                q,
                                recent.rows()[row],
                            ) == found[i].score
                        ||| exists|s: int, row: int|
                            0 <= s < sealed.len() && 0 <= row < sealed[s].rows().len()
                                && sealed[s].global_ids()[row] == found[i].id
                                && #[trigger] collection.kernel.spec_score(
                                q,
                                sealed[s].rows()[row],
                            ) == found[i].score
                    }
                }
        }),
{
    let found = collection.found(q, k, filter);
    let sealed = collection.working.sealed@;
    let recent = collection.appendable;
    let metric = collection.config.metric;
    let kernel = collection.kernel;
    laws::law_search_returns_live_points(collection, q, k, filter);
    assert forall|i: int, j: int| 0 <= i < j < found.len() implies indexes::better(
        metric,
        (#[trigger] found[i]).score,
        found[i].id.0,
        (#[trigger] found[j]).score,
        found[j].id.0,
    ) by {
        indexes::law_ranking_is_by_score_then_id(
            metric,
            found[i].score,
            found[i].id.0,
            found[j].score,
            found[j].id.0,
        );
    }
    assert forall|i: int| 0 <= i < found.len() implies {
        &&& is_visible(
            collection.working_deletions.ids(),
            filter,
            collection.payloads@,
            (#[trigger] found[i]).id.0,
        )
        &&& {
            ||| exists|row: int|
                0 <= row < recent.rows().len() && recent.global_ids()[row] == found[i].id
                    && #[trigger] kernel.spec_score(q, recent.rows()[row]) == found[i].score
            ||| exists|s: int, row: int|
                0 <= s < sealed.len() && 0 <= row < sealed[s].rows().len()
                    && sealed[s].global_ids()[row] == found[i].id && #[trigger] kernel.spec_score(
                    q,
                    sealed[s].rows()[row],
                ) == found[i].score
        }
    } by {
        let r = found[i];
        law_searches_see_visible_points(
            collection.working_deletions.ids(),
            filter,
            collection.payloads@,
            r.id.0,
        );
        if laws::found_among(sealed, q, r.id, r.score) {
            let s = choose|s: int|
                0 <= s < sealed.len() && laws::sealed_at_score(
                    *(#[trigger] sealed[s]),
                    q,
                    r.id,
                    r.score,
                );
            let row = choose|row: int|
                0 <= row < sealed[s].global_ids().len() && sealed[s].global_ids()[row] == r.id
                    && #[trigger] sealed[s].index.kernel.spec_score(q, sealed[s].rows()[row])
                    == r.score;
            assert(sealed[s].index.kernel == kernel);
            assert(kernel.spec_score(q, sealed[s].rows()[row]) == r.score);
        } else {
            let row = choose|row: int|
                0 <= row < recent.global_ids().len() && recent.global_ids()[row] == r.id
                    && #[trigger] recent.vectors.kernel.spec_score(q, recent.rows()[row])
                    == r.score;
            assert(kernel.spec_score(q, recent.rows()[row]) == r.score);
        }
    }
}

/// The segments of a past version are those that its manifest lists, in order, as they were
/// registered.
pub proof fn law_version_is_made_of_its_segments<K: Kernel>(
    collection: Collection<K>,
    version: u64,
)
    requires
        ({
            let refs = collection.versions.manifest(version).segments@;
            forall|i: int|
                0 <= i < refs.len() ==> collection.all_segments@.contains_key(
                    (#[trigger] refs[i]).id,
                )
        }),
    ensures
        ({
            let refs = collection.versions.manifest(version).segments@;
            let segments = collection.segments_at(version);
            &&& segments.len() == refs.len()
            &&& forall|i: int|
                0 <= i < refs.len() ==> (#[trigger] segments[i])
                    == collection.all_segments@[refs[i].id]
        }),
{
    let refs = collection.versions.manifest(version).segments@;
    let ids = manifest::ids_of(refs);
    assert forall|i: int| 0 <= i < ids.len() implies collection.all_segments@.contains_key(
        #[trigger] ids[i],
    ) by {
        assert(ids[i] == refs[i].id);
    }
    lemma_all_registered(collection.all_segments@, ids);
}

proof fn lemma_all_registered<K: Kernel>(all: Map<u64, Arc<SealedSegment<K>>>, ids: Seq<u64>)
    requires
        forall|i: int| 0 <= i < ids.len() ==> all.contains_key(#[trigger] ids[i]),
    ensures
        query::registered(all, ids).len() == ids.len(),
        forall|i: int|
            0 <= i < ids.len() ==> (#[trigger] query::registered(all, ids)[i]) == all[ids[i]],
    decreases ids.len(),
{
    if ids.len() > 0 {
        let shorter = ids.drop_last();
        assert forall|i: int| 0 <= i < shorter.len() implies all.contains_key(
            #[trigger] shorter[i],
        ) by {
            assert(shorter[i] == ids[i]);
        }
        lemma_all_registered(all, shorter);
        assert(all.contains_key(ids[ids.len() - 1]));
    }
}

} // verus!
