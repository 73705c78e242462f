//! What an index finds among its rows.

use vstd::prelude::*;

use crate::bitmap;
use crate::distance::Kernel;
use crate::distance::Metric;
use crate::id::PointId;
use crate::index;
use crate::index::hnsw;
use crate::index::hnsw::graph;
use crate::index::hnsw::heuristic;
use crate::index::hnsw::search::Graph;
use crate::index::hnsw::HnswIndex;
use crate::index::FilterContext;
use crate::index::Index;
use crate::index::SearchParams;
use crate::laws::beams;
use crate::laws::graphs;
use crate::ordered;
use crate::ordered::OrderedF32;
use crate::quantization;
use crate::ranking;
use crate::ranking::Ranked;
use roaring::RoaringBitmap;

verus! {

/// Whether one scored point is a better match than another: the higher score for dot
/// products and cosine, the lower one for Euclidean distance; between equal scores, the
/// smaller id.
pub open spec fn better(metric: Metric, score: OrderedF32, id: u64, other: OrderedF32, rival: u64) -> bool {
    match metric {
        Metric::Cosine => score.key > other.key || (score.key == other.key && id < rival),
        Metric::Dot => score.key > other.key || (score.key == other.key && id < rival),
        Metric::Euclidean => score.key < other.key || (score.key == other.key && id < rival),
    }
}

/// Ranking goes by what is a better match.
pub proof fn law_ranking_is_by_score_then_id(
    metric: Metric,
    score: OrderedF32,
    id: u64,
    other: OrderedF32,
    rival: u64,
)
    ensures
        ranking::rank_of(score, id, metric.prefers_higher()).before(
            ranking::rank_of(other, rival, metric.prefers_higher()),
        ) <==> better(metric, score, id, other, rival),
{
}

/// A row is admitted exactly if it is not tombstoned and the filter, if any, admits it.
pub proof fn law_admission_is_live_and_filtered(
    tombstones: Option<&RoaringBitmap>,
    filter: Option<&dyn FilterContext>,
    id: u32,
)
    ensures
        index::admission(index::tombstones_of(tombstones), filter)(id) <==> {
            &&& tombstones matches Some(t) ==> !bitmap::bitmap_ids(*t).contains(id)
            &&& filter matches Some(f) ==> f.admits(PointId(id))
        },
{
}

/// The admitted rows are counted one by one.
pub proof fn lemma_count_rows(n: nat, keeps: spec_fn(u32) -> bool)
    requires
        n <= u32::MAX,
    ensures
        index::count_rows(n, keeps) == beams::admitted_points(n, keeps).len(),
    decreases n,
{
    let points = beams::admitted_points(n, keeps);
    if n == 0 {
        assert(points =~= Set::empty());
    } else {
        let m = (n - 1) as nat;
        lemma_count_rows(m, keeps);
        let fewer = beams::admitted_points(m, keeps);
        beams::lemma_admitted_finite(m, keeps);
        if keeps(m as u32) {
            assert(points =~= fewer.insert(m as u32));
        } else {
            assert(points =~= fewer);
        }
    }
}

/// An exact scan returns the best admitted rows: as many as asked for or all there are,
/// each once, best first, at their scores, and each better than every admitted row that is
/// left out.
pub proof fn law_exact_scan_returns_the_best<K: Kernel>(
    kernel: K,
    rows: Seq<Seq<K::Elem>>,
    query: Seq<K::Elem>,
    k: nat,
    keeps: spec_fn(u32) -> bool,
)
    requires
        rows.len() <= u32::MAX,
    ensures
        ({
            let found = index::exact_topk(kernel, rows, query, k, keeps);
            let admitted = beams::admitted_points(rows.len(), keeps);
            &&& found.len() == if admitted.len() <= k {
                admitted.len()
            } else {
                k
            }
            &&& forall|i: int|
                0 <= i < found.len() ==> {
                    &&& (#[trigger] found[i]).id.0 < rows.len()
                    &&& keeps(found[i].id.0)
                    &&& found[i].score == kernel.spec_score(query, rows[found[i].id.0 as int])
                }
            &&& forall|i: int, j: int|
                0 <= i < j < found.len() ==> better(
                    kernel.spec_metric(),
                    (#[trigger] found[i]).score,
                    found[i].id.0 as u64,
                    (#[trigger] found[j]).score,
                    found[j].id.0 as u64,
                )
            &&& forall|id: u32|
                id < rows.len() && #[trigger] keeps(id) ==> {
                    ||| exists|i: int| 0 <= i < found.len() && (#[trigger] found[i]).id.0 == id
                    ||| forall|i: int|
                        0 <= i < found.len() ==> better(
                            kernel.spec_metric(),
                            (#[trigger] found[i]).score,
                            found[i].id.0 as u64,
                            kernel.spec_score(query, rows[id as int]),
                            id as u64,
                        )
                }
        }),
{
    let found = index::exact_topk(kernel, rows, query, k, keeps);
    let metric = kernel.spec_metric();
    let higher = metric.prefers_higher();
    index::law_exact_topk(kernel, rows, query, k, keeps);
    lemma_count_rows(rows.len(), keeps);
    assert forall|i: int, j: int| 0 <= i < j < found.len() implies better(
        metric,
        (#[trigger] found[i]).score,
        found[i].id.0 as u64,
        (#[trigger] found[j]).score,
        found[j].id.0 as u64,
    ) by {
        law_ranking_is_by_score_then_id(
            metric,
            found[i].score,
            found[i].id.0 as u64,
            found[j].score,
            found[j].id.0 as u64,
        );
    }
    assert forall|id: u32| id < rows.len() && #[trigger] keeps(id) implies {
        ||| exists|i: int| 0 <= i < found.len() && (#[trigger] found[i]).id.0 == id
        ||| forall|i: int|
            0 <= i < found.len() ==> better(
                metric,
                (#[trigger] found[i]).score,
                found[i].id.0 as u64,
                kernel.spec_score(query, rows[id as int]),
                id as u64,
            )
    } by {
        if forall|i: int| 0 <= i < found.len() ==> (#[trigger] found[i]).id.0 != id {
            assert forall|i: int| 0 <= i < found.len() implies better(
                metric,
                (#[trigger] found[i]).score,
                found[i].id.0 as u64,
                kernel.spec_score(query, rows[id as int]),
                id as u64,
            ) by {
                let y = ranking::rank_of(
                    kernel.spec_score(query, rows[id as int]),
                    id as u64,
                    higher,
                );
                let x = ranking::rank_of(found[i].score, found[i].id.0 as u64, higher);
                assert(!y.before(x));
                law_ranking_is_by_score_then_id(
                    metric,
                    found[i].score,
                    found[i].id.0 as u64,
                    kernel.spec_score(query, rows[id as int]),
                    id as u64,
                );
            }
        }
    }
}

/// A rescore returns the best of the candidates by their exact scores: as many as asked for
/// or all there are, best first, and each better than every candidate that is left out.
pub proof fn law_rescore_returns_the_best_candidates<K: Kernel>(
    kernel: K,
    rows: Seq<Seq<K::Elem>>,
    query: Seq<K::Elem>,
    candidates: Seq<Ranked>,
    k: nat,
)
    requires
        rows.len() <= u32::MAX,
        forall|i: int| 0 <= i < candidates.len() ==> (#[trigger] candidates[i]).id < rows.len(),
        forall|i: int, j: int|
            0 <= i < j < candidates.len() ==> (#[trigger] candidates[i]).id != (
            #[trigger] candidates[j]).id,
    ensures
        ({
            let found = quantization::rescored_topk(kernel, rows, query, candidates, k);
            &&& found.len() == if candidates.len() <= k {
                candidates.len()
            } else {
                k
            }
            &&& forall|i: int|
                0 <= i < found.len() ==> {
                    &&& (#[trigger] found[i]).id.0 < rows.len()
                    &&& exists|c: int|
                        0 <= c < candidates.len() && (#[trigger] candidates[c]).id
                            == found[i].id.0
                    &&& found[i].score == kernel.spec_score(query, rows[found[i].id.0 as int])
                }
            &&& forall|i: int, j: int|
                0 <= i < j < found.len() ==> better(
                    kernel.spec_metric(),
                    (#[trigger] found[i]).score,
                    found[i].id.0 as u64,
                    (#[trigger] found[j]).score,
                    found[j].id.0 as u64,
                )
            &&& forall|c: int|
                0 <= c < candidates.len() ==> {
                    ||| exists|i: int|
                        0 <= i < found.len() && (#[trigger] found[i]).id.0 == (
                        #[trigger] candidates[c]).id
                    ||| forall|i: int|
                        0 <= i < found.len() ==> better(
                            kernel.spec_metric(),
                            (#[trigger] found[i]).score,
                            found[i].id.0 as u64,
                            kernel.spec_score(query, rows[candidates[c].id as int]),
                            candidates[c].id,
                        )
                }
        }),
{
    let metric = kernel.spec_metric();
    let higher = metric.prefers_higher();
    let found = quantization::rescored_topk(kernel, rows, query, candidates, k);
    let pool = quantization::rescored(kernel, rows, query, candidates);
    let best = ranking::top_k(pool, k);
    let sorted = ranking::sort_ranked(pool);
    ranking::law_top_k(pool, k);
    ranking::law_sort_ranked(pool);
    assert(heuristic::distinct_ids(pool)) by {
        assert forall|i: int, j: int| 0 <= i < j < pool.len() implies (#[trigger] pool[i]).id != (
        #[trigger] pool[j]).id by {
            assert(candidates[i].id != candidates[j].id);
        }
    }
    heuristic::lemma_sort_distinct(pool);
    assert forall|i: int| 0 <= i < found.len() implies {
        &&& (#[trigger] found[i]).id.0 < rows.len()
        &&& exists|c: int|
            0 <= c < candidates.len() && (#[trigger] candidates[c]).id == found[i].id.0
        &&& found[i].score == kernel.spec_score(query, rows[found[i].id.0 as int])
        &&& ranking::rank_of(found[i].score, found[i].id.0 as u64, higher) == best[i]
    } by {
        assert(best.contains(best[i]));
        assert(pool.contains(best[i]));
        let c = pool.index_of(best[i]);
        assert(pool[c] == best[i]);
        assert(candidates[c].id < rows.len());
        ordered::law_negation_reverses_order(
            kernel.spec_score(query, rows[candidates[c].id as int]),
            best[i].badness,
        );
        assert(candidates[c].id == found[i].id.0);
    }
    assert forall|i: int, j: int| 0 <= i < j < found.len() implies better(
        metric,
        (#[trigger] found[i]).score,
        found[i].id.0 as u64,
        (#[trigger] found[j]).score,
        found[j].id.0 as u64,
    ) by {
        assert(best[i] == sorted[i] && best[j] == sorted[j]);
        assert(sorted[i].id != sorted[j].id);
        assert(!best[j].before(best[i]));
        law_ranking_is_by_score_then_id(
            metric,
            found[i].score,
            found[i].id.0 as u64,
            found[j].score,
            found[j].id.0 as u64,
        );
    }
    assert forall|c: int| 0 <= c < candidates.len() implies {
        ||| exists|i: int|
            0 <= i < found.len() && (#[trigger] found[i]).id.0 == (#[trigger] candidates[c]).id
        ||| forall|i: int|
            0 <= i < found.len() ==> better(
                metric,
                (#[trigger] found[i]).score,
                found[i].id.0 as u64,
                kernel.spec_score(query, rows[candidates[c].id as int]),
                candidates[c].id,
            )
    } by {
        let y = pool[c];
        assert(pool.contains(y));
        let p = sorted.index_of(y);
        assert(sorted.contains(y));
        if p < best.len() {
            assert(best[p] == y);
            assert(found[p].id.0 == candidates[c].id);
        } else {
            assert forall|i: int| 0 <= i < found.len() implies better(
                metric,
                (#[trigger] found[i]).score,
                found[i].id.0 as u64,
                kernel.spec_score(query, rows[candidates[c].id as int]),
                candidates[c].id,
            ) by {
                assert(best[i] == sorted[i]);
                assert(!sorted[p].before(sorted[i]));
                assert(sorted[i].id != sorted[p].id);
                law_ranking_is_by_score_then_id(
                    metric,
                    found[i].score,
                    found[i].id.0 as u64,
                    kernel.spec_score(query, rows[candidates[c].id as int]),
                    candidates[c].id,
                );
            }
        }
    }
}

/// An index search over exact distances whose beam is wide enough is exact. The beam is as
/// wide as the search asks for, as the index is configured for, or as there are results to
/// find, whichever is most. Where no fewer points than are admitted fit, and all of them can
/// be reached, the search returns the best admitted rows.
pub proof fn law_wide_search_is_exact<K: Kernel>(
    index: HnswIndex<K>,
    query: Seq<K::Elem>,
    k: nat,
    params: SearchParams,
    keeps: spec_fn(u32) -> bool,
)
    requires
        index.valid(),
        index.quantized is None,
        graphs::connected(index.graph.adjacency(), keeps),
        ({
            let admitted = beams::admitted_points(index.vectors.rows().len(), keeps).len();
            admitted <= params.ef || admitted <= index.config.ef_search || admitted <= k
        }),
    ensures
        ({
            let found = index.found(query, k, params, keeps);
            let rows = index.vectors.rows();
            let admitted = beams::admitted_points(rows.len(), keeps);
            &&& found.len() == if admitted.len() <= k {
                admitted.len()
            } else {
                k
            }
            &&& forall|id: u32|
                id < rows.len() && #[trigger] keeps(id) ==> {
                    ||| exists|i: int| 0 <= i < found.len() && (#[trigger] found[i]).id.0 == id
                    ||| forall|i: int|
                        0 <= i < found.len() ==> better(
                            index.kernel.spec_metric(),
                            (#[trigger] found[i]).score,
                            found[i].id.0 as u64,
                            index.kernel.spec_score(query, rows[id as int]),
                            id as u64,
                        )
                }
        }),
{
    let rows = index.vectors.rows();
    let metric = index.kernel.spec_metric();
    let found = index.found(query, k, params, keeps);
    let admitted = beams::admitted_points(rows.len(), keeps);
    beams::lemma_admitted_finite(rows.len(), keeps);
    if params.exact {
        law_exact_scan_returns_the_best(index.kernel, rows, query, k, keeps);
    } else if k == 0 || rows.len() == 0 {
    } else {
        let ef = hnsw::larger(
            hnsw::larger(params.ef as nat, index.config.ef_search as nat),
            k,
        );
        let dist = graph::query_distances(index.kernel, rows, query);
        let g = index.graph.state();
        let cands = index.candidates(query, k, params, keeps);
        assert(cands == graph::graph_search(g, dist, keeps, k, ef));
        graphs::law_wide_graph_search_is_exact(g, dist, keeps, k, ef);
        index.lemma_candidates(query, k, params, keeps);
        assert forall|i: int| 0 <= i < cands.len() implies (#[trigger] cands[i]).id
            < rows.len() by {}
        graph::law_graph_search(g, dist, keeps, k, ef);
        law_rescore_returns_the_best_candidates(index.kernel, rows, query, cands, k);
        assert forall|id: u32| id < rows.len() && #[trigger] keeps(id) implies {
            ||| exists|i: int| 0 <= i < found.len() && (#[trigger] found[i]).id.0 == id
            ||| forall|i: int|
                0 <= i < found.len() ==> better(
                    metric,
                    (#[trigger] found[i]).score,
                    found[i].id.0 as u64,
                    index.kernel.spec_score(query, rows[id as int]),
                    id as u64,
                )
        } by {
            let r = graphs::ranked_at(dist, id);
            if cands.contains(r) {
                let c = cands.index_of(r);
                assert(cands[c].id == id);
            } else {
                assert forall|i: int| 0 <= i < found.len() implies better(
                    metric,
                    (#[trigger] found[i]).score,
                    found[i].id.0 as u64,
                    index.kernel.spec_score(query, rows[id as int]),
                    id as u64,
                ) by {
                    let c = choose|c: int|
                        0 <= c < cands.len() && (#[trigger] cands[c]).id == found[i].id.0;
                    assert(cands[c].before(r));
                    assert(cands[c].badness == dist(cands[c].id as u32));
                    assert(cands[c] == ranking::rank_of(
                        found[i].score,
                        found[i].id.0 as u64,
                        metric.prefers_higher(),
                    ));
                    law_ranking_is_by_score_then_id(
                        metric,
                        found[i].score,
                        found[i].id.0 as u64,
                        index.kernel.spec_score(query, rows[id as int]),
                        id as u64,
                    );
                }
            }
        }
    }
}

/// Whether a row's code is closer to the query's code than another's: between equal
/// distances, the smaller id.
pub open spec fn closer_by_code<K: Kernel>(
    index: HnswIndex<K>,
    query: Seq<K::Elem>,
    id: u32,
    rival: u32,
) -> bool {
    let block = index.quantized->0;
    let kernel = block.quantizer.kernel;
    let code = Seq::new(query.len(), |i: int| kernel.spec_code(block.quantizer.scale, query[i]));
    let a = quantization::code_badness(block.metric, code, block.rows()[id as int]).key;
    let b = quantization::code_badness(block.metric, code, block.rows()[rival as int]).key;
    a < b || (a == b && id < rival)
}

/// A quantized index search whose beam is wide enough returns the best rows, by exact score,
/// of four times as many rows that are closest by their codes: no admitted row outside of
/// those is closer by code than one of them, and each returned row is better than every one
/// of them that is left out.
pub proof fn law_wide_quantized_search_rescores_the_closest<K: Kernel>(
    index: HnswIndex<K>,
    query: Seq<K::Elem>,
    k: nat,
    params: SearchParams,
    keeps: spec_fn(u32) -> bool,
) -> (pool: Set<u32>)
    requires
        index.valid(),
        index.quantized is Some,
        !params.exact,
        k > 0,
        4 * k <= usize::MAX,
        graphs::connected(index.graph.adjacency(), keeps),
        ({
            let admitted = beams::admitted_points(index.vectors.rows().len(), keeps).len();
            admitted <= params.ef || admitted <= index.config.ef_search || admitted <= 4 * k
        }),
    ensures
        ({
            let found = index.found(query, k, params, keeps);
            let rows = index.vectors.rows();
            let admitted = beams::admitted_points(rows.len(), keeps);
            &&& pool.subset_of(admitted)
            &&& pool.len() == if admitted.len() <= 4 * k {
                admitted.len()
            } else {
                4 * k
            }
            &&& forall|a: u32, b: u32|
                pool.contains(a) && admitted.contains(b) && !pool.contains(b)
                    ==> #[trigger] closer_by_code(index, query, a, b)
            &&& found.len() == if pool.len() <= k {
                pool.len()
            } else {
                k
            }
            &&& forall|i: int| 0 <= i < found.len() ==> pool.contains((#[trigger] found[i]).id.0)
            &&& forall|id: u32| #[trigger]
                pool.contains(id) ==> {
                    ||| exists|i: int| 0 <= i < found.len() && (#[trigger] found[i]).id.0 == id
                    ||| forall|i: int|
                        0 <= i < found.len() ==> better(
                            index.kernel.spec_metric(),
                            (#[trigger] found[i]).score,
                            found[i].id.0 as u64,
                            index.kernel.spec_score(query, rows[id as int]),
                            id as u64,
                        )
                }
        }),
{
    let rows = index.vectors.rows();
    let found = index.found(query, k, params, keeps);
    let admitted = beams::admitted_points(rows.len(), keeps);
    beams::lemma_admitted_finite(rows.len(), keeps);
    if rows.len() == 0 {
        assert(admitted =~= Set::empty());
        Set::empty()
    } else {
        let block = index.quantized->0;
        let codes = quantization::codes_of(block.quantizer.kernel, block.quantizer.scale, query);
        let dist = hnsw::code_distances(block.metric, block.rows(), codes);
        let fetch = 4 * k;
        let ef = hnsw::larger(
            hnsw::larger(hnsw::larger(params.ef as nat, index.config.ef_search as nat), k),
            fetch,
        );
        let g = index.graph.state();
        let cands = index.candidates(query, k, params, keeps);
        assert(hnsw::oversampled(k) == fetch);
        assert(cands == graph::graph_search(g, dist, keeps, fetch, ef));
        graphs::law_wide_graph_search_is_exact(g, dist, keeps, fetch, ef);
        graph::law_graph_search(g, dist, keeps, fetch, ef);
        index.lemma_candidates(query, k, params, keeps);
        assert forall|i: int| 0 <= i < cands.len() implies (#[trigger] cands[i]).id
            < rows.len() by {}
        law_rescore_returns_the_best_candidates(index.kernel, rows, query, cands, k);
        let ids = Seq::new(cands.len(), |i: int| cands[i].id as u32);
        assert(ids.no_duplicates()) by {
            assert forall|i: int, j: int|
                0 <= i < ids.len() && 0 <= j < ids.len() && i != j implies ids[i] != ids[j] by {
                if i < j {
                    assert(cands[i].id != cands[j].id);
                } else {
                    assert(cands[j].id != cands[i].id);
                }
            }
        }
        ids.unique_seq_to_set();
        let pool = ids.to_set();
        let code = Seq::new(
            query.len(),
            |i: int| block.quantizer.kernel.spec_code(block.quantizer.scale, query[i]),
        );
        assert(code =~= codes);
        assert forall|a: u32| #[trigger] pool.contains(a) implies exists|c: int|
            0 <= c < cands.len() && (#[trigger] cands[c]).id == a by {
            let c = ids.index_of(a);
            assert(cands[c].id == a);
        }
        assert(pool.subset_of(admitted)) by {
            assert forall|a: u32| pool.contains(a) implies admitted.contains(a) by {
                let c = choose|c: int| 0 <= c < cands.len() && (#[trigger] cands[c]).id == a;
                assert(keeps(cands[c].id as u32));
            }
        }
        assert forall|a: u32, b: u32|
            pool.contains(a) && admitted.contains(b) && !pool.contains(
                b,
            ) implies #[trigger] closer_by_code(index, query, a, b) by {
            let c = choose|c: int| 0 <= c < cands.len() && (#[trigger] cands[c]).id == a;
            let r = graphs::ranked_at(dist, b);
            assert(keeps(b));
            if cands.contains(r) {
                let d = cands.index_of(r);
                assert(ids[d] == b);
            }
            assert(cands[c].before(r));
            assert(cands[c].badness == dist(a));
        }
        assert forall|i: int| 0 <= i < found.len() implies pool.contains(
            (#[trigger] found[i]).id.0,
        ) by {
            let c = choose|c: int|
                0 <= c < cands.len() && (#[trigger] cands[c]).id == found[i].id.0;
            assert(ids[c] == found[i].id.0);
        }
        assert forall|id: u32| #[trigger] pool.contains(id) implies {
            ||| exists|i: int| 0 <= i < found.len() && (#[trigger] found[i]).id.0 == id
            ||| forall|i: int|
                0 <= i < found.len() ==> better(
                    index.kernel.spec_metric(),
                    (#[trigger] found[i]).score,
                    found[i].id.0 as u64,
                    index.kernel.spec_score(query, rows[id as int]),
                    id as u64,
                )
        } by {
            let c = choose|c: int| 0 <= c < cands.len() && (#[trigger] cands[c]).id == id;
            assert(cands[c].id == id);
        }
        pool
    }
}

/// Every result of an index search is an admitted row at its exact score, each once, best
/// first, and no more than asked for; a search that asks for an exact scan gets one.
pub proof fn law_index_results_are_exact_scores<K: Kernel>(
    index: HnswIndex<K>,
    query: Seq<K::Elem>,
    k: nat,
    params: SearchParams,
    keeps: spec_fn(u32) -> bool,
)
    requires
        index.valid(),
    ensures
        ({
            let found = index.found(query, k, params, keeps);
            let rows = index.vectors.rows();
            &&& found.len() <= k
            &&& forall|i: int|
                0 <= i < found.len() ==> {
                    &&& (#[trigger] found[i]).id.0 < rows.len()
                    &&& keeps(found[i].id.0)
                    &&& found[i].score == index.kernel.spec_score(
                        query,
                        rows[found[i].id.0 as int],
                    )
                }
            &&& forall|i: int, j: int|
                0 <= i < j < found.len() ==> better(
                    index.kernel.spec_metric(),
                    (#[trigger] found[i]).score,
                    found[i].id.0 as u64,
                    (#[trigger] found[j]).score,
                    found[j].id.0 as u64,
                )
            &&& params.exact ==> found.len() == if beams::admitted_points(
                rows.len(),
                keeps,
            ).len() <= k {
                beams::admitted_points(rows.len(), keeps).len()
            } else {
                k
            }
            &&& params.exact ==> forall|id: u32|
                id < rows.len() && #[trigger] keeps(id) ==> {
                    ||| exists|i: int| 0 <= i < found.len() && (#[trigger] found[i]).id.0 == id
                    ||| forall|i: int|
                        0 <= i < found.len() ==> better(
                            index.kernel.spec_metric(),
                            (#[trigger] found[i]).score,
                            found[i].id.0 as u64,
                            index.kernel.spec_score(query, rows[id as int]),
                            id as u64,
                        )
                }
        }),
{
    let found = index.found(query, k, params, keeps);
    let metric = index.kernel.spec_metric();
    hnsw::law_found(index, query, k, params, keeps);
    assert forall|i: int, j: int| 0 <= i < j < found.len() implies better(
        metric,
        (#[trigger] found[i]).score,
        found[i].id.0 as u64,
        (#[trigger] found[j]).score,
        found[j].id.0 as u64,
    ) by {
        law_ranking_is_by_score_then_id(
            metric,
            found[i].score,
            found[i].id.0 as u64,
            found[j].score,
            found[j].id.0 as u64,
        );
    }
    if params.exact {
        law_exact_scan_returns_the_best(index.kernel, index.vectors.rows(), query, k, keeps);
    }
}

} // verus!
