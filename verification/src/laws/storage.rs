//! Where rows, ids, codes and links lie in the arrays that hold them.

use std::sync::Arc;

use vstd::prelude::*;

use crate::collection;
use crate::distance::Kernel;
use crate::distance::Metric;
use crate::id::GlobalId;
use crate::index;
use crate::index::hnsw;
use crate::index::hnsw::graph;
use crate::index::hnsw::heuristic;
use crate::index::hnsw::parallel::ConcurrentBuilder;
use crate::index::hnsw::search::Graph;
use crate::index::HnswIndex;
use crate::index::Index;
use crate::index::ScoredPoint;
use crate::index::SearchParams;
use crate::quantization;
use crate::quantization::QuantizedVectorBlock;
use crate::ranking;
use crate::segment::codec;
use crate::segment::codec::SegmentData;
use crate::segment::id_map;
use crate::segment::search;
use crate::segment::SealedSegment;
use crate::vector;
use crate::vector::VectorStorage;

verus! {

/// Component `j` of row `i` lies at `i * dim + j` in the buffer.
pub proof fn law_rows_lie_one_after_the_other<K: Kernel>(storage: VectorStorage<K>, i: int, j: int)
    requires
        storage.wf(),
        0 <= i < storage.count,
        0 <= j < storage.kernel.spec_dim(),
    ensures
        storage.rows().len() == storage.count,
        storage.rows()[i].len() == storage.kernel.spec_dim(),
        storage.rows()[i][j] == storage.data@[i * storage.kernel.spec_dim() + j],
{
    vector::lemma_row_bounds(i, storage.kernel.spec_dim() as int, storage.count as int);
}

/// Vectors are stored as they are given, except that for cosine they are stored normalized.
pub proof fn law_only_cosine_changes_vectors<K: Kernel>(kernel: K, v: Seq<K::Elem>)
    ensures
        kernel.spec_metric() == Metric::Dot || kernel.spec_metric() == Metric::Euclidean
            ==> VectorStorage::ingested(kernel, v) == v,
        kernel.spec_metric() == Metric::Cosine ==> VectorStorage::ingested(kernel, v)
            == kernel.spec_normalized(v),
{
}

/// A quantized block holds the code of component `j` of row `i` at `i * dim + j`, under one
/// scale fitted to all components.
pub proof fn law_codes_lie_where_components_do<K: Kernel>(
    block: QuantizedVectorBlock<K>,
    storage: VectorStorage<K>,
    i: int,
    j: int,
)
    requires
        storage.wf(),
        block.quantizes(storage),
        0 <= i < storage.count,
        0 <= j < storage.kernel.spec_dim(),
    ensures
        block.count == storage.count,
        block.data@[i * block.dim + j] == storage.kernel.spec_code(
            storage.kernel.spec_scale(storage.data@),
            storage.data@[i * block.dim + j],
        ),
{
    vector::lemma_row_bounds(i, block.dim as int, storage.count as int);
    assert(block.rows().len() == storage.rows().len());
    assert(block.rows()[i] == quantization::codes_of(
        storage.kernel,
        storage.kernel.spec_scale(storage.data@),
        storage.rows()[i],
    ));
    assert(block.rows()[i][j] == block.data@[i * block.dim + j]);
    assert(storage.rows()[i][j] == storage.data@[i * block.dim + j]);
}

/// A quantized scan over-fetches by its factor, and never fetches fewer than it returns.
pub proof fn law_over_fetch_is_a_multiple(k: nat, factor: nat)
    ensures
        factor >= 1 ==> quantization::fetch_count(k, factor) == k * factor,
        factor == 0 ==> quantization::fetch_count(k, factor) == k,
        quantization::fetch_count(k, factor) >= k,
{
    if factor > 1 {
        assert(k * factor >= k) by (nonlinear_arith)
            requires
                factor > 1,
        ;
    }
    assert(k * 1 == k);
}

/// The live ids are those below the count that are not tombstoned, ascending.
pub proof fn law_live_ids_are_what_is_not_tombstoned(n: nat, tombstones: Set<u32>)
    requires
        n <= u32::MAX,
    ensures
        ({
            let ids = index::live_ids(n, tombstones);
            &&& forall|i: int, j: int|
                0 <= i < j < ids.len() ==> (#[trigger] ids[i]).0 < (#[trigger] ids[j]).0
            &&& forall|i: int|
                0 <= i < ids.len() ==> (#[trigger] ids[i]).0 < n && !tombstones.contains(ids[i].0)
            &&& forall|id: u32|
                id < n && !(#[trigger] tombstones.contains(id)) ==> exists|i: int|
                    0 <= i < ids.len() && (#[trigger] ids[i]).0 == id
        }),
    decreases n,
{
    if n > 0 {
        let m = (n - 1) as nat;
        law_live_ids_are_what_is_not_tombstoned(m, tombstones);
        let before = index::live_ids(m, tombstones);
        let ids = index::live_ids(n, tombstones);
        assert forall|id: u32| id < n && !(#[trigger] tombstones.contains(id)) implies exists|
            i: int,
        | 0 <= i < ids.len() && (#[trigger] ids[i]).0 == id by {
            if id < m {
                let i = choose|i: int| 0 <= i < before.len() && (#[trigger] before[i]).0 == id;
                assert(ids[i].0 == id);
            } else {
                assert(ids[before.len() as int].0 == id);
            }
        }
    }
}

/// Deleting a live point takes exactly one off the live count, and deleting it again none.
pub proof fn law_deleting_counts_once(n: nat, tombstones: Set<u32>, id: u32)
    requires
        n <= u32::MAX,
    ensures
        index::live_ids(n, tombstones.insert(id)).len() == index::live_ids(n, tombstones).len() - (
        if id < n && !tombstones.contains(id) {
            1int
        } else {
            0
        }),
        index::live_ids(n, Set::empty()).len() == n,
    decreases n,
{
    if n > 0 {
        law_deleting_counts_once((n - 1) as nat, tombstones, id);
    }
}

/// An id is found at the last row that bears it, if any does; its vector is that row's.
pub proof fn law_ids_are_found_at_their_last_row<E>(
    ids: Seq<GlobalId>,
    rows: Seq<Seq<E>>,
    id: u64,
    i: int,
)
    requires
        0 <= i < ids.len(),
        ids[i].0 == id,
        forall|j: int| i < j < ids.len() ==> (#[trigger] ids[j]).0 != id,
    ensures
        id_map::last_position(ids, id) == Some(i),
        search::vector_at(ids, rows, id) == Some(rows[i]),
{
    id_map::lemma_last_position(ids, id);
    assert(ids[i] == GlobalId(id));
    assert(ids.contains(GlobalId(id)));
    let p = id_map::last_position(ids, id)->0;
    assert(ids[p].0 == id);
    if p < i {
        assert(ids[i] != GlobalId(id));
    }
}

/// An id that no row bears has no vector.
pub proof fn law_unknown_ids_have_no_vector<E>(ids: Seq<GlobalId>, rows: Seq<Seq<E>>, id: u64)
    requires
        forall|j: int| 0 <= j < ids.len() ==> (#[trigger] ids[j]).0 != id,
    ensures
        id_map::last_position(ids, id) is None,
        search::vector_at(ids, rows, id) is None,
{
    id_map::lemma_last_position(ids, id);
}

/// Results of a segment carry the ids of their rows and keep their scores and order.
pub proof fn law_results_carry_global_ids(ids: Seq<GlobalId>, found: Seq<ScoredPoint>, i: int)
    requires
        0 <= i < found.len(),
    ensures
        search::globals_of(ids, found).len() == found.len(),
        search::globals_of(ids, found)[i].0 == ids[found[i].id.0 as int],
        search::globals_of(ids, found)[i].1 == found[i].score,
{
}

/// The rows of several segments count as the sum of their own, and so do the live ones.
pub proof fn law_segments_add_up<K: Kernel>(
    sealed: Seq<Arc<SealedSegment<K>>>,
    more: Arc<SealedSegment<K>>,
)
    ensures
        crate::segment::set::rows_in(Seq::<Arc<SealedSegment<K>>>::empty()) == 0,
        crate::segment::set::rows_in(sealed.push(more)) == crate::segment::set::rows_in(sealed)
            + more.rows().len(),
        crate::segment::set::live_in(Seq::<Arc<SealedSegment<K>>>::empty()) == 0,
        crate::segment::set::live_in(sealed.push(more)) == crate::segment::set::live_in(sealed)
            + index::live_ids(more.rows().len(), more.index.deleted.ids()).len(),
{
    assert(sealed.push(more).drop_last() =~= sealed);
}

/// The ground-layer neighbors of a point lie between its offset and the next one's.
pub proof fn law_ground_links_lie_between_offsets(layers: graph::GraphLayers, p: int, i: int)
    requires
        layers.graph_ok(),
        0 <= p < layers.levels@.len(),
    ensures
        ({
            let links = layers.adjacency()[p][0];
            &&& links.len() == layers.l0_offsets@[p + 1] - layers.l0_offsets@[p]
            &&& 0 <= i < links.len() ==> links[i] == layers.l0_links@[layers.l0_offsets@[p] + i]
        }),
{
    assert(layers.l0_offsets@[p] <= layers.l0_offsets@[p + 1]);
    assert(layers.l0_offsets@[p + 1] <= layers.l0_offsets@[layers.levels@.len() as int]);
}

/// The neighbors of a point on layer `l` above the ground are the list at `l - 1` of its slot;
/// a point without a slot has none.
pub proof fn law_upper_links_lie_in_slots(layers: graph::GraphLayers, p: int, l: int)
    requires
        layers.graph_ok(),
        0 <= p < layers.levels@.len(),
        l >= 1,
    ensures
        layers.upper_index@[p] == graph::NO_SLOT ==> layers.adjacency()[p].len() == 1,
        layers.upper_index@[p] != graph::NO_SLOT ==> {
            let slot = layers.upper@[layers.upper_index@[p] as int]@;
            &&& layers.adjacency()[p].len() == 1 + slot.len()
            &&& l <= slot.len() ==> layers.adjacency()[p][l] == slot[l - 1]@
        },
{
}

/// The beam of an index search is the widest of what the search asks for, what the index is
/// configured for and how many results are wanted, and no wider.
pub proof fn law_beam_is_the_widest_asked_for<K: Kernel>(
    index: HnswIndex<K>,
    query: Seq<K::Elem>,
    k: nat,
    params: SearchParams,
    keeps: spec_fn(u32) -> bool,
    width: nat,
)
    requires
        index.quantized is None,
        width >= params.ef,
        width >= index.config.ef_search,
        width >= k,
        width == params.ef || width == index.config.ef_search || width == k,
    ensures
        index.candidates(query, k, params, keeps) == graph::graph_search(
            index.graph.state(),
            graph::query_distances(index.kernel, index.vectors.rows(), query),
            keeps,
            k,
            width,
        ),
{
}

/// The beam of a quantized index search is also as wide as four times the number of results
/// wanted, and that many candidates are rescored.
pub proof fn law_quantized_beam_is_the_widest_asked_for<K: Kernel>(
    index: HnswIndex<K>,
    query: Seq<K::Elem>,
    k: nat,
    params: SearchParams,
    keeps: spec_fn(u32) -> bool,
    width: nat,
)
    requires
        index.quantized is Some,
        4 * k <= usize::MAX,
        width >= params.ef,
        width >= index.config.ef_search,
        width >= 4 * k,
        width == params.ef || width == index.config.ef_search || width == 4 * k,
    ensures
        ({
            let block = index.quantized->0;
            let codes = Seq::new(
                query.len(),
                |i: int| block.quantizer.kernel.spec_code(block.quantizer.scale, query[i]),
            );
            index.candidates(query, k, params, keeps) == graph::graph_search(
                index.graph.state(),
                hnsw::code_distances(block.metric, block.rows(), codes),
                keeps,
                4 * k,
                width,
            )
        }),
{
    let block = index.quantized->0;
    assert(Seq::new(
        query.len(),
        |i: int| block.quantizer.kernel.spec_code(block.quantizer.scale, query[i]),
    ) =~= quantization::codes_of(block.quantizer.kernel, block.quantizer.scale, query));
}

/// An exact search of an index, and any search of a flat index, scans all rows.
pub proof fn law_exact_searches_scan<K: Kernel>(
    hnsw: HnswIndex<K>,
    flat: index::FlatIndex<K>,
    query: Seq<K::Elem>,
    k: nat,
    params: SearchParams,
    keeps: spec_fn(u32) -> bool,
)
    ensures
        params.exact ==> hnsw.found(query, k, params, keeps) == index::exact_topk(
            hnsw.kernel,
            hnsw.vectors.rows(),
            query,
            k,
            keeps,
        ),
        flat.results(query, k, params, None) == index::exact_topk(
            flat.kernel,
            flat.storage.rows(),
            query,
            k,
            index::admission(flat.deleted.ids(), None),
        ),
{
}

/// A stored segment has, for each metric, a tag of its own.
pub proof fn law_metrics_have_tags(a: Metric, b: Metric)
    ensures
        codec::metric_tag(a) == codec::metric_tag(b) ==> a == b,
        codec::metric_tag(Metric::Cosine) == 0,
        codec::metric_tag(Metric::Dot) == 1,
        codec::metric_tag(Metric::Euclidean) == 2,
{
}

/// The data that describe a segment hold its vectors, ids, tombstones, parameters and graph.
pub proof fn law_stored_segment_is_whole<K: Kernel>(
    data: SegmentData<K::Elem>,
    segment: &SealedSegment<K>,
    i: int,
)
    requires
        codec::describes(data, *segment),
    ensures
        data.vectors@ == segment.index.vectors.data@,
        data.global_ids@.len() == segment.global_ids().len(),
        0 <= i < data.global_ids@.len() ==> data.global_ids@[i] == segment.global_ids()[i].0,
        forall|id: u32| #[trigger]
            segment.index.deleted.ids().contains(id) <==> data.deleted@.contains(id),
        segment.index.config.m <= u32::MAX ==> data.m == segment.index.config.m,
        segment.index.config.m_max0 <= u32::MAX ==> data.m_max0 == segment.index.config.m_max0,
        segment.index.config.ef_construction <= u32::MAX ==> data.ef_construction
            == segment.index.config.ef_construction,
        segment.index.config.ef_search <= u32::MAX ==> data.ef_search
            == segment.index.config.ef_search,
        data.seed == segment.index.config.seed,
        data.keep_pruned == segment.index.config.keep_pruned,
        data.quantization == segment.index.config.quantization,
        data.entry == segment.index.graph.entry,
        data.levels@ == segment.index.graph.levels@,
        data.l0_offsets@ == segment.index.graph.l0_offsets@,
        data.l0_links@ == segment.index.graph.l0_links@,
        data.upper_index@ == segment.index.graph.upper_index@,
        data.upper@.len() == segment.index.graph.upper@.len(),
        forall|s: int, l: int|
            0 <= s < data.upper@.len() && 0 <= l < data.upper@[s]@.len() ==> (
            #[trigger] data.upper@[s]@[l])@ == segment.index.graph.upper@[s]@[l]@,
{
    assert forall|id: u32| #[trigger]
        segment.index.deleted.ids().contains(id) <==> data.deleted@.contains(id) by {
        assert(data.deleted@.to_set().contains(id) <==> data.deleted@.contains(id));
    }
    let upper = segment.index.graph.upper@;
    assert forall|s: int, l: int|
        0 <= s < data.upper@.len() && 0 <= l < data.upper@[s]@.len() implies (
    #[trigger] data.upper@[s]@[l])@ == upper[s]@[l]@ by {
        let a = hnsw::builder::layers_of(data.upper@[s]@);
        let b = hnsw::builder::layers_of(upper[s]@);
        assert(a == b);
        assert(a[l] == b[l]);
        assert(a.len() == b.len());
    }
}

/// A quantized scan picks the rows whose codes are closest to the query's: as many as it
/// fetches or all there are, each once, and no row that is left out is closer than one that is
/// picked; between equal distances the smaller id is closer.
pub proof fn law_code_scan_picks_the_closest(
    metric: Metric,
    rows: Seq<Seq<i8>>,
    code: Seq<i8>,
    fetch: nat,
)
    requires
        rows.len() <= u32::MAX,
    ensures
        ({
            let picked = ranking::top_k(quantization::code_pool(metric, rows, code), fetch);
            &&& picked.len() == if rows.len() <= fetch {
                rows.len()
            } else {
                fetch
            }
            &&& forall|i: int|
                0 <= i < picked.len() ==> {
                    &&& (#[trigger] picked[i]).id < rows.len()
                    &&& picked[i].badness == quantization::code_badness(
                        metric,
                        code,
                        rows[picked[i].id as int],
                    )
                }
            &&& forall|r: int|
                0 <= r < rows.len() ==> {
                    let distance = quantization::code_badness(metric, code, #[trigger] rows[r]);
                    ||| exists|i: int| 0 <= i < picked.len() && (#[trigger] picked[i]).id == r
                    ||| forall|i: int|
                        0 <= i < picked.len() ==> (#[trigger] picked[i]).badness.key
                            < distance.key || (picked[i].badness.key == distance.key
                            && picked[i].id < r)
                }
        }),
{
    let pool = quantization::code_pool(metric, rows, code);
    let picked = ranking::top_k(pool, fetch);
    ranking::law_top_k(pool, fetch);
    assert forall|i: int| 0 <= i < picked.len() implies {
        &&& (#[trigger] picked[i]).id < rows.len()
        &&& picked[i].badness == quantization::code_badness(
            metric,
            code,
            rows[picked[i].id as int],
        )
    } by {
        let y = picked[i];
        assert(picked.contains(y));
        assert(pool.contains(y));
        let p = pool.index_of(y);
        assert(pool[p] == y);
    }
    assert forall|r: int| 0 <= r < rows.len() implies {
        let distance = quantization::code_badness(metric, code, #[trigger] rows[r]);
        ||| exists|i: int| 0 <= i < picked.len() && (#[trigger] picked[i]).id == r
        ||| forall|i: int|
            0 <= i < picked.len() ==> (#[trigger] picked[i]).badness.key < distance.key || (
            picked[i].badness.key == distance.key && picked[i].id < r)
    } by {
        let y = pool[r];
        assert(pool.contains(y));
        if picked.contains(y) {
            let i = picked.index_of(y);
            assert(picked[i].id == r);
        } else {
            assert forall|i: int| 0 <= i < picked.len() implies (#[trigger] picked[i]).badness.key
                < y.badness.key || (picked[i].badness.key == y.badness.key && picked[i].id < r) by {
                assert(!y.before(picked[i]));
                assert(picked[i] != y) by {
                    assert(picked.contains(picked[i]));
                }
            }
        }
    }
}

/// Distances in a graph are scores where a smaller score is better, and reversed scores where
/// a larger one is: the better of two scores is always the smaller distance.
pub proof fn law_better_scores_are_closer<K: Kernel>(
    kernel: K,
    rows: Seq<Seq<K::Elem>>,
    query: Seq<K::Elem>,
    a: u32,
    b: u32,
    c: u32,
)
    ensures
        ({
            let near = graph::query_distances(kernel, rows, query);
            let first = kernel.spec_score(query, rows[a as int]).key;
            let second = kernel.spec_score(query, rows[b as int]).key;
            &&& kernel.spec_metric() == Metric::Euclidean ==> (near(a).key < near(b).key <==> first
                < second)
            &&& kernel.spec_metric() != Metric::Euclidean ==> (near(a).key < near(b).key <==> first
                > second)
        }),
        ({
            let between = heuristic::row_pairs(kernel, rows);
            let first = kernel.spec_score(rows[c as int], rows[a as int]).key;
            let second = kernel.spec_score(rows[c as int], rows[b as int]).key;
            &&& kernel.spec_metric() == Metric::Euclidean ==> (between(c, a).key < between(c, b).key
                <==> first < second)
            &&& kernel.spec_metric() != Metric::Euclidean ==> (between(c, a).key < between(c, b).key
                <==> first > second)
        }),
{
}

/// A concurrent build measures by the rows, or by their codes where it is given any.
pub proof fn law_builds_measure_rows_or_codes<'q, K: Kernel>(
    builder: ConcurrentBuilder<'q, K>,
    a: u32,
    b: u32,
)
    ensures
        builder.quant is None ==> builder.pairs()(a, b) == heuristic::row_pairs(
            builder.kernel,
            builder.vectors.rows(),
        )(a, b),
        builder.quant matches Some(block) ==> builder.pairs()(a, b) == quantization::code_badness(
            block.metric,
            block.rows()[a as int],
            block.rows()[b as int],
        ),
{
}

/// A batch is stored under consecutive ids, each vector as it would be stored alone.
pub proof fn law_batches_get_consecutive_ids<K: Kernel>(
    kernel: K,
    first: u64,
    vectors: Seq<Seq<K::Elem>>,
    i: int,
)
    requires
        first + vectors.len() <= u64::MAX,
        0 <= i < vectors.len(),
    ensures
        collection::ids_from(first, vectors.len()).len() == vectors.len(),
        collection::ids_from(first, vectors.len())[i].0 == first + i,
        collection::all_ingested(kernel, vectors).len() == vectors.len(),
        collection::all_ingested(kernel, vectors)[i] == if kernel.spec_metric()
            == Metric::Cosine {
            kernel.spec_normalized(vectors[i])
        } else {
            vectors[i]
        },
{
}

} // verus!
