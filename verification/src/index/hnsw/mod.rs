//! HNSW (Hierarchical Navigable Small World) approximate nearest-neighbor index.
//!
//! A multi-layer proximity graph: upper layers are sparse "express lanes" for coarse
//! navigation, layer 0 holds everyone. Search greedily descends the upper layers, then
//! runs a beam search on layer 0. Building wires each new point to a diverse neighbor set
//! chosen by the heuristic in [`heuristic`].
//!
//! Sequential construction ([`builder`]) is deterministic; the sealed graph
//! ([`graph::GraphLayers`]) is immutable.

pub mod builder;
pub mod config;
pub mod construction;
pub mod graph;
pub mod heuristic;
pub mod invariants;
pub mod parallel;
pub mod rng;
pub mod search;
pub mod visited;

use std::sync::Arc;

use vstd::prelude::*;

use crate::distance::Kernel;
use crate::id::PointId;
use crate::index;
use crate::index::filter::FilterContext;
use crate::index::Index;
use crate::index::ScoredPoint;
use crate::index::SearchParams;
use crate::index::SoftDeleteSet;
use crate::ordered::OrderedF32;
use crate::quantization;
use crate::quantization::QuantizedVectorBlock;
use crate::ranking;
use crate::ranking::Ranked;
use crate::vector::VectorStorage;

use builder::GraphLayersBuilder;
use construction::GraphState;
use graph::QueryDistance;
use search::Distance;
use search::Graph;
use visited::VisitedList;
use visited::VisitedPool;

pub use config::HnswConfig;
pub use graph::GraphLayers;

verus! {

/// Candidate over-fetch factor for quantized search before the exact rescore.
pub const RESCORE_OVERSAMPLE: usize = 4;

/// Below this point count, [`HnswIndex::build_parallel`] uses the sequential build.
pub const PARALLEL_MIN: usize = 4096;

/// The quantized badness of each row relative to a quantized query.
pub open spec fn code_distances(
    metric: crate::distance::Metric,
    rows: Seq<Seq<i8>>,
    codes: Seq<i8>,
) -> spec_fn(u32) -> OrderedF32 {
    |id: u32| quantization::code_badness(metric, codes, rows[id as int])
}

/// The quantized badness of each row relative to a quantized query.
pub struct CodeDistance<'a, K: Kernel> {
    /// The quantized rows.
    pub block: &'a QuantizedVectorBlock<K>,
    /// The quantized query.
    pub codes: &'a [i8],
}

impl<'a, K: Kernel> Distance for CodeDistance<'a, K> {
    open spec fn badness_fn(&self) -> spec_fn(u32) -> OrderedF32 {
        code_distances(self.block.metric, self.block.rows(), self.codes@)
    }

    open spec fn measures(&self, id: u32) -> bool {
        self.block.wf() && self.codes@.len() == self.block.dim && id < self.block.rows().len()
    }

    fn badness(&self, id: u32) -> (b: OrderedF32) {
        self.block.badness(self.codes, id)
    }
}

/// The larger of two numbers.
pub open spec fn larger(a: nat, b: nat) -> nat {
    if a >= b {
        a
    } else {
        b
    }
}

/// The larger of two numbers.
fn max_of(a: usize, b: usize) -> (r: usize)
    ensures
        r == larger(a as nat, b as nat),
{
    if a >= b {
        a
    } else {
        b
    }
}

/// How many candidates a quantized search fetches: four times `k`, within `usize`.
pub open spec fn oversampled(k: nat) -> nat {
    if k * RESCORE_OVERSAMPLE <= usize::MAX {
        (k * RESCORE_OVERSAMPLE) as nat
    } else {
        usize::MAX as nat
    }
}

/// How many candidates a quantized search fetches.
fn oversample(k: usize) -> (fetch: usize)
    ensures
        fetch == oversampled(k as nat),
{
    match k.checked_mul(RESCORE_OVERSAMPLE) {
        Some(fetch) => fetch,
        None => usize::MAX,
    }
}

/// An HNSW index over a shared [`VectorStorage`].
pub struct HnswIndex<K: Kernel> {
    /// The shared vectors.
    pub vectors: Arc<VectorStorage<K>>,
    /// The distance kernel, the storage's own.
    pub kernel: K,
    /// The sealed graph.
    pub graph: GraphLayers,
    /// Optional int8 copy for low-memory ranking.
    pub quantized: Option<QuantizedVectorBlock<K>>,
    /// The tombstones.
    pub deleted: SoftDeleteSet,
    /// The parameters.
    pub config: HnswConfig,
    /// Reusable visited sets.
    pub pool: VisitedPool,
}

/// The int8 copy a config asks for.
fn quantize<K: Kernel>(vectors: &VectorStorage<K>, config: &HnswConfig) -> (block: Option<
    QuantizedVectorBlock<K>,
>)
    requires
        vectors.wf(),
    ensures
        block is Some <==> config.quantization,
        block matches Some(b) ==> b.quantizes(*vectors),
{
    if config.quantization {
        Some(QuantizedVectorBlock::build(vectors))
    } else {
        None
    }
}

impl<K: Kernel> HnswIndex<K> {
    /// The points a graph search proposes, before the exact rescore.
    pub open spec fn candidates(
        &self,
        query: Seq<K::Elem>,
        k: nat,
        params: SearchParams,
        keeps: spec_fn(u32) -> bool,
    ) -> Seq<Ranked> {
        let ef = larger(larger(params.ef as nat, self.config.ef_search as nat), k);
        match self.quantized {
            Some(block) => graph::graph_search(
                self.graph.state(),
                code_distances(
                    block.metric,
                    block.rows(),
                    quantization::codes_of(block.quantizer.kernel, block.quantizer.scale, query),
                ),
                keeps,
                larger(oversampled(k), k),
                larger(ef, larger(oversampled(k), k)),
            ),
            None => graph::graph_search(
                self.graph.state(),
                graph::query_distances(self.kernel, self.vectors.rows(), query),
                keeps,
                k,
                ef,
            ),
        }
    }

    /// What a search under an admission predicate returns: the exact scan where one is
    /// asked for, else the rescored candidates of the graph.
    pub open spec fn found(
        &self,
        query: Seq<K::Elem>,
        k: nat,
        params: SearchParams,
        keeps: spec_fn(u32) -> bool,
    ) -> Seq<ScoredPoint> {
        if params.exact {
            index::exact_topk(self.kernel, self.vectors.rows(), query, k, keeps)
        } else if k == 0 || self.vectors.rows().len() == 0 {
            Seq::empty()
        } else {
            quantization::rescored_topk(
                self.kernel,
                self.vectors.rows(),
                query,
                self.candidates(query, k, params, keeps),
                k,
            )
        }
    }

    /// The graph that sequential insertion builds over the stored vectors.
    pub open spec fn sequential_graph(vectors: VectorStorage<K>, config: HnswConfig) -> GraphState {
        construction::built(
            heuristic::row_pairs(vectors.kernel, vectors.rows()),
            config,
            GraphState {
                adj: builder::unlinked(vectors.kernel, config, vectors.rows().len()),
                entry: None,
                top: 0,
            },
            vectors.rows().len(),
        )
    }

    /// Builds an HNSW index over `vectors` with the given config. Deterministic in
    /// `(vectors, config)`.
    pub fn build(vectors: Arc<VectorStorage<K>>, config: HnswConfig) -> (index: HnswIndex<K>)
        requires
            vectors.wf(),
        ensures
            index.valid(),
            index.vectors == vectors,
            index.config == config,
            index.deleted.ids() == Set::<u32>::empty(),
            index.graph.state() == HnswIndex::sequential_graph(*vectors, config),
            invariants::valid_graph(config, index.graph.state(), vectors.rows().len()),
            index.graph.levels@.len() == vectors.rows().len(),
            forall|p: int|
                0 <= p < index.graph.levels@.len() ==> (#[trigger] index.graph.levels@[p])
                    == rng::level_of(
                    vectors.kernel,
                    p as u32,
                    config.seed,
                    config.m as nat,
                ),
    {
        let n: usize = vectors.len();
        let kernel = vectors.kernel();
        let mut builder = GraphLayersBuilder::new(vectors.clone(), kernel, config);
        let mut visited = VisitedList::new(max_of(n, 1));
        let ghost start = builder.state();
        let ghost pairs = builder.pairs();
        let ghost levels = builder.levels;
        for id in 0..n
            invariant
                builder.levels == levels,
                n <= u32::MAX,
                builder.wf(),
                builder.vectors == vectors,
                builder.kernel == kernel,
                builder.config == config,
                n == vectors.rows().len(),
                pairs == builder.pairs(),
                builder.state() == construction::built(pairs, config, start, id as nat),
                visited.wf(),
                visited.capacity() >= n,
        {
            builder.insert(id as u32, &mut visited);
        }
        proof {
            assert forall|p: int, l: int| 0 <= p < start.adj.len() && 0 <= l < start.adj[p].len() implies (
            #[trigger] start.adj[p][l]).len() == 0 by {}
            invariants::law_built_graph_is_valid(pairs, config, start, n as nat);
        }
        let graph = builder.into_graph_layers();
        let quantized = quantize(&vectors, &config);
        HnswIndex {
            vectors,
            kernel,
            graph,
            quantized,
            deleted: SoftDeleteSet::new(),
            config,
            pool: VisitedPool::new(max_of(n, 1)),
        }
    }

    /// Reconstructs an index from an already-built graph (e.g. loaded from disk), without
    /// rebuilding. `deleted_locals` re-applies tombstones.
    pub fn from_parts(
        vectors: Arc<VectorStorage<K>>,
        config: HnswConfig,
        graph: GraphLayers,
        deleted_locals: &[u32],
    ) -> (index: HnswIndex<K>)
        requires
            vectors.wf(),
            graph.searchable(vectors.rows().len()),
        ensures
            index.valid(),
            index.vectors == vectors,
            index.config == config,
            index.graph == graph,
            index.deleted.ids() == deleted_locals@.to_set(),
    {
        let n: usize = vectors.len();
        let kernel = vectors.kernel();
        let mut deleted = SoftDeleteSet::new();
        assert(deleted_locals@.take(0).to_set() =~= Set::<u32>::empty());
        for i in 0..deleted_locals.len()
            invariant
                deleted.wf(),
                deleted.ids() == deleted_locals@.take(i as int).to_set(),
        {
            let _ = deleted.delete(PointId::new(deleted_locals[i]));
            proof {
                let prefix = deleted_locals@.take(i as int);
                let longer = deleted_locals@.take(i + 1);
                assert(longer =~= prefix.push(deleted_locals@[i as int]));
                let x = deleted_locals@[i as int];
                assert forall|y: u32| longer.to_set().contains(y) <==> prefix.to_set().insert(
                    x,
                ).contains(y) by {
                    if prefix.contains(y) {
                        assert(longer[prefix.index_of(y)] == y);
                    }
                    if y == x {
                        assert(longer[i as int] == y);
                    }
                    if longer.contains(y) {
                        let j = longer.index_of(y);
                        if j < i {
                            assert(prefix[j] == y);
                        }
                    }
                }
                assert(longer.to_set() =~= prefix.to_set().insert(x));
            }
        }
        assert(deleted_locals@.take(deleted_locals@.len() as int) =~= deleted_locals@);
        let quantized = quantize(&vectors, &config);
        HnswIndex {
            vectors,
            kernel,
            graph,
            quantized,
            deleted,
            config,
            pool: VisitedPool::new(max_of(n, 1)),
        }
    }

    /// The sealed graph.
    pub fn graph(&self) -> (graph: &GraphLayers)
        ensures
            *graph == self.graph,
    {
        &self.graph
    }

    /// The shared vector storage.
    pub fn vectors(&self) -> (vectors: &Arc<VectorStorage<K>>)
        ensures
            *vectors == self.vectors,
    {
        &self.vectors
    }

    /// The construction config.
    pub fn config(&self) -> (config: HnswConfig)
        ensures
            config == self.config,
    {
        self.config
    }

    /// The tombstone set.
    pub fn deleted(&self) -> (deleted: &SoftDeleteSet)
        ensures
            *deleted == self.deleted,
    {
        &self.deleted
    }

    /// What the graph search proposes lies within the index and is admitted.
    pub proof fn lemma_candidates(
        &self,
        query: Seq<K::Elem>,
        k: nat,
        params: SearchParams,
        keeps: spec_fn(u32) -> bool,
    )
        requires
            self.valid(),
        ensures
            heuristic::distinct_ids(self.candidates(query, k, params, keeps)),
            forall|i: int|
                0 <= i < self.candidates(query, k, params, keeps).len() ==> {
                    let r = #[trigger] self.candidates(query, k, params, keeps)[i];
                    &&& r.id < self.vectors.rows().len()
                    &&& keeps(r.id as u32)
                },
    {
        let ef = larger(larger(params.ef as nat, self.config.ef_search as nat), k);
        match self.quantized {
            Some(block) => {
                let codes = quantization::codes_of(
                    block.quantizer.kernel,
                    block.quantizer.scale,
                    query,
                );
                graph::law_graph_search(
                    self.graph.state(),
                    code_distances(block.metric, block.rows(), codes),
                    keeps,
                    larger(oversampled(k), k),
                    larger(ef, larger(oversampled(k), k)),
                );
            },
            None => {
                graph::law_graph_search(
                    self.graph.state(),
                    graph::query_distances(self.kernel, self.vectors.rows(), query),
                    keeps,
                    k,
                    ef,
                );
            },
        }
    }
}

impl<K: Kernel> Index<K::Elem> for HnswIndex<K> {
    open spec fn valid(&self) -> bool {
        &&& self.vectors.wf()
        &&& self.kernel == self.vectors.kernel
        &&& self.graph.searchable(self.vectors.rows().len())
        &&& self.deleted.wf()
        &&& self.quantized is Some <==> self.config.quantization
        &&& self.quantized matches Some(block) ==> block.quantizes(*self.vectors)
        &&& self.pool.n >= self.vectors.rows().len()
    }

    open spec fn query_dim(&self) -> nat {
        self.kernel.spec_dim()
    }

    open spec fn total(&self) -> nat {
        self.vectors.rows().len()
    }

    open spec fn tombstones(&self) -> Set<u32> {
        self.deleted.ids()
    }

    open spec fn results(
        &self,
        query: Seq<K::Elem>,
        k: nat,
        params: SearchParams,
        filter: Option<&dyn FilterContext>,
    ) -> Seq<ScoredPoint> {
        self.found(query, k, params, index::admission(self.deleted.ids(), filter))
    }

    fn search(
        &self,
        query: &[K::Elem],
        k: usize,
        params: SearchParams,
        filter: Option<&dyn FilterContext>,
    ) -> (found: Vec<ScoredPoint>)
        ensures
            params.exact ==> found@ == index::exact_topk(
                self.kernel,
                self.vectors.rows(),
                query@,
                k as nat,
                index::admission(self.deleted.ids(), filter),
            ),
    {
        if params.exact {
            let deleted = self.deleted.snapshot();
            return index::scan_topk(
                &self.vectors,
                &self.kernel,
                query,
                k,
                Some(&*deleted),
                filter,
            );
        }
        if k == 0 || self.graph.len() == 0 {
            return Vec::new();
        }
        // Enforce ef >= k (and honor an explicit override / the config default).
        let ef: usize = max_of(max_of(params.ef, self.config.ef_search), k);
        let deleted = self.deleted.snapshot();
        let mut visited = self.pool.get();
        let candidates = match &self.quantized {
            Some(block) => {
                // Rank by quantized distance over an over-fetched beam.
                let codes = block.quantizer().encode(query);
                let dist = CodeDistance { block, codes: codes.as_slice() };
                let fetch: usize = max_of(oversample(k), k);
                self.graph.search_ids(
                    &dist,
                    fetch,
                    max_of(ef, fetch),
                    filter,
                    Some(&*deleted),
                    &mut visited,
                )
            },
            None => {
                let dist = QueryDistance { vectors: &self.vectors, kernel: self.kernel, query };
                self.graph.search_ids(&dist, k, ef, filter, Some(&*deleted), &mut visited)
            },
        };
        self.pool.put(visited);
        proof {
            let keeps = index::admission(self.deleted.ids(), filter);
            self.lemma_candidates(query@, k as nat, params, keeps);
            assert(candidates@ == self.candidates(query@, k as nat, params, keeps));
        }
        // Rescore candidates with the exact kernel and take the true top-k.
        quantization::rescore(&self.vectors, &self.kernel, query, &candidates, k)
    }

    fn delete(&mut self, id: PointId) -> (newly: bool)
        ensures
            final(self).vectors == old(self).vectors,
            final(self).graph == old(self).graph,
            final(self).config == old(self).config,
    {
        self.deleted.delete(id)
    }

    fn is_deleted(&self, id: PointId) -> (r: bool) {
        self.deleted.is_deleted(id)
    }

    fn live_len(&self) -> (n: usize) {
        let tombstones = self.deleted.snapshot();
        index::count_live(self.vectors.len(), &tombstones)
    }

    fn capacity(&self) -> (n: usize) {
        self.vectors.len()
    }

    fn is_empty(&self) -> (r: bool) {
        self.live_len() == 0
    }

    fn iter_live(&self) -> (ids: Vec<PointId>) {
        let tombstones = self.deleted.snapshot();
        index::list_live(self.vectors.len(), &tombstones)
    }
}

impl<K: Kernel + Send + Sync> HnswIndex<K> where K::Elem: Send + Sync {
    /// Builds an HNSW index, parallelizing graph construction for large inputs. Unlike
    /// [`HnswIndex::build`] the resulting graph is **not** deterministic. Inputs below
    /// [`PARALLEL_MIN`] go to the sequential build.
    pub fn build_parallel(vectors: Arc<VectorStorage<K>>, config: HnswConfig) -> (index: HnswIndex<
        K,
    >)
        requires
            vectors.wf(),
        ensures
            index.valid(),
            index.vectors == vectors,
            index.config == config,
            index.deleted.ids() == Set::<u32>::empty(),
            construction::within_bounds(config, index.graph.adjacency()),
            invariants::simple(index.graph.adjacency()),
            invariants::none_above(index.graph.state()),
            vectors.rows().len() >= 2 && invariants::connecting(config)
                ==> invariants::none_isolated(index.graph.adjacency(), vectors.rows().len()),
            vectors.rows().len() < PARALLEL_MIN ==> index.graph.state()
                == HnswIndex::sequential_graph(*vectors, config),
    {
        if vectors.len() < PARALLEL_MIN {
            let index = HnswIndex::build(vectors, config);
            proof {
                let g = index.graph.state();
                let all = search::ids_below(g.adj.len());
                assert forall|p: int| 0 <= p < g.adj.len() implies (#[trigger] g.adj[p]).len()
                    <= g.top + 1 by {
                    assert(all.contains(p as u32));
                }
            }
            index
        } else {
            HnswIndex::build_concurrent(vectors, config)
        }
    }

    /// Always-concurrent build (no size threshold).
    pub fn build_concurrent(vectors: Arc<VectorStorage<K>>, config: HnswConfig) -> (index:
        HnswIndex<K>)
        requires
            vectors.wf(),
        ensures
            index.valid(),
            index.vectors == vectors,
            index.config == config,
            index.deleted.ids() == Set::<u32>::empty(),
            construction::within_bounds(config, index.graph.adjacency()),
            invariants::simple(index.graph.adjacency()),
            invariants::none_above(index.graph.state()),
            vectors.rows().len() >= 2 && invariants::connecting(config)
                ==> invariants::none_isolated(index.graph.adjacency(), vectors.rows().len()),
            index.graph.levels@.len() == vectors.rows().len(),
            forall|p: int|
                0 <= p < index.graph.levels@.len() ==> (#[trigger] index.graph.levels@[p])
                    == rng::level_of(
                    vectors.kernel,
                    p as u32,
                    config.seed,
                    config.m as nat,
                ),
    {
        let kernel = vectors.kernel();
        let n: usize = vectors.len();
        // The int8 block comes first so that construction can use it; it is then kept for
        // search.
        let quantized = quantize(&vectors, &config);
        let graph = parallel::build_concurrent_graph(
            vectors.clone(),
            kernel,
            config,
            quantized.as_ref(),
        );
        HnswIndex {
            vectors,
            kernel,
            graph,
            quantized,
            deleted: SoftDeleteSet::new(),
            config,
            pool: VisitedPool::new(max_of(n, 1)),
        }
    }
}

/// The exact score of a result.
pub open spec fn exact_score<K: Kernel>(index: HnswIndex<K>, query: Seq<K::Elem>, id: PointId) -> OrderedF32 {
    index.kernel.spec_score(query, index.vectors.rows()[id.0 as int])
}

/// Every result under an admission predicate is admitted, carries its exact score, and
/// ranks before the next one; there are at most `k`.
pub proof fn law_found<K: Kernel>(
    index: HnswIndex<K>,
    query: Seq<K::Elem>,
    k: nat,
    params: SearchParams,
    keeps: spec_fn(u32) -> bool,
)
    requires
        index.valid(),
    ensures
        ({
            let found = index.found(query, k, params, keeps);
            let higher = index.kernel.spec_metric().prefers_higher();
            &&& found.len() <= k
            &&& forall|i: int|
                0 <= i < found.len() ==> {
                    &&& (#[trigger] found[i]).id.0 < index.vectors.rows().len()
                    &&& keeps(found[i].id.0)
                    &&& found[i].score == exact_score(index, query, found[i].id)
                }
            &&& forall|i: int, j: int|
                0 <= i < j < found.len() ==> ranking::rank_of(
                    (#[trigger] found[i]).score,
                    found[i].id.0 as u64,
                    higher,
                ).before(
                    ranking::rank_of((#[trigger] found[j]).score, found[j].id.0 as u64, higher),
                )
        }),
{
    let found = index.found(query, k, params, keeps);
    let higher = index.kernel.spec_metric().prefers_higher();
    let rows = index.vectors.rows();
    if params.exact {
        index::law_exact_topk(index.kernel, rows, query, k, keeps);
    } else if k > 0 && rows.len() > 0 {
        let cands = index.candidates(query, k, params, keeps);
        index.lemma_candidates(query, k, params, keeps);
        let pool = quantization::rescored(index.kernel, rows, query, cands);
        let best = ranking::top_k(pool, k);
        ranking::law_top_k(pool, k);
        ranking::law_sort_ranked(pool);
        assert(heuristic::distinct_ids(pool)) by {
            assert forall|i: int, j: int| 0 <= i < j < pool.len() implies (#[trigger] pool[i]).id != (
            #[trigger] pool[j]).id by {
                assert(cands[i].id != cands[j].id);
            }
        }
        heuristic::lemma_sort_distinct(pool);
        assert forall|i: int| 0 <= i < found.len() implies {
            &&& (#[trigger] found[i]).id.0 < rows.len()
            &&& keeps(found[i].id.0)
            &&& found[i].score == exact_score(index, query, found[i].id)
            &&& ranking::rank_of(found[i].score, found[i].id.0 as u64, higher) == best[i]
        } by {
            assert(best.contains(best[i]));
            assert(pool.contains(best[i]));
            let j = pool.index_of(best[i]);
            assert(pool[j] == best[i]);
            assert(cands[j].id < rows.len());
            assert(keeps(cands[j].id as u32));
            crate::ordered::law_negation_reverses_order(
                index.kernel.spec_score(query, rows[cands[j].id as int]),
                best[i].badness,
            );
        }
        assert forall|i: int, j: int| 0 <= i < j < found.len() implies ranking::rank_of(
            (#[trigger] found[i]).score,
            found[i].id.0 as u64,
            higher,
        ).before(ranking::rank_of((#[trigger] found[j]).score, found[j].id.0 as u64, higher)) by {
            let sorted = ranking::sort_ranked(pool);
            assert(best[i] == sorted[i]);
            assert(best[j] == sorted[j]);
            assert(sorted[i].id != sorted[j].id);
            assert(!best[j].before(best[i]));
        }
    }
}

/// Every search result is live, admitted by the filter, carries its exact score, and
/// ranks no worse than the next one; there are at most `k`, and no point occurs twice.
pub proof fn law_search_results<K: Kernel>(
    index: HnswIndex<K>,
    query: Seq<K::Elem>,
    k: nat,
    params: SearchParams,
    filter: Option<&dyn FilterContext>,
)
    requires
        index.valid(),
    ensures
        ({
            let found = index.results(query, k, params, filter);
            let higher = index.kernel.spec_metric().prefers_higher();
            &&& found.len() <= k
            &&& forall|i: int|
                0 <= i < found.len() ==> {
                    &&& (#[trigger] found[i]).id.0 < index.vectors.rows().len()
                    &&& !index.deleted.ids().contains(found[i].id.0)
                    &&& index::filter::passes(filter, found[i].id)
                    &&& found[i].score == exact_score(index, query, found[i].id)
                }
            &&& forall|i: int, j: int|
                0 <= i < j < found.len() ==> ranking::rank_of(
                    (#[trigger] found[i]).score,
                    found[i].id.0 as u64,
                    higher,
                ).before(
                    ranking::rank_of((#[trigger] found[j]).score, found[j].id.0 as u64, higher),
                )
        }),
{
    law_found(index, query, k, params, index::admission(index.deleted.ids(), filter));
}

} // verus!
