//! Scalar (int8) quantization with exact rescoring.
//!
//! Each sealed segment stores, alongside its vectors, a compact `i8` copy. Search ranks
//! candidates with cheap integer distances over the codes, then **rescores** a small
//! over-fetched set with the exact vectors to recover the true order. Quantization is
//! symmetric: a single per-segment scale, no offset.

use vstd::prelude::*;
use vstd::slice::slice_subrange;

use crate::distance;
use crate::distance::Kernel;
use crate::distance::Metric;
use crate::id::PointId;
use crate::index;
use crate::index::hnsw::heuristic;
use crate::index::ScoredPoint;
use crate::ordered;
use crate::ordered::OrderedF32;
use crate::ranking;
use crate::ranking::Ranked;
use crate::vector;
use crate::vector::VectorStorage;

verus! {

/// The codes of a vector under a scale.
pub open spec fn codes_of<K: Kernel>(kernel: K, scale: u32, v: Seq<K::Elem>) -> Seq<i8> {
    Seq::new(v.len(), |i: int| kernel.spec_code(scale, v[i]))
}

/// The codes of every row, under the scale fitted to the whole buffer.
pub open spec fn coded_rows<K: Kernel>(
    kernel: K,
    flat: Seq<K::Elem>,
    rows: Seq<Seq<K::Elem>>,
) -> Seq<Seq<i8>> {
    Seq::new(rows.len(), |i: int| codes_of(kernel, kernel.spec_scale(flat), rows[i]))
}

/// The dot product of two code vectors.
pub open spec fn inner_i8(a: Seq<i8>, b: Seq<i8>) -> int
    decreases a.len(),
{
    if a.len() == 0 {
        0
    } else {
        inner_i8(a.drop_last(), b.drop_last()) + a.last() * b.last()
    }
}

/// The squared Euclidean distance of two code vectors.
pub open spec fn squared_i8(a: Seq<i8>, b: Seq<i8>) -> int
    decreases a.len(),
{
    if a.len() == 0 {
        0
    } else {
        squared_i8(a.drop_last(), b.drop_last()) + (a.last() - b.last()) * (a.last() - b.last())
    }
}

/// The integer metric between two code vectors, as a badness.
pub open spec fn code_badness(metric: Metric, a: Seq<i8>, b: Seq<i8>) -> OrderedF32 {
    let value = if metric.prefers_higher() {
        inner_i8(a, b)
    } else {
        squared_i8(a, b)
    };
    distance::badness_of(
        OrderedF32 { key: ordered::key_of_integer(distance::wrap_i32(value)) as i32 },
        metric.prefers_higher(),
    )
}

/// Dot product of two equal-length `i8` vectors, accumulated in `i32`.
pub fn dot_i8(a: &[i8], b: &[i8]) -> (sum: i32)
    requires
        a@.len() == b@.len(),
    ensures
        sum == distance::wrap_i32(inner_i8(a@, b@)),
{
    let mut sum: i32 = 0;
    for i in 0..a.len()
        invariant
            a@.len() == b@.len(),
            sum == distance::wrap_i32(inner_i8(a@.take(i as int), b@.take(i as int))),
    {
        let x: i32 = a[i] as i32;
        let y: i32 = b[i] as i32;
        proof {
            assert(a@.take(i + 1).drop_last() =~= a@.take(i as int));
            assert(b@.take(i + 1).drop_last() =~= b@.take(i as int));
            assert(-16384 <= x * y <= 16384) by (nonlinear_arith)
                requires
                    -128 <= x <= 127,
                    -128 <= y <= 127,
            ;
        }
        sum = sum.wrapping_add(x * y);
    }
    proof {
        assert(a@.take(a@.len() as int) =~= a@);
        assert(b@.take(a@.len() as int) =~= b@);
    }
    sum
}

/// Squared Euclidean distance of two equal-length `i8` vectors, accumulated in `i32`.
pub fn sq_l2_i8(a: &[i8], b: &[i8]) -> (sum: i32)
    requires
        a@.len() == b@.len(),
    ensures
        sum == distance::wrap_i32(squared_i8(a@, b@)),
{
    let mut sum: i32 = 0;
    for i in 0..a.len()
        invariant
            a@.len() == b@.len(),
            sum == distance::wrap_i32(squared_i8(a@.take(i as int), b@.take(i as int))),
    {
        let d: i32 = (a[i] as i32) - (b[i] as i32);
        proof {
            assert(a@.take(i + 1).drop_last() =~= a@.take(i as int));
            assert(b@.take(i + 1).drop_last() =~= b@.take(i as int));
            assert(0 <= d * d <= 65025) by (nonlinear_arith)
                requires
                    -255 <= d <= 255,
            ;
        }
        sum = sum.wrapping_add(d * d);
    }
    proof {
        assert(a@.take(a@.len() as int) =~= a@);
        assert(b@.take(a@.len() as int) =~= b@);
    }
    sum
}

/// A fitted symmetric int8 quantizer.
pub struct ScalarQuantizer<K: Kernel> {
    /// The kernel that reads vector components.
    pub kernel: K,
    /// The bit pattern of the scale.
    pub scale: u32,
}

impl<K: Kernel> ScalarQuantizer<K> {
    /// Fits a quantizer to a vector store.
    pub fn fit(storage: &VectorStorage<K>) -> (quantizer: ScalarQuantizer<K>)
        ensures
            quantizer.kernel == storage.kernel,
            quantizer.scale == storage.kernel.spec_scale(storage.data@),
    {
        let kernel = storage.kernel();
        let scale: u32 = kernel.fit_scale(storage.as_flat());
        ScalarQuantizer { kernel, scale }
    }

    /// The bit pattern of the quantization scale.
    pub fn scale(&self) -> (scale: u32)
        ensures
            scale == self.scale,
    {
        self.scale
    }

    /// Encodes a vector into `out` (cleared first).
    pub fn encode_into(&self, vector: &[K::Elem], out: &mut Vec<i8>)
        ensures
            final(out)@ == codes_of(self.kernel, self.scale, vector@),
    {
        out.clear();
        for i in 0..vector.len()
            invariant
                out@ == codes_of(self.kernel, self.scale, vector@).take(i as int),
        {
            out.push(self.kernel.encode_one(self.scale, vector[i]));
            assert(out@ =~= codes_of(self.kernel, self.scale, vector@).take(i + 1));
        }
        assert(out@ =~= codes_of(self.kernel, self.scale, vector@));
    }

    /// Encodes a vector into a fresh buffer.
    pub fn encode(&self, vector: &[K::Elem]) -> (codes: Vec<i8>)
        ensures
            codes@ == codes_of(self.kernel, self.scale, vector@),
    {
        let mut out: Vec<i8> = Vec::new();
        self.encode_into(vector, &mut out);
        out
    }
}

/// A contiguous block of int8-quantized vectors.
pub struct QuantizedVectorBlock<K: Kernel> {
    /// The codes, row-major.
    pub data: Vec<i8>,
    /// The dimensionality.
    pub dim: usize,
    /// The metric.
    pub metric: Metric,
    /// The fitted quantizer.
    pub quantizer: ScalarQuantizer<K>,
    /// The number of rows.
    pub count: usize,
}

impl<K: Kernel> QuantizedVectorBlock<K> {
    /// The block holds `count` rows of a non-zero dimensionality.
    pub open spec fn wf(&self) -> bool {
        self.dim > 0 && self.data@.len() == self.count * self.dim
    }

    /// The rows of codes.
    pub open spec fn rows(&self) -> Seq<Seq<i8>> {
        vector::rows_of(self.data@, self.dim as nat, self.count as nat)
    }

    /// The block is the quantized form of the given store.
    pub open spec fn quantizes(&self, storage: VectorStorage<K>) -> bool {
        &&& self.wf()
        &&& self.dim == storage.kernel.spec_dim()
        &&& self.metric == storage.kernel.spec_metric()
        &&& self.quantizer.kernel == storage.kernel
        &&& self.quantizer.scale == storage.kernel.spec_scale(storage.data@)
        &&& self.rows() == coded_rows(storage.kernel, storage.data@, storage.rows())
    }

    /// Builds a quantized block from a vector store.
    pub fn build(storage: &VectorStorage<K>) -> (block: QuantizedVectorBlock<K>)
        requires
            storage.wf(),
        ensures
            block.quantizes(*storage),
    {
        let quantizer = ScalarQuantizer::fit(storage);
        let dim: usize = storage.dim();
        let count: usize = storage.len();
        let mut data: Vec<i8> = Vec::new();
        let mut scratch: Vec<i8> = Vec::new();
        let ghost target = coded_rows(storage.kernel, storage.data@, storage.rows());
        proof {
            assert(0 * dim == 0) by (nonlinear_arith);
            assert(vector::rows_of(data@, dim as nat, 0) =~= target.take(0));
        }
        for i in 0..count
            invariant
                storage.wf(),
                count == storage.count,
                dim == storage.kernel.spec_dim(),
                quantizer.kernel == storage.kernel,
                quantizer.scale == storage.kernel.spec_scale(storage.data@),
                target == coded_rows(storage.kernel, storage.data@, storage.rows()),
                data@.len() == i * dim,
                vector::rows_of(data@, dim as nat, i as nat) == target.take(i as int),
        {
            quantizer.encode_into(storage.get(PointId::new(i as u32)), &mut scratch);
            proof {
                vector::lemma_rows_push(data@, scratch@, dim as nat, i as nat);
                assert(scratch@ == target[i as int]);
                assert(target.take(i + 1) =~= target.take(i as int).push(target[i as int]));
            }
            vector::append_slice(&mut data, scratch.as_slice());
        }
        assert(target.take(count as int) =~= target);
        QuantizedVectorBlock { data, dim, metric: storage.metric(), quantizer, count }
    }

    /// The number of quantized vectors.
    pub fn len(&self) -> (n: usize)
        ensures
            n == self.rows().len(),
    {
        self.count
    }

    /// Whether the block is empty.
    pub fn is_empty(&self) -> (r: bool)
        ensures
            r == (self.rows().len() == 0),
    {
        self.count == 0
    }

    /// The number of bytes used.
    pub fn byte_len(&self) -> (n: usize)
        requires
            self.wf(),
        ensures
            n == self.rows().len() * self.dim,
    {
        self.data.len()
    }

    /// The fitted quantizer (to encode queries).
    pub fn quantizer(&self) -> (quantizer: &ScalarQuantizer<K>)
        ensures
            *quantizer == self.quantizer,
    {
        &self.quantizer
    }

    /// The codes of row `id`.
    pub fn get(&self, id: u32) -> (row: &[i8])
        requires
            self.wf(),
            id < self.rows().len(),
        ensures
            row@ == self.rows()[id as int],
            row@.len() == self.dim,
    {
        let total: usize = self.data.len();
        proof {
            vector::lemma_row_bounds(id as int, self.dim as int, self.count as int);
            assert((id + 1) * self.dim <= total);
        }
        let start: usize = id as usize * self.dim;
        slice_subrange(self.data.as_slice(), start, start + self.dim)
    }

    /// Badness (smaller = closer) between a quantized query and stored point `id`, using
    /// the quantized metric.
    pub fn badness(&self, quantized_query: &[i8], id: u32) -> (b: OrderedF32)
        requires
            self.wf(),
            id < self.rows().len(),
            quantized_query@.len() == self.dim,
        ensures
            b == code_badness(self.metric, quantized_query@, self.rows()[id as int]),
    {
        let stored = self.get(id);
        match self.metric {
            Metric::Cosine => OrderedF32::from_i32(dot_i8(quantized_query, stored)).neg(),
            Metric::Dot => OrderedF32::from_i32(dot_i8(quantized_query, stored)).neg(),
            Metric::Euclidean => OrderedF32::from_i32(sq_l2_i8(quantized_query, stored)),
        }
    }

    /// Badness between two stored points.
    pub fn badness_between(&self, a: u32, b: u32) -> (d: OrderedF32)
        requires
            self.wf(),
            a < self.rows().len(),
            b < self.rows().len(),
        ensures
            d == code_badness(self.metric, self.rows()[a as int], self.rows()[b as int]),
    {
        self.badness(self.get(a), b)
    }
}

/// Candidates at their exact badness, in the order listed.
pub open spec fn rescored<K: Kernel>(
    kernel: K,
    rows: Seq<Seq<K::Elem>>,
    query: Seq<K::Elem>,
    candidates: Seq<Ranked>,
) -> Seq<Ranked> {
    Seq::new(
        candidates.len(),
        |i: int|
            ranking::rank_of(
                kernel.spec_score(query, rows[candidates[i].id as int]),
                candidates[i].id,
                kernel.spec_metric().prefers_higher(),
            ),
    )
}

/// The best `k` of the candidates by exact score, best first.
pub open spec fn rescored_topk<K: Kernel>(
    kernel: K,
    rows: Seq<Seq<K::Elem>>,
    query: Seq<K::Elem>,
    candidates: Seq<Ranked>,
    k: nat,
) -> Seq<ScoredPoint> {
    index::points_of(
        ranking::all_scored(
            ranking::top_k(rescored(kernel, rows, query, candidates), k),
            kernel.spec_metric().prefers_higher(),
        ),
    )
}

/// Rescores candidates with the exact kernel and returns the true top-k among them.
pub fn rescore<K: Kernel>(
    storage: &VectorStorage<K>,
    kernel: &K,
    query: &[K::Elem],
    candidates: &Vec<Ranked>,
    k: usize,
) -> (found: Vec<ScoredPoint>)
    requires
        storage.wf(),
        kernel.spec_dim() == storage.kernel.spec_dim(),
        query@.len() == kernel.spec_dim(),
        forall|i: int|
            0 <= i < candidates@.len() ==> (#[trigger] candidates@[i]).id < storage.rows().len(),
    ensures
        found@ == rescored_topk(*kernel, storage.rows(), query@, candidates@, k as nat),
{
    let higher = kernel.metric().higher_is_better();
    let ghost target = rescored(*kernel, storage.rows(), query@, candidates@);
    let mut pool: Vec<Ranked> = Vec::with_capacity(candidates.len());
    for i in 0..candidates.len()
        invariant
            storage.wf(),
            kernel.spec_dim() == storage.kernel.spec_dim(),
            query@.len() == kernel.spec_dim(),
            higher == kernel.spec_metric().prefers_higher(),
            forall|i: int|
                0 <= i < candidates@.len() ==> (#[trigger] candidates@[i]).id
                    < storage.rows().len(),
            target == rescored(*kernel, storage.rows(), query@, candidates@),
            pool@ == target.take(i as int),
    {
        let id: u64 = candidates[i].id;
        let score = kernel.score(query, storage.get(PointId::new(id as u32)));
        pool.push(ranking::rank_key(score, id, higher));
        assert(pool@ =~= target.take(i + 1));
    }
    assert(pool@ =~= target);
    let mut best = ranking::sort(&pool);
    if k < best.len() {
        best.truncate(k);
    }
    proof {
        assert(best@ =~= ranking::top_k(target, k as nat));
        ranking::law_top_k(target, k as nat);
        assert forall|i: int| 0 <= i < best@.len() implies (#[trigger] best@[i]).id <= u32::MAX by {
            assert(best@.contains(best@[i]));
            assert(target.contains(best@[i]));
            let j = target.index_of(best@[i]);
            assert(target[j].id == candidates@[j].id);
        }
    }
    let out = ranking::scored_from(&best, higher);
    index::to_points(&out)
}

/// Every row of a block with its quantized badness, in id order.
pub open spec fn code_pool(
    metric: Metric,
    rows: Seq<Seq<i8>>,
    quantized_query: Seq<i8>,
) -> Seq<Ranked> {
    Seq::new(
        rows.len(),
        |i: int| Ranked { badness: code_badness(metric, quantized_query, rows[i]), id: i as u64 },
    )
}

/// How many candidates a quantized search fetches before the rescore.
pub open spec fn fetch_count(k: nat, oversample: nat) -> nat {
    if oversample <= 1 {
        k
    } else {
        k * oversample
    }
}

/// Exact-rescore quantized search over a flat block: rank all points by quantized
/// distance, take the best `k * oversample`, then rescore those with the exact kernel and
/// return the true top-k.
pub fn quantized_rescore_search<K: Kernel>(
    block: &QuantizedVectorBlock<K>,
    storage: &VectorStorage<K>,
    kernel: &K,
    query: &[K::Elem],
    k: usize,
    oversample: usize,
) -> (found: Vec<ScoredPoint>)
    requires
        storage.wf(),
        block.quantizes(*storage),
        kernel.spec_dim() == storage.kernel.spec_dim(),
        query@.len() == kernel.spec_dim(),
        fetch_count(k as nat, oversample as nat) <= usize::MAX,
    ensures
        found@ == rescored_topk(
            *kernel,
            storage.rows(),
            query@,
            ranking::top_k(
                code_pool(
                    block.metric,
                    block.rows(),
                    codes_of(block.quantizer.kernel, block.quantizer.scale, query@),
                ),
                fetch_count(k as nat, oversample as nat),
            ),
            k as nat,
        ),
{
    let ghost codes = codes_of(block.quantizer.kernel, block.quantizer.scale, query@);
    let ghost pool_spec = code_pool(block.metric, block.rows(), codes);
    if k == 0 || block.is_empty() {
        proof {
            let best = ranking::top_k(pool_spec, fetch_count(k as nat, oversample as nat));
            let exact = rescored(*kernel, storage.rows(), query@, best);
            ranking::law_top_k(pool_spec, fetch_count(k as nat, oversample as nat));
            ranking::law_top_k(exact, k as nat);
            assert(fetch_count(0, oversample as nat) == 0) by (nonlinear_arith);
            assert(rescored_topk(*kernel, storage.rows(), query@, best, k as nat)
                =~= Seq::<ScoredPoint>::empty());
        }
        return Vec::new();
    }
    let quantized_query = block.quantizer().encode(query);
    let fetch: usize = if oversample <= 1 {
        k
    } else {
        k * oversample
    };
    let count: usize = block.len();
    let mut ranked: Vec<Ranked> = Vec::with_capacity(count);
    for i in 0..count
        invariant
            count == block.count,
            count == storage.count,
            storage.wf(),
            block.wf(),
            quantized_query@.len() == block.dim,
            pool_spec == code_pool(block.metric, block.rows(), quantized_query@),
            ranked@ == pool_spec.take(i as int),
    {
        ranked.push(
            Ranked { badness: block.badness(quantized_query.as_slice(), i as u32), id: i as u64 },
        );
        assert(ranked@ =~= pool_spec.take(i + 1));
    }
    assert(ranked@ =~= pool_spec);
    let mut best = ranking::sort(&ranked);
    if fetch < best.len() {
        best.truncate(fetch);
    }
    proof {
        assert(best@ =~= ranking::top_k(pool_spec, fetch as nat));
        ranking::law_top_k(pool_spec, fetch as nat);
        assert forall|i: int| 0 <= i < best@.len() implies (#[trigger] best@[i]).id
            < storage.rows().len() by {
            assert(best@.contains(best@[i]));
            assert(pool_spec.contains(best@[i]));
            let j = pool_spec.index_of(best@[i]);
            assert(pool_spec[j].id == j);
        }
    }
    rescore(storage, kernel, query, &best, k)
}

/// Once the over-fetch covers every row, a quantized search is exact: the rescore then sees
/// all of them, whatever order their codes put them in.
pub proof fn law_full_over_fetch_is_exact<K: Kernel>(
    kernel: K,
    metric: Metric,
    codes: Seq<Seq<i8>>,
    quantized_query: Seq<i8>,
    rows: Seq<Seq<K::Elem>>,
    query: Seq<K::Elem>,
    k: nat,
    fetch: nat,
)
    requires
        codes.len() == rows.len(),
        rows.len() <= u32::MAX,
        rows.len() <= fetch,
    ensures
        rescored_topk(
            kernel,
            rows,
            query,
            ranking::top_k(code_pool(metric, codes, quantized_query), fetch),
            k,
        ) == index::exact_topk(kernel, rows, query, k, |id: u32| true),
{
    let pool = code_pool(metric, codes, quantized_query);
    let sorted = ranking::sort_ranked(pool);
    let higher = kernel.spec_metric().prefers_higher();
    let all = |id: u32| true;
    ranking::law_sort_ranked(pool);
    heuristic::lemma_sort_distinct(pool);
    assert(ranking::top_k(pool, fetch) == sorted);
    let a = rescored(kernel, rows, query, sorted);
    let b = index::scan_pool(kernel, rows, query, all);
    index::lemma_scan_pool(kernel, rows, query, all);
    assert forall|i: int, j: int| 0 <= i < j < a.len() implies (#[trigger] a[i]).id != (
    #[trigger] a[j]).id by {
        assert(sorted[i].id != sorted[j].id);
    }
    assert forall|r: Ranked| #[trigger] a.contains(r) <==> b.contains(r) by {
        if a.contains(r) {
            let i = a.index_of(r);
            assert(sorted.contains(sorted[i]));
            assert(pool.contains(sorted[i]));
            assert(a[i].id == sorted[i].id);
        }
        if b.contains(r) {
            let entry = pool[r.id as int];
            assert(pool.contains(entry));
            assert(sorted.contains(entry));
            let i = sorted.index_of(entry);
            assert(a[i] == r);
        }
    }
    ranking::law_ranking_ignores_order(a, b);
}

} // verus!
