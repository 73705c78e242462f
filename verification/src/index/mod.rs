//! The vector-index seam.
//!
//! Every index type (the [`FlatIndex`] brute-force scanner and the HNSW graph)
//! implements the [`Index`] trait. Ids at this layer are **segment-local** [`PointId`]s;
//! the local-to-global mapping lives one level up in the segment.
//!
//! [`brute_force_topk`] is the exact oracle of top-k search, and
//! [`exact_topk`] is what it computes.

pub mod deleted;
pub mod filter;
pub mod flat;
pub mod hnsw;

use vstd::prelude::*;
use roaring::RoaringBitmap;

use crate::bitmap;
use crate::distance::Kernel;
use crate::id::PointId;
use crate::index::hnsw::heuristic;
use crate::ordered::OrderedF32;
use crate::ranking;
use crate::ranking::BoundedTopK;
use crate::ranking::Ranked;
use crate::ranking::Scored;
use crate::vector::VectorStorage;

pub use deleted::should_rebuild;
pub use deleted::SoftDeleteSet;
pub use filter::AllowAll;
pub use filter::BitmapFilter;
pub use filter::CardinalityEstimate;
pub use filter::FilterContext;
pub use flat::FlatIndex;
pub use hnsw::HnswConfig;
pub use hnsw::HnswIndex;

verus! {

/// A scored search result: a segment-local id and its raw metric score.
#[derive(Debug, Clone, Copy, PartialEq, Eq, Structural)]
pub struct ScoredPoint {
    /// The segment-local point id.
    pub id: PointId,
    /// The raw metric score.
    pub score: OrderedF32,
}

/// Per-query search tuning shared across index types.
#[derive(Debug, Clone, Copy, PartialEq, Eq, Structural)]
pub struct SearchParams {
    /// The HNSW search beam width. `0` (the default) means "let the index choose" (and
    /// is ignored by exact indexes). Always effectively at least `k`.
    pub ef: usize,
    /// Force an exact scan even if an approximate path exists.
    pub exact: bool,
}

impl Default for SearchParams {
    fn default() -> (params: SearchParams)
        ensures
            params == (SearchParams { ef: 0, exact: false }),
    {
        SearchParams { ef: 0, exact: false }
    }
}

/// The ids that are neither tombstoned nor rejected by the filter.
pub open spec fn admission(tombstones: Set<u32>, filter: Option<&dyn FilterContext>) -> spec_fn(
    u32,
) -> bool {
    |id: u32| !tombstones.contains(id) && filter::passes(filter, PointId(id))
}

/// The tombstones of an optional bitmap: none means nothing is tombstoned.
pub open spec fn tombstones_of(tombstones: Option<&RoaringBitmap>) -> Set<u32> {
    match tombstones {
        Some(t) => bitmap::bitmap_ids(*t),
        None => Set::empty(),
    }
}

/// Every admitted row with its badness, in id order.
pub open spec fn scan_pool<K: Kernel>(
    kernel: K,
    rows: Seq<Seq<K::Elem>>,
    query: Seq<K::Elem>,
    keeps: spec_fn(u32) -> bool,
) -> Seq<Ranked>
    decreases rows.len(),
{
    if rows.len() == 0 {
        Seq::empty()
    } else {
        let rest = scan_pool(kernel, rows.drop_last(), query, keeps);
        let id = (rows.len() - 1) as u32;
        if keeps(id) {
            rest.push(
                ranking::rank_of(
                    kernel.spec_score(query, rows.last()),
                    id as u64,
                    kernel.spec_metric().prefers_higher(),
                ),
            )
        } else {
            rest
        }
    }
}

/// How many of the first `n` rows are admitted.
pub open spec fn count_rows(n: nat, keeps: spec_fn(u32) -> bool) -> nat
    decreases n,
{
    if n == 0 {
        0
    } else {
        count_rows((n - 1) as nat, keeps) + if keeps((n - 1) as u32) {
            1nat
        } else {
            0nat
        }
    }
}

/// Scored ids as segment-local results.
pub open spec fn points_of(scored: Seq<Scored>) -> Seq<ScoredPoint> {
    Seq::new(
        scored.len(),
        |i: int| ScoredPoint { id: PointId(scored[i].id as u32), score: scored[i].score },
    )
}

/// The best `k` admitted rows for a query, best first, ties broken by ascending id.
pub open spec fn exact_topk<K: Kernel>(
    kernel: K,
    rows: Seq<Seq<K::Elem>>,
    query: Seq<K::Elem>,
    k: nat,
    keeps: spec_fn(u32) -> bool,
) -> Seq<ScoredPoint> {
    points_of(
        ranking::all_scored(
            ranking::top_k(scan_pool(kernel, rows, query, keeps), k),
            kernel.spec_metric().prefers_higher(),
        ),
    )
}

/// The live ids below `n`, ascending.
pub open spec fn live_ids(n: nat, tombstones: Set<u32>) -> Seq<PointId>
    decreases n,
{
    if n == 0 {
        Seq::empty()
    } else {
        let rest = live_ids((n - 1) as nat, tombstones);
        let id = (n - 1) as u32;
        if tombstones.contains(id) {
            rest
        } else {
            rest.push(PointId(id))
        }
    }
}

/// A vector index over a single segment's vectors.
pub trait Index<E> {
    /// The index is internally consistent.
    spec fn valid(&self) -> bool;

    /// The dimensionality of queries.
    spec fn query_dim(&self) -> nat;

    /// The total number of points, tombstones included.
    spec fn total(&self) -> nat;

    /// The tombstoned ids.
    spec fn tombstones(&self) -> Set<u32>;

    /// What a search returns.
    spec fn results(
        &self,
        query: Seq<E>,
        k: nat,
        params: SearchParams,
        filter: Option<&dyn FilterContext>,
    ) -> Seq<ScoredPoint>;

    /// Returns the best `k` live, filter-admitted points for `query`, best first. No
    /// filter admits all live points.
    fn search(
        &self,
        query: &[E],
        k: usize,
        params: SearchParams,
        filter: Option<&dyn FilterContext>,
    ) -> (found: Vec<ScoredPoint>)
        requires
            self.valid(),
            query@.len() == self.query_dim(),
        ensures
            found@ == self.results(query@, k as nat, params, filter),
    ;

    /// Tombstones `id`. Returns `true` if newly deleted.
    fn delete(&mut self, id: PointId) -> (newly: bool)
        requires
            old(self).valid(),
        ensures
            final(self).valid(),
            final(self).query_dim() == old(self).query_dim(),
            final(self).total() == old(self).total(),
            final(self).tombstones() == old(self).tombstones().insert(id.0),
            newly == !old(self).tombstones().contains(id.0),
    ;

    /// Whether `id` is tombstoned.
    fn is_deleted(&self, id: PointId) -> (r: bool)
        requires
            self.valid(),
        ensures
            r == self.tombstones().contains(id.0),
    ;

    /// The number of live (non-tombstoned) points.
    fn live_len(&self) -> (n: usize)
        requires
            self.valid(),
        ensures
            n == live_ids(self.total(), self.tombstones()).len(),
    ;

    /// The total number of points, including tombstones.
    fn capacity(&self) -> (n: usize)
        requires
            self.valid(),
        ensures
            n == self.total(),
    ;

    /// Whether there are no live points.
    fn is_empty(&self) -> (r: bool)
        requires
            self.valid(),
        ensures
            r == (live_ids(self.total(), self.tombstones()).len() == 0),
    ;

    /// The live (non-tombstoned) ids, ascending.
    fn iter_live(&self) -> (ids: Vec<PointId>)
        requires
            self.valid(),
        ensures
            ids@ == live_ids(self.total(), self.tombstones()),
    ;
}

/// Lists the live ids below `n`.
pub fn list_live(n: usize, tombstones: &RoaringBitmap) -> (ids: Vec<PointId>)
    requires
        n <= u32::MAX,
    ensures
        ids@ == live_ids(n as nat, bitmap::bitmap_ids(*tombstones)),
{
    let mut ids: Vec<PointId> = Vec::new();
    for i in 0..n
        invariant
            n <= u32::MAX,
            ids@ == live_ids(i as nat, bitmap::bitmap_ids(*tombstones)),
    {
        if !tombstones.contains(i as u32) {
            ids.push(PointId::new(i as u32));
        }
    }
    ids
}

/// There are no more live ids below `n` than ids.
pub proof fn lemma_live_ids_len(n: nat, tombstones: Set<u32>)
    ensures
        live_ids(n, tombstones).len() <= n,
    decreases n,
{
    if n > 0 {
        lemma_live_ids_len((n - 1) as nat, tombstones);
    }
}

/// The tombstones listed before place `p` are those below `n`, so they and the live ids make
/// up all the ids below `n`.
proof fn lemma_live_and_dead(n: nat, tombstones: Set<u32>, values: Seq<u32>, p: int)
    requires
        n <= u32::MAX,
        0 <= p <= values.len(),
        forall|i: int, j: int|
            0 <= i < j < values.len() ==> (#[trigger] values[i]) < (#[trigger] values[j]),
        forall|v: u32| #[trigger] values.contains(v) <==> tombstones.contains(v),
        forall|i: int| 0 <= i < p ==> (#[trigger] values[i]) < n,
        forall|i: int| p <= i < values.len() ==> (#[trigger] values[i]) >= n,
    ensures
        live_ids(n, tombstones).len() + p == n,
    decreases n,
{
    if n == 0 {
        if p > 0 {
            assert(values[0] < 0);
        }
    } else {
        let id = (n - 1) as u32;
        if tombstones.contains(id) {
            assert(values.contains(id));
            let at = values.index_of(id);
            assert(at < p);
            if at < p - 1 {
                assert(values[at] < values[p - 1]);
            }
            assert forall|i: int| 0 <= i < p - 1 implies (#[trigger] values[i]) < n - 1 by {
                assert(values[i] < values[p - 1]);
            }
            lemma_live_and_dead((n - 1) as nat, tombstones, values, p - 1);
        } else {
            assert forall|i: int| 0 <= i < p implies (#[trigger] values[i]) < n - 1 by {
                assert(values.contains(values[i]));
            }
            lemma_live_and_dead((n - 1) as nat, tombstones, values, p);
        }
    }
}

/// Counts the live ids below `n`.
pub fn count_live(n: usize, tombstones: &RoaringBitmap) -> (live: usize)
    requires
        n <= u32::MAX,
    ensures
        live == live_ids(n as nat, bitmap::bitmap_ids(*tombstones)).len(),
{
    let values = bitmap::bitmap_values(tombstones);
    let mut dead: usize = 0;
    while dead < values.len() && (values[dead] as usize) < n
        invariant
            n <= u32::MAX,
            dead <= values@.len(),
            forall|i: int| 0 <= i < dead ==> (#[trigger] values@[i]) < n,
        decreases values@.len() - dead,
    {
        dead = dead + 1;
    }
    proof {
        assert forall|i: int| dead <= i < values@.len() implies (#[trigger] values@[i]) >= n by {
            if i > dead {
                assert(values@[dead as int] < values@[i]);
            }
        }
        lemma_live_and_dead(
            n as nat,
            bitmap::bitmap_ids(*tombstones),
            values@,
            dead as int,
        );
    }
    n - dead
}

/// Turns scored ids into segment-local results.
pub fn to_points(scored: &Vec<Scored>) -> (points: Vec<ScoredPoint>)
    requires
        forall|i: int| 0 <= i < scored@.len() ==> (#[trigger] scored@[i]).id <= u32::MAX,
    ensures
        points@ == points_of(scored@),
{
    let mut points: Vec<ScoredPoint> = Vec::with_capacity(scored.len());
    for i in 0..scored.len()
        invariant
            forall|i: int| 0 <= i < scored@.len() ==> (#[trigger] scored@[i]).id <= u32::MAX,
            points@ == points_of(scored@).take(i as int),
    {
        let s = scored[i];
        points.push(ScoredPoint { id: PointId::new(s.id as u32), score: s.score });
        assert(points@ =~= points_of(scored@).take(i + 1));
    }
    assert(points@ =~= points_of(scored@));
    points
}

/// Every entry of a scan names an admitted row, at its true badness.
pub proof fn lemma_scan_pool<K: Kernel>(
    kernel: K,
    rows: Seq<Seq<K::Elem>>,
    query: Seq<K::Elem>,
    keeps: spec_fn(u32) -> bool,
)
    requires
        rows.len() <= u32::MAX,
    ensures
        scan_pool(kernel, rows, query, keeps).len() == count_rows(rows.len(), keeps),
        scan_pool(kernel, rows, query, keeps).len() <= rows.len(),
        heuristic::distinct_ids(scan_pool(kernel, rows, query, keeps)),
        forall|r: Ranked|
            #![trigger scan_pool(kernel, rows, query, keeps).contains(r)]
            scan_pool(kernel, rows, query, keeps).contains(r) <==> {
                &&& r.id < rows.len()
                &&& keeps(r.id as u32)
                &&& r == ranking::rank_of(
                    kernel.spec_score(query, rows[r.id as int]),
                    r.id,
                    kernel.spec_metric().prefers_higher(),
                )
            },
    decreases rows.len(),
{
    if rows.len() > 0 {
        let shorter = rows.drop_last();
        lemma_scan_pool(kernel, shorter, query, keeps);
        let rest = scan_pool(kernel, shorter, query, keeps);
        let pool = scan_pool(kernel, rows, query, keeps);
        let id = (rows.len() - 1) as u32;
        assert forall|i: int, j: int| 0 <= i < j < pool.len() implies (#[trigger] pool[i]).id != (
        #[trigger] pool[j]).id by {
            if j < rest.len() {
                assert(rest[i].id != rest[j].id);
            } else {
                assert(rest.contains(rest[i]));
                assert(rest[i].id < shorter.len());
            }
        }
        assert forall|r: Ranked| #![trigger pool.contains(r)]
            pool.contains(r) <==> {
                &&& r.id < rows.len()
                &&& keeps(r.id as u32)
                &&& r == ranking::rank_of(
                    kernel.spec_score(query, rows[r.id as int]),
                    r.id,
                    kernel.spec_metric().prefers_higher(),
                )
            } by {
            if rest.contains(r) {
                assert(pool[rest.index_of(r)] == r);
                assert(rows[r.id as int] == shorter[r.id as int]);
            }
            if pool.contains(r) {
                let j = pool.index_of(r);
                if j < rest.len() {
                    assert(rest[j] == r);
                    assert(rest.contains(r));
                }
            }
            if r.id < rows.len() && keeps(r.id as u32) && r == ranking::rank_of(
                kernel.spec_score(query, rows[r.id as int]),
                r.id,
                kernel.spec_metric().prefers_higher(),
            ) {
                if r.id < shorter.len() {
                    assert(rows[r.id as int] == shorter[r.id as int]);
                    assert(rest.contains(r));
                } else {
                    assert(pool[pool.len() - 1] == r);
                }
            }
        }
    }
}

/// An exact search returns admitted rows at their exact scores, best first: as many as
/// are asked for where there are as many, and nothing it leaves out ranks before anything
/// it returns.
pub proof fn law_exact_topk<K: Kernel>(
    kernel: K,
    rows: Seq<Seq<K::Elem>>,
    query: Seq<K::Elem>,
    k: nat,
    keeps: spec_fn(u32) -> bool,
)
    requires
        rows.len() <= u32::MAX,
    ensures
        ({
            let found = exact_topk(kernel, rows, query, k, keeps);
            let pool = scan_pool(kernel, rows, query, keeps);
            let higher = kernel.spec_metric().prefers_higher();
            &&& found.len() == if pool.len() <= k {
                pool.len()
            } else {
                k
            }
            &&& pool.len() == count_rows(rows.len(), keeps)
            &&& forall|i: int, j: int|
                0 <= i < j < found.len() ==> (#[trigger] found[i]).id != (#[trigger] found[j]).id
            &&& forall|i: int|
                0 <= i < found.len() ==> {
                    &&& (#[trigger] found[i]).id.0 < rows.len()
                    &&& keeps(found[i].id.0)
                    &&& found[i].score == kernel.spec_score(query, rows[found[i].id.0 as int])
                }
            &&& forall|i: int, j: int|
                0 <= i < j < found.len() ==> ranking::rank_of(
                    (#[trigger] found[i]).score,
                    found[i].id.0 as u64,
                    higher,
                ).before(
                    ranking::rank_of((#[trigger] found[j]).score, found[j].id.0 as u64, higher),
                )
            &&& forall|i: int, id: u32|
                0 <= i < found.len() && id < rows.len() && keeps(id) && (forall|j: int|
                    0 <= j < found.len() ==> (#[trigger] found[j]).id.0 != id)
                    ==> !(#[trigger] ranking::rank_of(
                    kernel.spec_score(query, rows[id as int]),
                    id as u64,
                    higher,
                ).before(ranking::rank_of(found[i].score, found[i].id.0 as u64, higher)))
        }),
{
    let found = exact_topk(kernel, rows, query, k, keeps);
    let pool = scan_pool(kernel, rows, query, keeps);
    let higher = kernel.spec_metric().prefers_higher();
    let best = ranking::top_k(pool, k);
    lemma_scan_pool(kernel, rows, query, keeps);
    ranking::law_top_k(pool, k);
    ranking::law_sort_ranked(pool);
    heuristic::lemma_sort_distinct(pool);
    assert forall|i: int, j: int| 0 <= i < j < found.len() implies (#[trigger] found[i]).id != (
    #[trigger] found[j]).id by {
        let sorted = ranking::sort_ranked(pool);
        assert(best[i] == sorted[i] && best[j] == sorted[j]);
        assert(sorted[i].id != sorted[j].id);
        assert(best.contains(best[i]) && best.contains(best[j]));
        assert(pool.contains(best[i]) && pool.contains(best[j]));
    }
    assert forall|i: int| 0 <= i < found.len() implies {
        &&& (#[trigger] found[i]).id.0 < rows.len()
        &&& keeps(found[i].id.0)
        &&& found[i].score == kernel.spec_score(query, rows[found[i].id.0 as int])
        &&& found[i].id.0 == best[i].id
        &&& ranking::rank_of(found[i].score, found[i].id.0 as u64, higher) == best[i]
    } by {
        assert(best.contains(best[i]));
        assert(pool.contains(best[i]));
    }
    assert forall|i: int, j: int| 0 <= i < j < found.len() implies ranking::rank_of(
        (#[trigger] found[i]).score,
        found[i].id.0 as u64,
        higher,
    ).before(ranking::rank_of((#[trigger] found[j]).score, found[j].id.0 as u64, higher)) by {
        let sorted = ranking::sort_ranked(pool);
        assert(best[i] == sorted[i]);
        assert(best[j] == sorted[j]);
        assert(found[i].id != found[j].id);
        assert(!best[j].before(best[i]));
    }
    assert forall|i: int, id: u32|
        0 <= i < found.len() && id < rows.len() && keeps(id) && (forall|j: int|
            0 <= j < found.len() ==> (#[trigger] found[j]).id.0 != id) implies !(
    #[trigger] ranking::rank_of(kernel.spec_score(query, rows[id as int]), id as u64, higher).before(
        ranking::rank_of(found[i].score, found[i].id.0 as u64, higher),
    )) by {
        let y = ranking::rank_of(kernel.spec_score(query, rows[id as int]), id as u64, higher);
        assert(pool.contains(y));
        if best.contains(y) {
            let j = best.index_of(y);
            assert(found[j].id.0 == id);
        }
        assert(!y.before(best[i]));
    }
}

/// Whether row `id` survives the tombstones and the filter.
pub fn admitted(
    id: u32,
    tombstones: Option<&RoaringBitmap>,
    filter: Option<&dyn FilterContext>,
) -> (r: bool)
    ensures
        r == admission(tombstones_of(tombstones), filter)(id),
{
    let live = match tombstones {
        Some(t) => !t.contains(id),
        None => true,
    };
    live && filter::check(filter, PointId::new(id))
}

/// Exact top-k scan over a [`VectorStorage`] through a bounded collector: the search
/// path of [`FlatIndex`] and of the appendable segment. No tombstones and no filter
/// keeps everything.
pub fn scan_topk<K: Kernel>(
    storage: &VectorStorage<K>,
    kernel: &K,
    query: &[K::Elem],
    k: usize,
    tombstones: Option<&RoaringBitmap>,
    filter: Option<&dyn FilterContext>,
) -> (found: Vec<ScoredPoint>)
    requires
        storage.wf(),
        storage.kernel.spec_dim() == kernel.spec_dim(),
        query@.len() == kernel.spec_dim(),
    ensures
        found@ == exact_topk(
            *kernel,
            storage.rows(),
            query@,
            k as nat,
            admission(tombstones_of(tombstones), filter),
        ),
{
    let higher = kernel.metric().higher_is_better();
    let mut top = BoundedTopK::new(k, higher);
    let ghost keeps = admission(tombstones_of(tombstones), filter);
    let ghost rows = storage.rows();
    assert(scan_pool(*kernel, rows.take(0), query@, keeps) =~= Seq::<Ranked>::empty());
    let count: usize = storage.len();
    for i in 0..count
        invariant
            count == storage.count,
            storage.wf(),
            storage.kernel.spec_dim() == kernel.spec_dim(),
            query@.len() == kernel.spec_dim(),
            rows == storage.rows(),
            rows.len() == storage.count,
            keeps == admission(tombstones_of(tombstones), filter),
            top.wf(),
            top.k == k,
            top.higher_is_better == kernel.spec_metric().prefers_higher(),
            top.kept@ == ranking::top_k(
                scan_pool(*kernel, rows.take(i as int), query@, keeps),
                k as nat,
            ),
    {
        proof {
            assert(rows.take(i + 1).drop_last() =~= rows.take(i as int));
        }
        if admitted(i as u32, tombstones, filter) {
            let score = kernel.score(query, storage.get(PointId::new(i as u32)));
            top.offer(i as u64, score);
        }
    }
    proof {
        assert(rows.take(rows.len() as int) =~= rows);
        lemma_scan_pool(*kernel, rows, query@, keeps);
        let pool = scan_pool(*kernel, rows, query@, keeps);
        ranking::law_top_k(pool, k as nat);
        assert forall|i: int| 0 <= i < top.kept@.len() implies (#[trigger] top.kept@[i]).id
            <= u32::MAX by {
            assert(top.kept@.contains(top.kept@[i]));
            assert(pool.contains(top.kept@[i]));
        }
    }
    let scored = top.into_sorted();
    to_points(&scored)
}

/// Exact top-k search by full scan and sort: the oracle that indexes are held to.
///
/// Scores every live, filter-admitted point and returns the best `k`, best first with a
/// deterministic `id` tie-break. No tombstones and no filter keeps everything.
pub fn brute_force_topk<K: Kernel>(
    storage: &VectorStorage<K>,
    kernel: &K,
    query: &[K::Elem],
    k: usize,
    deleted: Option<&SoftDeleteSet>,
    filter: Option<&dyn FilterContext>,
) -> (found: Vec<ScoredPoint>)
    requires
        storage.wf(),
        storage.kernel.spec_dim() == kernel.spec_dim(),
        query@.len() == kernel.spec_dim(),
    ensures
        found@ == exact_topk(
            *kernel,
            storage.rows(),
            query@,
            k as nat,
            admission(
                match deleted {
                    Some(d) => d.ids(),
                    None => Set::empty(),
                },
                filter,
            ),
        ),
{
    let higher = kernel.metric().higher_is_better();
    let tombstones: Option<&RoaringBitmap> = match deleted {
        Some(d) => Some(&*d.bitmap),
        None => None,
    };
    let ghost keeps = admission(tombstones_of(tombstones), filter);
    let ghost rows = storage.rows();
    let mut scored: Vec<Ranked> = Vec::new();
    let count: usize = storage.len();
    for i in 0..count
        invariant
            count == storage.count,
            storage.wf(),
            storage.kernel.spec_dim() == kernel.spec_dim(),
            query@.len() == kernel.spec_dim(),
            rows == storage.rows(),
            rows.len() == storage.count,
            keeps == admission(tombstones_of(tombstones), filter),
            higher == kernel.spec_metric().prefers_higher(),
            scored@ == scan_pool(*kernel, rows.take(i as int), query@, keeps),
    {
        proof {
            assert(rows.take(i + 1).drop_last() =~= rows.take(i as int));
        }
        if admitted(i as u32, tombstones, filter) {
            let score = kernel.score(query, storage.get(PointId::new(i as u32)));
            scored.push(ranking::rank_key(score, i as u64, higher));
        }
    }
    let mut best = ranking::sort(&scored);
    if k < best.len() {
        best.truncate(k);
    }
    proof {
        assert(rows.take(rows.len() as int) =~= rows);
        let pool = scan_pool(*kernel, rows, query@, keeps);
        assert(best@ =~= ranking::top_k(pool, k as nat));
        lemma_scan_pool(*kernel, rows, query@, keeps);
        ranking::law_top_k(pool, k as nat);
        assert forall|i: int| 0 <= i < best@.len() implies (#[trigger] best@[i]).id <= u32::MAX by {
            assert(best@.contains(best@[i]));
            assert(pool.contains(best@[i]));
        }
    }
    let out = ranking::scored_from(&best, higher);
    to_points(&out)
}

} // verus!
