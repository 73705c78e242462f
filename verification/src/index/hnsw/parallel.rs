//! Concurrent HNSW construction.
//!
//! [`build_concurrent_graph`] inserts points in parallel. It produces a *valid* graph
//! (degree bounds respected, no self-loops or duplicate edges, every neighbor present on
//! its layer, the entry at the top level) but, unlike the sequential builder, not always
//! the same one: insertion order varies from run to run.
//!
//! Synchronization:
//! - Each point's adjacency sits behind its own lock, whose invariant ([`NodeLinks`]) says
//!   what a point's lists look like at every moment they can be seen.
//! - The global entry point and top level sit behind a lock with the invariant
//!   [`EntryAtTop`].
//! - A point's own links are **merged** with whatever back-links a concurrent insertion
//!   already pushed, instead of overwriting them.

use std::sync::Arc;

use rayon::iter::IntoParallelIterator;
use rayon::iter::ParallelIterator;
use vstd::prelude::*;
use vstd::rwlock::RwLock;
use vstd::rwlock::RwLockPredicate;

use crate::distance;
use crate::distance::Kernel;
use crate::id::PointId;
use crate::index::hnsw::builder;
use crate::index::hnsw::config::HnswConfig;
use crate::index::hnsw::construction;
use crate::index::hnsw::graph;
use crate::index::hnsw::graph::GraphLayers;
use crate::index::hnsw::heuristic;
use crate::index::hnsw::heuristic::PairDistance;
use crate::index::hnsw::invariants;
use crate::index::hnsw::rng;
use crate::index::hnsw::search;
use crate::index::hnsw::search::Adjacency;
use crate::index::hnsw::search::Beam;
use crate::index::hnsw::search::BeamSearch;
use crate::index::hnsw::search::Distance;
use crate::index::hnsw::search::Graph;
use crate::index::hnsw::search::KeepAll;
use crate::index::hnsw::search::LayerQuery;
use crate::index::hnsw::visited::VisitedList;
use crate::ordered::OrderedF32;
use crate::quantization;
use crate::quantization::QuantizedVectorBlock;
use crate::ranking::Ranked;
use crate::vector;
use crate::vector::VectorStorage;

verus! {

/// The points present on a layer, given every point's level.
pub open spec fn reaching(levels: Seq<u8>, layer: nat) -> Set<u32> {
    Set::new(|p: u32| p < levels.len() && layer <= levels[p as int])
}

/// A list that a point may have on a layer: within the degree bound, without the point
/// itself, without duplicates, and naming only points present on the layer.
pub open spec fn list_ok(
    config: HnswConfig,
    levels: Seq<u8>,
    point: u32,
    layer: nat,
    list: Seq<u32>,
) -> bool {
    &&& list.len() <= config.degree_bound(layer)
    &&& list.no_duplicates()
    &&& !list.contains(point)
    &&& forall|i: int| 0 <= i < list.len() ==> reaching(levels, layer).contains(#[trigger] list[i])
}

/// What a point's lock keeps of its lists.
pub struct NodeLinks {
    /// The point.
    pub point: u32,
    /// The parameters.
    pub config: HnswConfig,
    /// Every point's level.
    pub levels: Seq<u8>,
}

impl RwLockPredicate<Vec<Vec<u32>>> for NodeLinks {
    open spec fn inv(self, lists: Vec<Vec<u32>>) -> bool {
        &&& self.point < self.levels.len()
        &&& lists@.len() == self.levels[self.point as int] + 1
        &&& forall|l: int|
            0 <= l < lists@.len() ==> list_ok(
                self.config,
                self.levels,
                self.point,
                l as nat,
                (#[trigger] lists@[l])@,
            )
    }
}

/// The global navigable-entry state, changed only when a point raises the top level.
#[derive(Clone, Copy)]
pub struct EntryState {
    /// The entry point.
    pub entry: Option<u32>,
    /// The level of the entry point.
    pub max_level: usize,
}

/// What the entry lock keeps: there is an entry as soon as there is a point, it sits at the
/// top level, and it is point 0 until a higher point takes over.
pub struct EntryAtTop {
    /// Every point's level.
    pub levels: Seq<u8>,
}

impl RwLockPredicate<EntryState> for EntryAtTop {
    open spec fn inv(self, s: EntryState) -> bool {
        match s.entry {
            Some(e) => {
                &&& e < self.levels.len()
                &&& self.levels[e as int] == s.max_level
                &&& e == 0 || self.levels[e as int] > self.levels[0]
            },
            None => self.levels.len() == 0,
        }
    }
}

/// The badness between stored points during construction: int8 codes when available (they
/// are smaller, and construction is memory-bound), else the exact kernel.
pub struct ConstructionPairs<'a, K: Kernel> {
    /// The rows.
    pub vectors: &'a VectorStorage<K>,
    /// The kernel.
    pub kernel: K,
    /// The int8 codes.
    pub quant: Option<&'a QuantizedVectorBlock<K>>,
}

/// The quantized badness between stored points.
pub open spec fn code_pairs(
    metric: distance::Metric,
    rows: Seq<Seq<i8>>,
) -> spec_fn(u32, u32) -> OrderedF32 {
    |a: u32, b: u32| quantization::code_badness(metric, rows[a as int], rows[b as int])
}

impl<'a, K: Kernel> PairDistance for ConstructionPairs<'a, K> {
    open spec fn pair_fn(&self) -> spec_fn(u32, u32) -> OrderedF32 {
        match self.quant {
            Some(q) => code_pairs(q.metric, q.rows()),
            None => heuristic::row_pairs(self.kernel, self.vectors.rows()),
        }
    }

    open spec fn covers(&self, id: u32) -> bool {
        &&& self.vectors.wf()
        &&& self.vectors.kernel.spec_dim() == self.kernel.spec_dim()
        &&& id < self.vectors.rows().len()
        &&& self.quant matches Some(q) ==> q.quantizes(*self.vectors)
    }

    fn between(&self, a: u32, b: u32) -> (d: OrderedF32) {
        match self.quant {
            Some(q) => q.badness_between(a, b),
            None => {
                let score = self.kernel.score(
                    self.vectors.get(PointId::new(a)),
                    self.vectors.get(PointId::new(b)),
                );
                distance::badness(score, self.kernel.metric().higher_is_better())
            },
        }
    }
}

/// The construction badness of each point as seen from one of them.
pub struct FromPoint<'a, K: Kernel> {
    /// The pairwise badness.
    pub pairs: ConstructionPairs<'a, K>,
    /// The point measured from.
    pub point: u32,
}

impl<'a, K: Kernel> Distance for FromPoint<'a, K> {
    open spec fn badness_fn(&self) -> spec_fn(u32) -> OrderedF32 {
        construction::distances_from(self.pairs.pair_fn(), self.point)
    }

    open spec fn measures(&self, id: u32) -> bool {
        self.pairs.covers(self.point) && self.pairs.covers(id)
    }

    fn badness(&self, id: u32) -> (b: OrderedF32) {
        self.pairs.between(self.point, id)
    }
}

/// `list` with the selected ids it does not hold yet appended in order.
pub open spec fn merged(list: Seq<u32>, selected: Seq<u32>) -> Seq<u32>
    decreases selected.len(),
{
    if selected.len() == 0 {
        list
    } else {
        let before = merged(list, selected.drop_last());
        if before.contains(selected.last()) {
            before
        } else {
            before.push(selected.last())
        }
    }
}

/// A list brought back within its degree bound: re-selected if it overflows.
pub open spec fn rebounded(
    pairs: spec_fn(u32, u32) -> OrderedF32,
    config: HnswConfig,
    base: u32,
    layer: nat,
    list: Seq<u32>,
) -> Seq<u32> {
    if list.len() > config.degree_bound(layer) {
        heuristic::selection(
            pairs,
            base,
            heuristic::ranked_to(pairs, base, list),
            config.degree_bound(layer),
            config.keep_pruned,
        )
    } else {
        list
    }
}

/// Merging keeps a list free of duplicates and of the base, within a region, and loses
/// nothing.
pub proof fn law_merge_loses_no_edges(list: Seq<u32>, selected: Seq<u32>, base: u32, region: Set<u32>)
    requires
        list.no_duplicates(),
        !list.contains(base),
        !selected.contains(base),
        forall|i: int| 0 <= i < list.len() ==> region.contains(#[trigger] list[i]),
        forall|i: int| 0 <= i < selected.len() ==> region.contains(#[trigger] selected[i]),
    ensures
        merged(list, selected).no_duplicates(),
        !merged(list, selected).contains(base),
        forall|i: int|
            0 <= i < merged(list, selected).len() ==> region.contains(
                #[trigger] merged(list, selected)[i],
            ),
        forall|id: u32|
            #![trigger merged(list, selected).contains(id)]
            merged(list, selected).contains(id) <==> list.contains(id) || selected.contains(id),
    decreases selected.len(),
{
    if selected.len() > 0 {
        let shorter = selected.drop_last();
        let x = selected.last();
        assert(selected[selected.len() - 1] == x);
        assert(!shorter.contains(base)) by {
            if shorter.contains(base) {
                assert(selected[shorter.index_of(base)] == base);
            }
        }
        assert forall|i: int| 0 <= i < shorter.len() implies region.contains(#[trigger] shorter[i]) by {
            assert(shorter[i] == selected[i]);
        }
        law_merge_loses_no_edges(list, shorter, base, region);
        let before = merged(list, shorter);
        let m = merged(list, selected);
        assert forall|id: u32| #![trigger m.contains(id)]
            m.contains(id) <==> list.contains(id) || selected.contains(id) by {
            if before.contains(id) {
                assert(m[before.index_of(id)] == id);
            }
            if shorter.contains(id) {
                assert(selected[shorter.index_of(id)] == id);
            }
            if selected.contains(id) {
                let i = selected.index_of(id);
                if i < shorter.len() {
                    assert(shorter[i] == id);
                } else if !before.contains(x) {
                    assert(m[m.len() - 1] == id);
                }
            }
            if m.contains(id) {
                let i = m.index_of(id);
                if i < before.len() {
                    assert(before[i] == id);
                } else {
                    assert(selected[selected.len() - 1] == id);
                }
            }
        }
        if !before.contains(x) {
            assert forall|i: int, j: int| 0 <= i < m.len() && 0 <= j < m.len() && i != j implies m[i]
                != m[j] by {
                if i < before.len() {
                    assert(before.contains(before[i]));
                }
                if j < before.len() {
                    assert(before.contains(before[j]));
                }
            }
            assert(x != base) by {
                if x == base {
                    assert(selected.contains(base));
                }
            }
            if m.contains(base) {
                let i = m.index_of(base);
                if i < before.len() {
                    assert(before[i] == base);
                    assert(before.contains(base));
                }
            }
            assert forall|i: int| 0 <= i < m.len() implies region.contains(#[trigger] m[i]) by {
                if i < before.len() {
                    assert(before[i] == m[i]);
                }
            }
        }
    }
}

/// A rebounded list is one that a point may have.
proof fn lemma_rebounded(
    pairs: spec_fn(u32, u32) -> OrderedF32,
    config: HnswConfig,
    levels: Seq<u8>,
    base: u32,
    layer: nat,
    list: Seq<u32>,
)
    requires
        list.no_duplicates(),
        !list.contains(base),
        forall|i: int|
            0 <= i < list.len() ==> reaching(levels, layer).contains(#[trigger] list[i]),
    ensures
        list_ok(config, levels, base, layer, rebounded(pairs, config, base, layer, list)),
{
    if list.len() > config.degree_bound(layer) {
        let cand = heuristic::ranked_to(pairs, base, list);
        let bound = config.degree_bound(layer);
        let next = rebounded(pairs, config, base, layer, list);
        assert(heuristic::distinct_ids(cand)) by {
            assert forall|i: int, j: int| 0 <= i < j < cand.len() implies (#[trigger] cand[i]).id != (
            #[trigger] cand[j]).id by {
                assert(list[i] != list[j]);
            }
        }
        heuristic::law_selection(pairs, base, cand, bound, config.keep_pruned);
        assert forall|i: int| 0 <= i < next.len() implies reaching(levels, layer).contains(
            #[trigger] next[i],
        ) by {
            assert(heuristic::has_id(cand, next[i]));
            let k = choose|k: int| 0 <= k < cand.len() && (#[trigger] cand[k]).id == next[i];
            assert(list[k] == next[i]);
        }
    }
}

/// Bringing a list within its bound never empties it.
proof fn lemma_rebounded_nonempty(
    pairs: spec_fn(u32, u32) -> OrderedF32,
    config: HnswConfig,
    base: u32,
    layer: nat,
    list: Seq<u32>,
)
    requires
        list.len() >= 1,
        !list.contains(base),
        config.degree_bound(layer) >= 1,
    ensures
        rebounded(pairs, config, base, layer, list).len() >= 1,
{
    if list.len() > config.degree_bound(layer) {
        let cand = heuristic::ranked_to(pairs, base, list);
        assert(cand[0].id == list[0]);
        assert(list.contains(list[0]));
        invariants::law_selection_nonempty(
            pairs,
            base,
            cand,
            config.degree_bound(layer),
            config.keep_pruned,
        );
    }
}

/// Wiring a point keeps the back-links that others have already pushed onto it, next to
/// its own selection: while its list stays within the degree bound nothing is lost, and
/// once it overflows the list is chosen from all of them together. Nothing else comes in.
pub proof fn law_wiring_keeps_back_links<'q, K: Kernel>(
    builder: ConcurrentBuilder<'q, K>,
    point: u32,
    layer: nat,
    found: Seq<Ranked>,
    before: Seq<u32>,
    id: u32,
)
    requires
        list_ok(builder.config, builder.levels@, point, layer, before),
        forall|i: int| 0 <= i < found.len() ==> (#[trigger] found[i]).id <= u32::MAX,
    ensures
        ({
            let selected = heuristic::selection(
                builder.pairs(),
                point,
                found,
                builder.config.degree_bound(layer),
                builder.config.keep_pruned,
            );
            let list = builder.wired_from(point, layer, found, before);
            &&& merged(before, selected).len() <= builder.config.degree_bound(layer) ==> (
            list.contains(id) <==> before.contains(id) || selected.contains(id))
            &&& list.contains(id) ==> before.contains(id) || selected.contains(id)
        }),
{
    let bound = builder.config.degree_bound(layer);
    let selected = heuristic::selection(
        builder.pairs(),
        point,
        found,
        bound,
        builder.config.keep_pruned,
    );
    heuristic::law_selection(builder.pairs(), point, found, bound, builder.config.keep_pruned);
    law_merge_loses_no_edges(before, selected, point, Set::full());
    let all = merged(before, selected);
    if all.len() > bound {
        let cand = heuristic::ranked_to(builder.pairs(), point, all);
        heuristic::law_selection(builder.pairs(), point, cand, bound, builder.config.keep_pruned);
        let list = builder.wired_from(point, layer, found, before);
        if list.contains(id) {
            let i = list.index_of(id);
            assert(heuristic::has_id(cand, list[i]));
            let k = choose|k: int| 0 <= k < cand.len() && (#[trigger] cand[k]).id == list[i];
            assert(all[k] == id);
            assert(all.contains(id));
        }
    } else {
        assert(builder.wired_from(point, layer, found, before) == all);
        assert(all.contains(id) <==> before.contains(id) || selected.contains(id));
    }
}

/// A beam of at least two that accounts for a point other than `point` holds one.
proof fn lemma_finds_another(
    q: LayerQuery,
    found: Seq<Ranked>,
    region: Set<u32>,
    entry: u32,
    point: u32,
)
    requires
        search::results_ok(q, found, region),
        search::placed(q, found, entry),
        entry != point,
        q.ef >= 2,
    ensures
        exists|i: int| 0 <= i < found.len() && (#[trigger] found[i]).id != point,
{
    let r = search::measured(q, entry);
    if found.contains(r) {
        let i = found.index_of(r);
        assert(found[i].id != point);
    } else {
        assert(found[0].id != found[1].id);
    }
}

/// Whether a list holds an id.
fn holds(list: &Vec<u32>, id: u32) -> (r: bool)
    ensures
        r == list@.contains(id),
{
    for i in 0..list.len()
        invariant
            forall|j: int| 0 <= j < i ==> list@[j] != id,
    {
        if list[i] == id {
            assert(list@[i as int] == id);
            return true;
        }
    }
    false
}

/// Appends the selected ids that a list does not hold yet.
pub fn merge_links(list: &mut Vec<u32>, selected: &Vec<u32>)
    ensures
        final(list)@ == merged(old(list)@, selected@),
{
    let ghost before = list@;
    assert(merged(before, selected@.take(0)) == before);
    for i in 0..selected.len()
        invariant
            list@ == merged(before, selected@.take(i as int)),
    {
        assert(selected@.take(i + 1).drop_last() =~= selected@.take(i as int));
        if !holds(list, selected[i]) {
            list.push(selected[i]);
        }
    }
    assert(selected@.take(selected@.len() as int) =~= selected@);
}

/// The lists of a point that has not been linked yet.
fn unlinked_node(levels: &Vec<u8>, point: usize, Ghost(config): Ghost<HnswConfig>) -> (lists: Vec<
    Vec<u32>,
>)
    requires
        point < levels@.len(),
        point <= u32::MAX,
    ensures
        (NodeLinks { point: point as u32, config, levels: levels@ }).inv(lists),
{
    let lists = builder::make_empty_lists(levels[point] as usize + 1);
    assert forall|l: int| 0 <= l < lists@.len() implies list_ok(
        config,
        levels@,
        point as u32,
        l as nat,
        (#[trigger] lists@[l])@,
    ) by {
        assert(builder::layers_of(lists@)[l] == lists@[l]@);
        assert(lists@[l]@ =~= Seq::<u32>::empty());
    }
    lists
}

/// A builder that inserts points concurrently, guarding per-point adjacency.
pub struct ConcurrentBuilder<'q, K: Kernel> {
    /// The vectors.
    pub vectors: Arc<VectorStorage<K>>,
    /// The kernel.
    pub kernel: K,
    /// The parameters.
    pub config: HnswConfig,
    /// Optional int8 codes used for the construction distances.
    pub quant: Option<&'q QuantizedVectorBlock<K>>,
    /// Assigned level per point.
    pub levels: Vec<u8>,
    /// `links[point]` (locked) holds the point's neighbor lists, indexed by layer.
    pub links: Vec<RwLock<Vec<Vec<u32>>, NodeLinks>>,
    /// The entry point and its level.
    pub entry: RwLock<EntryState, EntryAtTop>,
}

impl<'q, K: Kernel> ConcurrentBuilder<'q, K> {
    /// Every lock keeps the invariant of its point, over the stored vectors.
    pub open spec fn wf(&self) -> bool {
        &&& self.vectors.wf()
        &&& self.kernel.spec_dim() == self.vectors.kernel.spec_dim()
        &&& self.quant matches Some(q) ==> q.quantizes(*self.vectors)
        &&& self.levels@.len() == self.vectors.rows().len()
        &&& self.links@.len() == self.levels@.len()
        &&& forall|p: int|
            0 <= p < self.links@.len() ==> (#[trigger] self.links@[p]).pred() == (NodeLinks {
                point: p as u32,
                config: self.config,
                levels: self.levels@,
            })
        &&& self.entry.pred() == (EntryAtTop { levels: self.levels@ })
    }

    /// Creates a builder over `vectors`, pre-assigning every point's level and taking
    /// point 0 as the first entry.
    pub fn new(
        vectors: Arc<VectorStorage<K>>,
        kernel: K,
        config: HnswConfig,
        quant: Option<&'q QuantizedVectorBlock<K>>,
    ) -> (b: ConcurrentBuilder<'q, K>)
        requires
            vectors.wf(),
            kernel.spec_dim() == vectors.kernel.spec_dim(),
            quant matches Some(q) ==> q.quantizes(*vectors),
        ensures
            b.wf(),
            b.vectors == vectors,
            b.kernel == kernel,
            b.config == config,
            b.quant == quant,
            forall|p: int|
                0 <= p < b.levels@.len() ==> (#[trigger] b.levels@[p]) == rng::level_of(
                    kernel,
                    p as u32,
                    config.seed,
                    config.m as nat,
                ),
    {
        let n: usize = vectors.len();
        let mut levels: Vec<u8> = Vec::with_capacity(n);
        for i in 0..n
            invariant
                n <= u32::MAX,
                levels@.len() == i,
                forall|p: int|
                    0 <= p < i ==> (#[trigger] levels@[p]) == rng::level_of(
                        kernel,
                        p as u32,
                        config.seed,
                        config.m as nat,
                    ),
        {
            let level: usize = rng::level_for(&kernel, i as u32, config.seed, config.m);
            levels.push(level as u8);
        }
        let mut links: Vec<RwLock<Vec<Vec<u32>>, NodeLinks>> = Vec::with_capacity(n);
        for i in 0..n
            invariant
                n <= u32::MAX,
                levels@.len() == n,
                links@.len() == i,
                forall|p: int|
                    0 <= p < i ==> (#[trigger] links@[p]).pred() == (NodeLinks {
                        point: p as u32,
                        config,
                        levels: levels@,
                    }),
        {
            let ghost pred = NodeLinks { point: i as u32, config, levels: levels@ };
            let lists = unlinked_node(&levels, i, Ghost(config));
            links.push(RwLock::new(lists, Ghost(pred)));
        }
        // Point 0 is the first entry; it has no links yet.
        let first = if n == 0 {
            EntryState { entry: None, max_level: 0 }
        } else {
            EntryState { entry: Some(0), max_level: levels[0] as usize }
        };
        let entry = RwLock::new(first, Ghost(EntryAtTop { levels: levels@ }));
        ConcurrentBuilder { vectors, kernel, config, quant, levels, links, entry }
    }

    /// The degree bound of a layer.
    pub fn max_conn(&self, layer: usize) -> (bound: usize)
        ensures
            bound == self.config.degree_bound(layer as nat),
    {
        self.config.max_conn(layer)
    }

    /// The badness between any two points.
    pub open spec fn pairs(&self) -> spec_fn(u32, u32) -> OrderedF32 {
        match self.quant {
            Some(q) => code_pairs(q.metric, q.rows()),
            None => heuristic::row_pairs(self.kernel, self.vectors.rows()),
        }
    }

    fn pair_distances(&self) -> (pairs: ConstructionPairs<'_, K>)
        requires
            self.wf(),
        ensures
            pairs.pair_fn() == self.pairs(),
            forall|id: u32| id < self.vectors.rows().len() ==> pairs.covers(id),
    {
        ConstructionPairs { vectors: &self.vectors, kernel: self.kernel, quant: self.quant }
    }

    /// Construction badness between two stored points, using int8 codes when available.
    pub fn dist_ids(&self, a: u32, b: u32) -> (d: OrderedF32)
        requires
            self.wf(),
            a < self.vectors.rows().len(),
            b < self.vectors.rows().len(),
        ensures
            d == self.pairs()(a, b),
    {
        self.pair_distances().between(a, b)
    }

    /// Neighbor selection over `candidates` with the construction distances.
    pub fn select_ids(&self, base: u32, candidates: &Vec<Ranked>, m: usize) -> (selected: Vec<u32>)
        requires
            self.wf(),
            forall|i: int|
                0 <= i < candidates@.len() ==> (#[trigger] candidates@[i]).id
                    < self.vectors.rows().len(),
        ensures
            selected@ == heuristic::selection(
                self.pairs(),
                base,
                candidates@,
                m as nat,
                self.config.keep_pruned,
            ),
    {
        let pairs = self.pair_distances();
        heuristic::select_neighbors(&pairs, base, candidates, m, self.config.keep_pruned)
    }

    /// Re-applies the degree bound to `list` (a node's neighbor list at `layer`),
    /// re-running selection over its current members if it overflowed.
    pub fn enforce_bound(&self, base: u32, layer: usize, list: &mut Vec<u32>)
        requires
            self.wf(),
            base < self.vectors.rows().len(),
            forall|i: int|
                0 <= i < old(list)@.len() ==> (#[trigger] old(list)@[i])
                    < self.vectors.rows().len(),
        ensures
            final(list)@ == rebounded(
                self.pairs(),
                self.config,
                base,
                layer as nat,
                old(list)@,
            ),
    {
        let bound: usize = self.max_conn(layer);
        if list.len() > bound {
            let pairs = self.pair_distances();
            let candidates = heuristic::candidates_to(&pairs, base, list.as_slice());
            assert forall|i: int| 0 <= i < candidates@.len() implies (#[trigger] candidates@[i]).id
                < self.vectors.rows().len() by {
                assert(candidates@[i].id == list@[i]);
            }
            *list = self.select_ids(base, &candidates, bound);
        }
    }

    /// Copies a node's neighbor list out under its lock: some list that the node may have on
    /// the layer, and an empty one above its level. Which of them it is depends on what other
    /// insertions have written.
    fn read_neighbors(&self, point: u32, layer: usize) -> (ids: Vec<u32>)
        requires
            self.wf(),
            point < self.vectors.rows().len(),
        ensures
            list_ok(self.config, self.levels@, point, layer as nat, ids@),
            layer > self.levels@[point as int] ==> ids@.len() == 0,
    {
        let handle = self.links[point as usize].acquire_read();
        let lists = handle.borrow();
        let ids = if layer < lists.len() {
            let ids = vector::copy_slice(lists[layer].as_slice());
            assert(list_ok(self.config, self.levels@, point, layer as nat, lists@[layer as int]@));
            ids
        } else {
            Vec::new()
        };
        handle.release_read();
        ids
    }

    /// Best-first beam search of one `layer` over the (concurrently changing) graph. Other
    /// insertions may link and prune while it runs, so what it finds is not a function of
    /// its arguments; whatever it finds is present on the layer, sorted, distinct, at its
    /// true badness, and within the beam width, and every entry point is found unless the
    /// beam is full of points that rank before it.
    pub fn search_layer<D: Distance>(
        &self,
        layer: usize,
        entry_points: &[u32],
        ef: usize,
        dist: &D,
        visited: &mut VisitedList,
    ) -> (found: Vec<Ranked>)
        requires
            self.wf(),
            forall|i: int|
                0 <= i < entry_points@.len() ==> reaching(self.levels@, layer as nat).contains(
                    #[trigger] entry_points@[i],
                ),
            forall|id: u32| id < self.vectors.rows().len() ==> dist.measures(id),
            old(visited).wf(),
            old(visited).capacity() >= self.vectors.rows().len(),
        ensures
            final(visited).wf(),
            final(visited).capacity() == old(visited).capacity(),
            search::results_ok(
                LayerQuery {
                    adj: Seq::empty(),
                    layer: layer as nat,
                    ef: ef as nat,
                    dist: dist.badness_fn(),
                    keeps: search::keeps_all(),
                },
                found@,
                reaching(self.levels@, layer as nat),
            ),
            ef >= 1 && entry_points@.len() >= 1 ==> found@.len() >= 1,
            forall|i: int|
                0 <= i < entry_points@.len() ==> search::placed(
                    LayerQuery {
                        adj: Seq::empty(),
                        layer: layer as nat,
                        ef: ef as nat,
                        dist: dist.badness_fn(),
                        keeps: search::keeps_all(),
                    },
                    found@,
                    #[trigger] entry_points@[i],
                ),
    {
        let ghost q = LayerQuery {
            adj: Seq::empty(),
            layer: layer as nat,
            ef: ef as nat,
            dist: dist.badness_fn(),
            keeps: search::keeps_all(),
        };
        let ghost region = reaching(self.levels@, layer as nat);
        let ghost n = self.vectors.rows().len();
        visited.clear();
        let mut beam = BeamSearch::new();
        assert(search::beam_ok(q, Beam::start(), region));
        for i in 0..entry_points.len()
            invariant
                self.wf(),
                n == self.vectors.rows().len(),
                q.ef == ef,
                q.dist == dist.badness_fn(),
                q.keeps == search::keeps_all(),
                region == reaching(self.levels@, layer as nat),
                forall|i: int|
                    0 <= i < entry_points@.len() ==> region.contains(#[trigger] entry_points@[i]),
                forall|id: u32| id < n ==> dist.measures(id),
                visited.wf(),
                visited.capacity() == old(visited).capacity(),
                visited.capacity() >= n,
                search::beam_ok(q, beam.beam(visited.seen()), region),
                visited.seen().finite(),
                beam.frontier@.len() == visited.seen().len(),
                i == 0 ==> visited.seen() == Set::<u32>::empty(),
                ef >= 1 && i > 0 ==> beam.results@.len() >= 1,
                forall|id: u32| #[trigger]
                    visited.seen().contains(id) ==> search::placed(q, beam.results@, id),
                forall|j: int|
                    0 <= j < i ==> visited.seen().contains(#[trigger] entry_points@[j]),
        {
            let ghost before = beam.beam(visited.seen());
            let e: u32 = entry_points[i];
            proof {
                assert(region.contains(entry_points@[i as int]));
                search::lemma_seed(q, before, e, region);
                if ef >= 1 {
                    invariants::lemma_enqueue_nonempty(q, before.marked(e), e);
                }
            }
            beam.seed(Ghost(q), Ghost(region), e, ef, dist, &KeepAll, visited);
            proof {
                assert forall|id: u32| #[trigger] visited.seen().contains(id) implies search::placed(
                    q,
                    beam.results@,
                    id,
                ) by {
                    search::lemma_seed_places(q, before, e, region, id);
                }
            }
        }
        proof {
            assert(visited.seen().subset_of(search::ids_below(n)));
            search::lemma_ids_below_len(visited.seen(), n);
        }
        let ghost mut budget: nat = n;
        let mut done = false;
        while !done
            invariant
                self.wf(),
                n == self.vectors.rows().len(),
                q.ef == ef,
                q.dist == dist.badness_fn(),
                q.keeps == search::keeps_all(),
                region == reaching(self.levels@, layer as nat),
                forall|id: u32| id < n ==> dist.measures(id),
                visited.wf(),
                visited.capacity() == old(visited).capacity(),
                visited.capacity() >= n,
                search::results_ok(q, beam.results@, region),
                ef >= 1 && entry_points@.len() >= 1 ==> beam.results@.len() >= 1,
                forall|i: int|
                    0 <= i < entry_points@.len() ==> search::placed(
                        q,
                        beam.results@,
                        #[trigger] entry_points@[i],
                    ),
                !done ==> search::beam_ok(q, beam.beam(visited.seen()), region),
                !done ==> visited.seen().finite(),
                !done ==> visited.seen().len() <= n,
                !done ==> beam.frontier@.len() + n <= visited.seen().len() + budget,
            decreases budget + (if done { 0int } else { 1int }),
        {
            let ghost before = beam.beam(visited.seen());
            match beam.next(Ghost(q), Ghost(visited.seen()), ef) {
                None => {
                    done = true;
                },
                Some(c) => {
                    let ghost popped = beam.beam(visited.seen());
                    proof {
                        assert(search::entry_ok(q, before.seen, region, before.frontier[0]));
                        search::lemma_pop(q, before, region);
                    }
                    let ids = self.read_neighbors(c, layer);
                    for j in 0..ids.len()
                        invariant
                            self.wf(),
                            n == self.vectors.rows().len(),
                            q.ef == ef,
                            q.dist == dist.badness_fn(),
                            q.keeps == search::keeps_all(),
                            region == reaching(self.levels@, layer as nat),
                            forall|i: int|
                                0 <= i < ids@.len() ==> region.contains(#[trigger] ids@[i]),
                            forall|id: u32| id < n ==> dist.measures(id),
                            visited.wf(),
                            visited.capacity() == old(visited).capacity(),
                            visited.capacity() >= n,
                            search::beam_ok(q, beam.beam(visited.seen()), region),
                            visited.seen().finite(),
                            ef >= 1 && entry_points@.len() >= 1 ==> beam.results@.len() >= 1,
                            forall|i: int|
                                0 <= i < entry_points@.len() ==> search::placed(
                                    q,
                                    beam.results@,
                                    #[trigger] entry_points@[i],
                                ),
                            beam.frontier@.len() + popped.seen.len() <= popped.frontier.len()
                                + visited.seen().len(),
                    {
                        let ghost inner = beam.beam(visited.seen());
                        let id: u32 = ids[j];
                        proof {
                            assert(region.contains(ids@[j as int]));
                            search::lemma_meet(q, inner, id, region);
                            if ef >= 1 {
                                invariants::lemma_enqueue_nonempty(q, inner.marked(id), id);
                            }
                        }
                        beam.meet(Ghost(q), Ghost(region), id, ef, dist, &KeepAll, visited);
                        proof {
                            assert forall|i: int|
                                0 <= i < entry_points@.len() implies search::placed(
                                q,
                                beam.results@,
                                #[trigger] entry_points@[i],
                            ) by {
                                search::lemma_meet_places(
                                    q,
                                    inner,
                                    id,
                                    region,
                                    entry_points@[i],
                                );
                            }
                        }
                    }
                    proof {
                        assert(visited.seen().subset_of(search::ids_below(n)));
                        search::lemma_ids_below_len(visited.seen(), n);
                        budget = (budget - 1) as nat;
                    }
                },
            }
        }
        beam.results
    }

    /// What a point's list on a layer becomes when the neighbors selected from `found` are
    /// merged into `before`.
    pub open spec fn wired_from(
        &self,
        point: u32,
        layer: nat,
        found: Seq<Ranked>,
        before: Seq<u32>,
    ) -> Seq<u32> {
        rebounded(
            self.pairs(),
            self.config,
            point,
            layer,
            merged(
                before,
                heuristic::selection(
                    self.pairs(),
                    point,
                    found,
                    self.config.degree_bound(layer),
                    self.config.keep_pruned,
                ),
            ),
        )
    }

    /// The lists that inserting a point may leave it with on a layer: the neighbors
    /// selected from some beam of points around it, merged into some list it may have had.
    pub open spec fn may_wire(&self, point: u32, layer: nat, list: Seq<u32>) -> bool {
        exists|found: Seq<Ranked>, before: Seq<u32>|
            {
                &&& list == #[trigger] self.wired_from(point, layer, found, before)
                &&& search::results_ok(
                    LayerQuery {
                        adj: Seq::empty(),
                        layer,
                        ef: self.config.ef_construction as nat,
                        dist: construction::distances_from(self.pairs(), point),
                        keeps: search::keeps_all(),
                    },
                    found,
                    reaching(self.levels@, layer),
                )
                &&& self.config.ef_construction >= 1 ==> found.len() >= 1
                &&& list_ok(self.config, self.levels@, point, layer, before)
            }
    }

    /// Merges the selected neighbors into `point`'s own list on `layer`, keeping the
    /// back-links already pushed there. Returns the list as it was written.
    fn write_own(&self, point: u32, layer: usize, selected: &Vec<u32>) -> (written: Vec<u32>)
        requires
            self.wf(),
            reaching(self.levels@, layer as nat).contains(point),
            !selected@.contains(point),
            forall|i: int|
                0 <= i < selected@.len() ==> reaching(self.levels@, layer as nat).contains(
                    #[trigger] selected@[i],
                ),
        ensures
            exists|before: Seq<u32>|
                list_ok(self.config, self.levels@, point, layer as nat, before) && written@
                    == rebounded(
                    self.pairs(),
                    self.config,
                    point,
                    layer as nat,
                    #[trigger] merged(before, selected@),
                ),
    {
        let (mut lists, handle) = self.links[point as usize].acquire_write();
        let ghost region = reaching(self.levels@, layer as nat);
        let ghost before = lists@;
        assert(list_ok(self.config, self.levels@, point, layer as nat, before[layer as int]@));
        let mut list: Vec<u32> = vector::copy_slice(lists[layer].as_slice());
        merge_links(&mut list, selected);
        proof {
            law_merge_loses_no_edges(before[layer as int]@, selected@, point, region);
            lemma_rebounded(
                self.pairs(),
                self.config,
                self.levels@,
                point,
                layer as nat,
                list@,
            );
            assert forall|i: int| 0 <= i < list@.len() implies (#[trigger] list@[i])
                < self.vectors.rows().len() by {
                assert(region.contains(list@[i]));
            }
        }
        self.enforce_bound(point, layer, &mut list);
        let written = vector::copy_slice(list.as_slice());
        lists[layer] = list;
        proof {
            assert forall|l: int| 0 <= l < lists@.len() implies list_ok(
                self.config,
                self.levels@,
                point,
                l as nat,
                (#[trigger] lists@[l])@,
            ) by {
                if l != layer {
                    assert(lists@[l] == before[l]);
                }
            }
        }
        handle.release_write(lists);
        assert(written@ == rebounded(
            self.pairs(),
            self.config,
            point,
            layer as nat,
            merged(before[layer as int]@, selected@),
        ));
        written
    }

    /// Pushes `point` onto `neighbor`'s list on `layer`, re-bounding it. Returns the list as
    /// it was written.
    fn write_back(&self, neighbor: u32, layer: usize, point: u32) -> (written: Vec<u32>)
        requires
            self.wf(),
            neighbor != point,
            reaching(self.levels@, layer as nat).contains(point),
            reaching(self.levels@, layer as nat).contains(neighbor),
        ensures
            exists|before: Seq<u32>|
                list_ok(self.config, self.levels@, neighbor, layer as nat, before) && written@
                    == rebounded(
                    self.pairs(),
                    self.config,
                    neighbor,
                    layer as nat,
                    #[trigger] merged(before, seq![point]),
                ),
    {
        let back: Vec<u32> = vec![point];
        assert(back@ =~= seq![point]);
        assert(!back@.contains(neighbor));
        self.write_own(neighbor, layer, &back)
    }

    /// Reads the entry point and the top level.
    fn read_entry(&self) -> (state: EntryState)
        requires
            self.wf(),
        ensures
            (EntryAtTop { levels: self.levels@ }).inv(state),
    {
        let handle = self.entry.acquire_read();
        let state = *handle.borrow();
        handle.release_read();
        state
    }

    /// Raises the entry to `point` unless it is already at least as high. Returns the state
    /// as it was left.
    fn raise_entry(&self, point: u32, level: usize) -> (left: EntryState)
        requires
            self.wf(),
            point < self.levels@.len(),
            self.levels@[point as int] == level,
        ensures
            (EntryAtTop { levels: self.levels@ }).inv(left),
            left.max_level >= level,
            left.entry is Some,
    {
        let (state, handle) = self.entry.acquire_write();
        let left = if level > state.max_level {
            EntryState { entry: Some(point), max_level: level }
        } else {
            state
        };
        handle.release_write(left);
        left
    }

    /// Whether an insertion that starts at `entry` is sure to give `point` a neighbor on every
    /// layer it is wired on: it starts at another point, and the parameters leave room.
    pub open spec fn links_up(&self, point: u32, entry: Option<u32>) -> bool {
        &&& entry != Some(point)
        &&& self.config.ef_construction >= 2
        &&& self.config.m >= 1
        &&& self.config.m_max0 >= 1
    }

    /// Inserts `point`, wiring it into the layers up to its level. Other insertions may run
    /// at the same time: what holds of the shared lists throughout is the invariant of
    /// their locks. Returns the lists it wrote for `point`, from its highest layer in the
    /// graph down to the ground; which of the possible lists they are depends on what the
    /// others had written. A point that cannot be the entry, being no higher than the first
    /// one, gets a neighbor on each of its layers.
    pub fn insert(&self, point: u32, visited: &mut VisitedList) -> (wired: Vec<Vec<u32>>)
        requires
            self.wf(),
            point < self.vectors.rows().len(),
            old(visited).wf(),
            old(visited).capacity() >= self.vectors.rows().len(),
        ensures
            final(visited).wf(),
            final(visited).capacity() == old(visited).capacity(),
            1 <= wired@.len() <= self.levels@[point as int] + 1,
            forall|i: int|
                0 <= i < wired@.len() ==> self.may_wire(
                    point,
                    (wired@.len() - 1 - i) as nat,
                    (#[trigger] wired@[i])@,
                ),
            self.levels@[point as int] <= self.levels@[0] ==> wired@.len()
                == self.levels@[point as int] + 1,
            self.links_up(point, Some(0)) && self.levels@[point as int] <= self.levels@[0]
                ==> forall|i: int| 0 <= i < wired@.len() ==> (#[trigger] wired@[i])@.len() >= 1,
    {
        let state = self.read_entry();
        if state.entry.is_none() {
            // There is a point, so there is an entry.
            assert(false);
            return Vec::new();
        }
        self.insert_from(point, state, visited)
    }

    /// Inserts `point`, descending from the entry that was read.
    pub fn insert_from(&self, point: u32, from: EntryState, visited: &mut VisitedList) -> (wired:
        Vec<Vec<u32>>)
        requires
            self.wf(),
            point < self.vectors.rows().len(),
            (EntryAtTop { levels: self.levels@ }).inv(from),
            from.entry is Some,
            old(visited).wf(),
            old(visited).capacity() >= self.vectors.rows().len(),
        ensures
            final(visited).wf(),
            final(visited).capacity() == old(visited).capacity(),
            wired@.len() == 1 + if self.levels@[point as int] <= from.max_level {
                self.levels@[point as int] as int
            } else {
                from.max_level as int
            },
            forall|i: int|
                0 <= i < wired@.len() ==> self.may_wire(
                    point,
                    (wired@.len() - 1 - i) as nat,
                    (#[trigger] wired@[i])@,
                ),
            self.links_up(point, from.entry) ==> forall|i: int|
                0 <= i < wired@.len() ==> (#[trigger] wired@[i])@.len() >= 1,
    {
        let level: usize = self.levels[point as usize] as usize;
        let entry: u32 = match from.entry {
            None => {
                assert(false);
                return Vec::new();
            },
            Some(e) => e,
        };
        let start_level: usize = from.max_level;
        let dist = FromPoint { pairs: self.pair_distances(), point };

        // Phase 1: greedy descent from the top to just above `level`.
        let mut near: u32 = entry;
        let mut layer: usize = start_level;
        while layer > level
            invariant
                self.wf(),
                visited.wf(),
                visited.capacity() == old(visited).capacity(),
                visited.capacity() >= self.vectors.rows().len(),
                forall|id: u32| id < self.vectors.rows().len() ==> dist.measures(id),
                layer <= start_level,
                layer >= level || layer == start_level,
                level == self.levels@[point as int],
                reaching(self.levels@, layer as nat).contains(near),
                from.entry != Some(point) ==> near != point,
            decreases layer,
        {
            let entries: [u32; 1] = [near];
            assert(entries@ =~= seq![near]);
            let found = self.search_layer(layer, &entries, 1, &dist, visited);
            if found.len() > 0 {
                // The point is not on this layer, so this is another one.
                assert(reaching(self.levels@, layer as nat).contains(found@[0].id as u32));
                near = found[0].id as u32;
            }
            layer = layer - 1;
        }

        // Phase 2: from min(level, top) down to 0, find neighbors and wire up.
        let top: usize = if level <= start_level {
            level
        } else {
            start_level
        };
        let mut entries: Vec<u32> = vec![near];
        let mut layer: usize = top;
        let mut done = false;
        let mut wired: Vec<Vec<u32>> = Vec::new();
        assert(entries@ =~= seq![near]);
        assert(from.entry != Some(point) ==> entries@[0] != point);
        while !done
            invariant
                self.wf(),
                self.links_up(point, from.entry) && !done ==> exists|i: int|
                    0 <= i < entries@.len() && #[trigger] entries@[i] != point,
                self.links_up(point, from.entry) ==> forall|i: int|
                    0 <= i < wired@.len() ==> (#[trigger] wired@[i])@.len() >= 1,
                visited.wf(),
                visited.capacity() == old(visited).capacity(),
                visited.capacity() >= self.vectors.rows().len(),
                forall|id: u32| id < self.vectors.rows().len() ==> dist.measures(id),
                point < self.levels@.len(),
                level == self.levels@[point as int],
                top <= level,
                layer <= top,
                wired@.len() == top - layer + (if done {
                    1int
                } else {
                    0int
                }),
                done ==> layer == 0,
                dist.badness_fn() == construction::distances_from(self.pairs(), point),
                !done ==> entries@.len() >= 1 || self.config.ef_construction == 0,
                forall|i: int|
                    0 <= i < wired@.len() ==> self.may_wire(
                        point,
                        (top - i) as nat,
                        (#[trigger] wired@[i])@,
                    ),
                !done ==> forall|i: int|
                    0 <= i < entries@.len() ==> reaching(self.levels@, layer as nat).contains(
                        #[trigger] entries@[i],
                    ),
            decreases layer + (if done { 0int } else { 1int }),
        {
            let ghost region = reaching(self.levels@, layer as nat);
            let found = self.search_layer(
                layer,
                entries.as_slice(),
                self.config.ef_construction,
                &dist,
                visited,
            );
            let bound: usize = self.max_conn(layer);
            let selected = self.select_ids(point, &found, bound);
            proof {
                if self.links_up(point, from.entry) {
                    let i = choose|i: int|
                        0 <= i < entries@.len() && #[trigger] entries@[i] != point;
                    let q = LayerQuery {
                        adj: Seq::empty(),
                        layer: layer as nat,
                        ef: self.config.ef_construction as nat,
                        dist: dist.badness_fn(),
                        keeps: search::keeps_all(),
                    };
                    lemma_finds_another(q, found@, region, entries@[i], point);
                    invariants::law_selection_nonempty(
                        self.pairs(),
                        point,
                        found@,
                        bound as nat,
                        self.config.keep_pruned,
                    );
                }
                construction::lemma_selected(
                    self.pairs(),
                    self.config,
                    point,
                    layer as nat,
                    found@,
                    region,
                );
                heuristic::law_selection(
                    self.pairs(),
                    point,
                    found@,
                    bound as nat,
                    self.config.keep_pruned,
                );
            }
            let written = self.write_own(point, layer, &selected);
            proof {
                let before = choose|before: Seq<u32>|
                    list_ok(self.config, self.levels@, point, layer as nat, before) && written@
                        == rebounded(
                        self.pairs(),
                        self.config,
                        point,
                        layer as nat,
                        #[trigger] merged(before, selected@),
                    );
                assert(written@ == self.wired_from(point, layer as nat, found@, before));
                assert(self.may_wire(point, layer as nat, written@));
                if self.links_up(point, from.entry) {
                    law_merge_loses_no_edges(before, selected@, point, region);
                    assert(selected@.contains(selected@[0]));
                    assert(merged(before, selected@).contains(selected@[0]));
                    lemma_rebounded_nonempty(
                        self.pairs(),
                        self.config,
                        point,
                        layer as nat,
                        merged(before, selected@),
                    );
                }
            }
            wired.push(written);
            for i in 0..selected.len()
                invariant
                    self.wf(),
                    region == reaching(self.levels@, layer as nat),
                    region.contains(point),
                    !selected@.contains(point),
                    forall|j: int|
                        0 <= j < selected@.len() ==> region.contains(#[trigger] selected@[j]),
            {
                assert(selected@.contains(selected@[i as int]));
                assert(region.contains(selected@[i as int]));
                let _ = self.write_back(selected[i], layer, point);
            }
            entries = builder::take_ids(&found);
            proof {
                if self.links_up(point, from.entry) {
                    let i = choose|i: int|
                        0 <= i < found@.len() && (#[trigger] found@[i]).id != point;
                    assert(entries@[i] != point);
                }
            }
            if layer == 0 {
                done = true;
            } else {
                assert forall|i: int| 0 <= i < entries@.len() implies reaching(
                    self.levels@,
                    (layer - 1) as nat,
                ).contains(#[trigger] entries@[i]) by {
                    assert(region.contains(found@[i].id as u32));
                }
                layer = layer - 1;
            }
        }

        // Raise the global entry if this point reaches a new top layer.
        if level > start_level {
            let _ = self.raise_entry(point, level);
        }
        wired
    }

    /// Every list is one that its point may have on its layer.
    pub open spec fn lists_ok(&self, adj: Adjacency) -> bool {
        &&& adj.len() == self.levels@.len()
        &&& forall|p: int| 0 <= p < adj.len() ==> (#[trigger] adj[p]).len() == self.levels@[p] + 1
        &&& forall|p: int, l: int|
            0 <= p < adj.len() && 0 <= l < adj[p].len() ==> list_ok(
                self.config,
                self.levels@,
                p as u32,
                l as nat,
                #[trigger] adj[p][l],
            )
    }

    /// Replaces one list by another that its point may have.
    proof fn lemma_with_list(&self, adj: Adjacency, point: u32, list: Seq<u32>)
        requires
            self.lists_ok(adj),
            point < adj.len(),
            list_ok(self.config, self.levels@, point, 0, list),
        ensures
            self.lists_ok(construction::with_list(adj, point, 0, list)),
            forall|p: int|
                0 <= p < adj.len() ==> #[trigger] construction::with_list(adj, point, 0, list)[p][0]
                    == if p == point {
                    list
                } else {
                    adj[p][0]
                },
    {
        let next = construction::with_list(adj, point, 0, list);
        assert forall|p: int| 0 <= p < next.len() implies (#[trigger] next[p]).len()
            == self.levels@[p] + 1 by {
            assert(adj[p].len() == self.levels@[p] + 1);
        }
        assert forall|p: int, l: int| 0 <= p < next.len() && 0 <= l < next[p].len() implies list_ok(
            self.config,
            self.levels@,
            p as u32,
            l as nat,
            #[trigger] next[p][l],
        ) by {
            assert(adj[p].len() == self.levels@[p] + 1);
            if p != point || l != 0 {
                assert(next[p][l] == adj[p][l]);
            }
        }
        assert forall|p: int| 0 <= p < adj.len() implies #[trigger] next[p][0] == if p == point {
            list
        } else {
            adj[p][0]
        } by {
            assert(adj[p].len() == self.levels@[p] + 1);
        }
    }

    /// Links a point that no insertion reached on the ground layer: it selects its neighbors
    /// from all the other points, and they link back.
    fn attach(&self, links: &mut Vec<Vec<Vec<u32>>>, point: u32)
        requires
            self.wf(),
            self.lists_ok(builder::lists_of(old(links)@)),
            self.levels@.len() >= 2,
            point < self.levels@.len(),
            self.config.degree_bound(0) >= 1,
        ensures
            self.lists_ok(builder::lists_of(final(links)@)),
            builder::lists_of(final(links)@)[point as int][0].len() >= 1,
            forall|p: int|
                0 <= p < self.levels@.len() && builder::lists_of(old(links)@)[p][0].len() >= 1
                    ==> #[trigger] builder::lists_of(final(links)@)[p][0].len() >= 1,
    {
        let n: usize = self.levels.len();
        let ghost region = reaching(self.levels@, 0);
        let ghost before = builder::lists_of(links@);
        let mut list: Vec<u32> = Vec::new();
        for i in 0..n
            invariant
                n == self.levels@.len(),
                n <= u32::MAX,
                region == reaching(self.levels@, 0),
                list@.no_duplicates(),
                list@.len() >= i - 1,
                i > point ==> list@.len() == i - 1,
                i <= point ==> list@.len() == i,
                forall|j: int|
                    0 <= j < list@.len() ==> (#[trigger] list@[j]) < i && list@[j] != point
                        && region.contains(list@[j]),
        {
            let id: u32 = i as u32;
            if id != point {
                assert(region.contains(id));
                list.push(id);
            }
        }
        proof {
            assert(!list@.contains(point));
            lemma_rebounded(self.pairs(), self.config, self.levels@, point, 0, list@);
            lemma_rebounded_nonempty(self.pairs(), self.config, point, 0, list@);
        }
        self.enforce_bound(point, 0, &mut list);
        let own = vector::copy_slice(list.as_slice());
        proof {
            self.lemma_with_list(before, point, own@);
            assert(before[point as int].len() == self.levels@[point as int] + 1);
        }
        builder::set_list(links, point, 0, own);
        for i in 0..list.len()
            invariant
                self.wf(),
                region == reaching(self.levels@, 0),
                region.contains(point),
                point < self.levels@.len(),
                self.config.degree_bound(0) >= 1,
                list_ok(self.config, self.levels@, point, 0, list@),
                before.len() == self.levels@.len(),
                self.lists_ok(builder::lists_of(links@)),
                builder::lists_of(links@)[point as int][0].len() >= 1,
                forall|p: int|
                    0 <= p < self.levels@.len() && before[p][0].len() >= 1
                        ==> #[trigger] builder::lists_of(links@)[p][0].len() >= 1,
        {
            let q: u32 = list[i];
            let ghost adj = builder::lists_of(links@);
            proof {
                assert(region.contains(q));
                assert(list@.contains(q));
                assert(adj[q as int].len() == self.levels@[q as int] + 1);
                assert(list_ok(self.config, self.levels@, q, 0, adj[q as int][0]));
            }
            let mut back: Vec<u32> = vector::copy_slice(links[q as usize][0].as_slice());
            let link: Vec<u32> = vec![point];
            assert(link@ =~= seq![point]);
            assert(!link@.contains(q));
            let ghost had = back@;
            merge_links(&mut back, &link);
            proof {
                law_merge_loses_no_edges(had, link@, q, region);
                assert(link@[0] == point);
                assert(back@.contains(point));
                lemma_rebounded(self.pairs(), self.config, self.levels@, q, 0, back@);
                lemma_rebounded_nonempty(self.pairs(), self.config, q, 0, back@);
                assert forall|j: int| 0 <= j < back@.len() implies (#[trigger] back@[j])
                    < self.vectors.rows().len() by {
                    assert(region.contains(back@[j]));
                }
            }
            self.enforce_bound(q, 0, &mut back);
            proof {
                self.lemma_with_list(adj, q, back@);
            }
            builder::set_list(links, q, 0, back);
        }
    }

    /// Flattens the locked adjacency into the read-optimized [`GraphLayers`]. Whatever
    /// interleaving of insertions went before, the graph is well linked and simple, its
    /// entry sits at the top level, and the levels are those assigned. A point that they
    /// left without ground-layer neighbors is linked first, so that none is isolated, and the
    /// entry is the highest point even if they did not raise it so far.
    pub fn into_graph_layers(self) -> (sealed: GraphLayers)
        requires
            self.wf(),
        ensures
            sealed.graph_ok(),
            sealed.levels@ == self.levels@,
            sealed.adjacency().len() == self.vectors.rows().len(),
            construction::well_linked(self.config, sealed.adjacency()),
            invariants::simple(sealed.adjacency()),
            construction::entry_ok(sealed.state()),
            sealed.entry is Some <==> self.vectors.rows().len() > 0,
            invariants::none_above(sealed.state()),
            self.vectors.rows().len() >= 2 && invariants::connecting(self.config)
                ==> invariants::none_isolated(sealed.adjacency(), self.vectors.rows().len()),
    {
        let state = self.read_entry();
        let n: usize = self.levels.len();
        let mut links: Vec<Vec<Vec<u32>>> = Vec::with_capacity(n);
        for p in 0..n
            invariant
                self.wf(),
                n == self.levels@.len(),
                links@.len() == p,
                forall|i: int|
                    0 <= i < p ==> (NodeLinks {
                        point: i as u32,
                        config: self.config,
                        levels: self.levels@,
                    }).inv(#[trigger] links@[i]),
        {
            let (lists, handle) = self.links[p].acquire_write();
            handle.release_write(unlinked_node(&self.levels, p, Ghost(self.config)));
            links.push(lists);
        }
        proof {
            let adj = builder::lists_of(links@);
            assert forall|p: int| 0 <= p < adj.len() implies (#[trigger] adj[p]).len()
                == self.levels@[p] + 1 by {
                assert(links@[p]@.len() == self.levels@[p] + 1);
            }
            assert forall|p: int, l: int| 0 <= p < adj.len() && 0 <= l < adj[p].len() implies list_ok(
                self.config,
                self.levels@,
                p as u32,
                l as nat,
                #[trigger] adj[p][l],
            ) by {
                assert(adj[p][l] == links@[p]@[l]@);
            }
            assert(self.lists_ok(adj));
        }
        let linkable = n >= 2 && self.config.m_max0 >= 1 && self.config.ef_construction >= 1;
        if linkable {
            for p in 0..n
                invariant
                    self.wf(),
                    n == self.levels@.len(),
                    n >= 2,
                    self.config.degree_bound(0) >= 1,
                    self.lists_ok(builder::lists_of(links@)),
                    forall|q: int|
                        0 <= q < p ==> (#[trigger] builder::lists_of(links@)[q])[0].len() >= 1,
            {
                proof {
                    let adj = builder::lists_of(links@);
                    assert(adj[p as int].len() == self.levels@[p as int] + 1);
                    assert(adj[p as int][0] == links@[p as int]@[0]@);
                }
                if links[p][0].len() == 0 {
                    self.attach(&mut links, p as u32);
                }
            }
        }
        let levels = copy_levels(&self.levels);
        proof {
            let adj = builder::lists_of(links@);
            assert forall|l: nat| #[trigger] construction::present_on(adj, l) == reaching(
                self.levels@,
                l,
            ) by {
                assert(construction::present_on(adj, l) =~= reaching(self.levels@, l));
            }
            assert forall|p: int, l: int, i: int|
                0 <= p < adj.len() && 0 <= l < adj[p].len() && 0 <= i < adj[p][l].len() implies construction::present_on(
            adj, l as nat).contains(#[trigger] adj[p][l][i]) by {
                assert(list_ok(self.config, self.levels@, p as u32, l as nat, adj[p][l]));
            }
            assert(construction::well_linked(self.config, adj));
            assert(invariants::simple(adj));
            assert forall|p: int| 0 <= p < links@.len() implies (#[trigger] links@[p])@.len()
                >= 1 by {
                assert(adj[p].len() == self.levels@[p] + 1);
            }
        }
        let mut entry = state.entry;
        let mut top: usize = state.max_level;
        for p in 0..n
            invariant
                n == self.levels@.len(),
                n <= u32::MAX,
                (EntryAtTop { levels: self.levels@ }).inv(EntryState { entry, max_level: top }),
                forall|q: int| 0 <= q < p ==> (#[trigger] self.levels@[q]) <= top,
        {
            if self.levels[p] as usize > top {
                entry = Some(p as u32);
                top = self.levels[p] as usize;
            }
        }
        graph::seal(levels, links, entry, top)
    }
}

/// `ParallelIterator::for_each_init` of rayon hands each point from 1 on to some worker,
/// in no particular order, with a visited list of its own. Nothing is claimed of the
/// outcome: it is what the locks' invariants allow.
#[verifier::external_body]
fn insert_rest<'q, K: Kernel + Send + Sync>(builder: &ConcurrentBuilder<'q, K>, n: u32) where
    K::Elem: Send + Sync,

    requires
        builder.wf(),
        n == builder.vectors.rows().len(),
{
    (1..n).into_par_iter().for_each_init(
        || VisitedList::new(n as usize),
        |visited, point| {
            let _ = builder.insert(point, visited);
        },
    );
}

/// Builds an HNSW graph by parallel insertion. Point 0 is the first entry; the rest are
/// inserted concurrently. When `quant` is supplied, construction distances use its codes.
pub fn build_concurrent_graph<K: Kernel + Send + Sync>(
    vectors: Arc<VectorStorage<K>>,
    kernel: K,
    config: HnswConfig,
    quant: Option<&QuantizedVectorBlock<K>>,
) -> (graph: GraphLayers) where K::Elem: Send + Sync

    requires
        vectors.wf(),
        kernel.spec_dim() == vectors.kernel.spec_dim(),
        quant matches Some(q) ==> q.quantizes(*vectors),
    ensures
        graph.searchable(vectors.rows().len()),
        construction::within_bounds(config, graph.adjacency()),
        invariants::simple(graph.adjacency()),
        invariants::none_above(graph.state()),
        forall|p: int|
            0 <= p < graph.levels@.len() ==> (#[trigger] graph.levels@[p]) == rng::level_of(
                kernel,
                p as u32,
                config.seed,
                config.m as nat,
            ),
        vectors.rows().len() >= 2 && invariants::connecting(config) ==> invariants::none_isolated(
            graph.adjacency(),
            vectors.rows().len(),
        ),
{
    let n: usize = vectors.len();
    let builder = ConcurrentBuilder::new(vectors, kernel, config, quant);
    if n > 0 {
        insert_rest(&builder, n as u32);
    }
    builder.into_graph_layers()
}

fn copy_levels(levels: &Vec<u8>) -> (out: Vec<u8>)
    ensures
        out@ == levels@,
{
    vector::copy_slice(levels.as_slice())
}

} // verus!
