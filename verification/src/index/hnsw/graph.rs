//! The sealed, immutable HNSW graph.
//!
//! [`GraphLayers`] is the read-optimized form produced by sealing a builder. Layer 0
//! (where almost all edges live) is stored as a flat arena for cache locality; the sparse
//! upper layers are kept per high-level point.

use vstd::prelude::*;
use vstd::slice::slice_subrange;
use roaring::RoaringBitmap;

use crate::distance;
use crate::distance::Kernel;
use crate::id::PointId;
use crate::index;
use crate::index::filter::FilterContext;
use crate::index::hnsw::builder;
use crate::index::hnsw::construction;
use crate::index::hnsw::construction::GraphState;
use crate::index::hnsw::search;
use crate::index::hnsw::search::Adjacency;
use crate::index::hnsw::search::Admission;
use crate::index::hnsw::search::Distance;
use crate::index::hnsw::search::Graph;
use crate::index::hnsw::search::KeepAll;
use crate::index::hnsw::search::LayerQuery;
use crate::index::hnsw::visited::VisitedList;
use crate::index::ScoredPoint;
use crate::ordered::OrderedF32;
use crate::ranking;
use crate::ranking::Ranked;
use crate::vector;
use crate::vector::VectorStorage;

verus! {

/// The slot of a point without upper layers.
pub const NO_SLOT: u32 = 0xffff_ffff;

/// An immutable HNSW graph.
#[derive(Debug, Clone, PartialEq, Eq)]
pub struct GraphLayers {
    /// The entry point.
    pub entry: Option<u32>,
    /// The level of the entry point.
    pub max_level: usize,
    /// Per-point assigned level.
    pub levels: Vec<u8>,
    /// Layer-0 arena: neighbors of point `p` are
    /// `l0_links[l0_offsets[p]..l0_offsets[p + 1]]`.
    pub l0_offsets: Vec<u64>,
    /// The layer-0 neighbor ids of all points.
    pub l0_links: Vec<u32>,
    /// Sparse upper layers: `upper[upper_index[p]][layer - 1]`.
    pub upper: Vec<Vec<Vec<u32>>>,
    /// Maps a point to its slot in `upper`, or [`NO_SLOT`] if it has no upper layers.
    pub upper_index: Vec<u32>,
}

/// An empty list of ids.
pub fn no_ids() -> (ids: &'static [u32])
    ensures
        ids@ == Seq::<u32>::empty(),
{
    let ids: &'static [u32] = &[];
    assert(ids@ =~= Seq::<u32>::empty());
    ids
}

/// The layer-0 neighbors of `p`.
pub open spec fn ground_list(offsets: Seq<u64>, links: Seq<u32>, p: int) -> Seq<u32> {
    links.subrange(offsets[p] as int, offsets[p + 1] as int)
}

/// The upper-layer lists of the point with the given slot.
pub open spec fn upper_lists(upper: Seq<Vec<Vec<u32>>>, slot: u32) -> Seq<Seq<u32>> {
    if slot == NO_SLOT {
        Seq::empty()
    } else {
        builder::layers_of(upper[slot as int]@)
    }
}

/// What a search of the whole graph finds: a greedy descent through the upper layers, then
/// a beam search of width `ef` on layer 0, cut to the best `k`.
pub open spec fn graph_search(
    g: GraphState,
    dist: spec_fn(u32) -> OrderedF32,
    keeps: spec_fn(u32) -> bool,
    k: nat,
    ef: nat,
) -> Seq<Ranked> {
    match g.entry {
        None => Seq::empty(),
        Some(entry) => ranking::first_k(
            search::layer_search(
                LayerQuery { adj: g.adj, layer: 0, ef, dist, keeps },
                seq![construction::descend(g.adj, dist, entry, g.top, 0)],
            ),
            k,
        ),
    }
}

/// The exact badness of each row relative to a query.
pub open spec fn query_distances<K: Kernel>(
    kernel: K,
    rows: Seq<Seq<K::Elem>>,
    query: Seq<K::Elem>,
) -> spec_fn(u32) -> OrderedF32 {
    |id: u32|
        distance::badness_of(
            kernel.spec_score(query, rows[id as int]),
            kernel.spec_metric().prefers_higher(),
        )
}

/// The exact badness of each row relative to a query.
pub struct QueryDistance<'a, K: Kernel> {
    /// The rows.
    pub vectors: &'a VectorStorage<K>,
    /// The kernel.
    pub kernel: K,
    /// The query.
    pub query: &'a [K::Elem],
}

impl<'a, K: Kernel> Distance for QueryDistance<'a, K> {
    open spec fn badness_fn(&self) -> spec_fn(u32) -> OrderedF32 {
        query_distances(self.kernel, self.vectors.rows(), self.query@)
    }

    open spec fn measures(&self, id: u32) -> bool {
        &&& self.vectors.wf()
        &&& self.vectors.kernel.spec_dim() == self.kernel.spec_dim()
        &&& self.query@.len() == self.kernel.spec_dim()
        &&& id < self.vectors.rows().len()
    }

    fn badness(&self, id: u32) -> (b: OrderedF32) {
        let score = self.kernel.score(self.query, self.vectors.get(PointId::new(id)));
        distance::badness(score, self.kernel.metric().higher_is_better())
    }
}

/// Admits the points that are neither tombstoned nor rejected by the filter.
pub struct LiveMatching<'a> {
    /// The tombstones.
    pub deleted: Option<&'a RoaringBitmap>,
    /// The filter.
    pub filter: Option<&'a dyn FilterContext>,
}

impl<'a> Admission for LiveMatching<'a> {
    open spec fn keeps_fn(&self) -> spec_fn(u32) -> bool {
        index::admission(index::tombstones_of(self.deleted), self.filter)
    }

    fn keeps(&self, id: u32) -> (r: bool) {
        index::admitted(id, self.deleted, self.filter)
    }
}

/// A whole-graph search returns admitted points only: best first, distinct, at their true
/// badness, no more than `k` and no more than the beam width.
pub proof fn law_graph_search(
    g: GraphState,
    dist: spec_fn(u32) -> OrderedF32,
    keeps: spec_fn(u32) -> bool,
    k: nat,
    ef: nat,
)
    requires
        construction::linked(g.adj),
        construction::entry_ok(g),
    ensures
        graph_search(g, dist, keeps, k, ef).len() <= k,
        search::results_ok(
            LayerQuery { adj: g.adj, layer: 0, ef, dist, keeps },
            graph_search(g, dist, keeps, k, ef),
            search::ids_below(g.adj.len()),
        ),
{
    if let Some(entry) = g.entry {
        construction::lemma_descend(g.adj, dist, entry, g.top, 0);
        let near = construction::descend(g.adj, dist, entry, g.top, 0);
        let q = LayerQuery { adj: g.adj, layer: 0, ef, dist, keeps };
        let region = search::ids_below(g.adj.len());
        construction::lemma_layer_closed(g.adj, 0);
        assert forall|i: int| 0 <= i < seq![near].len() implies region.contains(
            #[trigger] seq![near][i],
        ) by {
            assert(construction::present_on(g.adj, 0).contains(near));
        }
        search::law_layer_search(q, seq![near], region);
        let all = search::layer_search(q, seq![near]);
        let cut = graph_search(g, dist, keeps, k, ef);
        assert forall|i: int| 0 <= i < cut.len() implies cut[i] == all[i] by {}
        assert forall|i: int, j: int| 0 <= i < j < cut.len() implies !(#[trigger] cut[j]).before(
            #[trigger] cut[i],
        ) && cut[i].id != cut[j].id by {
            assert(!all[j].before(all[i]));
            assert(all[i].id != all[j].id);
        }
        assert forall|i: int| 0 <= i < cut.len() implies {
            &&& (#[trigger] cut[i]).id <= u32::MAX
            &&& region.contains(cut[i].id as u32)
            &&& keeps(cut[i].id as u32)
            &&& cut[i].badness == dist(cut[i].id as u32)
        } by {
            assert(all[i].id <= u32::MAX);
        }
    }
}

impl GraphLayers {
    /// The graph as a construction state.
    pub open spec fn state(&self) -> GraphState {
        GraphState { adj: self.adjacency(), entry: self.entry, top: self.max_level as nat }
    }

    /// The graph is consistent and linked, over `n` points.
    pub open spec fn searchable(&self, n: nat) -> bool {
        &&& self.graph_ok()
        &&& self.adjacency().len() == n
        &&& construction::linked(self.adjacency())
        &&& construction::entry_ok(self.state())
        &&& self.entry is Some <==> n > 0
    }

    /// Searches for the best `k` admitted points with beam width `ef`, as ranked ids.
    /// Points in `deleted` or rejected by `filter` are traversed (for connectivity) but
    /// never returned.
    pub fn search_ids<D: Distance>(
        &self,
        dist: &D,
        k: usize,
        ef: usize,
        filter: Option<&dyn FilterContext>,
        deleted: Option<&RoaringBitmap>,
        visited: &mut VisitedList,
    ) -> (found: Vec<Ranked>)
        requires
            self.searchable(self.adjacency().len()),
            forall|id: u32| id < self.adjacency().len() ==> dist.measures(id),
            old(visited).wf(),
            old(visited).capacity() >= self.adjacency().len(),
        ensures
            final(visited).wf(),
            final(visited).capacity() == old(visited).capacity(),
            found@ == graph_search(
                self.state(),
                dist.badness_fn(),
                index::admission(index::tombstones_of(deleted), filter),
                k as nat,
                ef as nat,
            ),
    {
        let entry: u32 = match self.entry {
            None => {
                return Vec::new();
            },
            Some(e) => e,
        };
        let ghost adj = self.adjacency();
        let ghost from = dist.badness_fn();
        // Greedy descent through the upper layers (beam width 1).
        let mut near: u32 = entry;
        let mut layer: usize = self.max_level;
        while layer > 0
            invariant
                self.graph_ok(),
                adj == self.adjacency(),
                from == dist.badness_fn(),
                construction::linked(adj),
                forall|id: u32| id < adj.len() ==> dist.measures(id),
                visited.wf(),
                visited.capacity() == old(visited).capacity(),
                visited.capacity() >= adj.len(),
                construction::present_on(adj, layer as nat).contains(near),
                construction::descend(adj, from, near, layer as nat, 0) == construction::descend(
                    adj,
                    from,
                    entry,
                    self.max_level as nat,
                    0,
                ),
            decreases layer,
        {
            proof {
                construction::lemma_layer_closed(adj, layer as nat);
                construction::lemma_closest_on(adj, layer as nat, from, near);
            }
            let entries: [u32; 1] = [near];
            assert(entries@ =~= seq![near]);
            let found = search::search_layer(self, layer, &entries, 1, dist, &KeepAll, visited);
            if found.len() > 0 {
                near = found[0].id as u32;
            }
            proof {
                construction::lemma_present_below(
                    adj,
                    seq![near],
                    layer as nat,
                    (layer - 1) as nat,
                );
                assert(construction::present_on(adj, (layer - 1) as nat).contains(seq![near][0]));
            }
            layer = layer - 1;
        }
        // Layer 0: full ef-search, admitting only live, filter-passing points.
        let admission = LiveMatching { deleted, filter };
        proof {
            construction::lemma_layer_closed(adj, 0);
        }
        let entries: [u32; 1] = [near];
        assert(entries@ =~= seq![near]);
        let mut found = search::search_layer(self, 0, &entries, ef, dist, &admission, visited);
        if k < found.len() {
            found.truncate(k);
        }
        found
    }

    /// Searches for the best `k` admitted points for `query` with beam width `ef`.
    pub fn search<K: Kernel>(
        &self,
        vectors: &VectorStorage<K>,
        kernel: &K,
        query: &[K::Elem],
        k: usize,
        ef: usize,
        filter: Option<&dyn FilterContext>,
        deleted: Option<&RoaringBitmap>,
        visited: &mut VisitedList,
    ) -> (found: Vec<ScoredPoint>)
        requires
            vectors.wf(),
            self.searchable(vectors.rows().len()),
            kernel.spec_dim() == vectors.kernel.spec_dim(),
            query@.len() == kernel.spec_dim(),
            old(visited).wf(),
            old(visited).capacity() >= self.adjacency().len(),
        ensures
            final(visited).wf(),
            final(visited).capacity() == old(visited).capacity(),
            found@ == index::points_of(
                ranking::all_scored(
                    graph_search(
                        self.state(),
                        query_distances(*kernel, vectors.rows(), query@),
                        index::admission(index::tombstones_of(deleted), filter),
                        k as nat,
                        ef as nat,
                    ),
                    kernel.spec_metric().prefers_higher(),
                ),
            ),
    {
        let dist = QueryDistance { vectors, kernel: *kernel, query };
        let ranked = self.search_ids(&dist, k, ef, filter, deleted, visited);
        proof {
            law_graph_search(
                self.state(),
                dist.badness_fn(),
                index::admission(index::tombstones_of(deleted), filter),
                k as nat,
                ef as nat,
            );
        }
        let scored = ranking::scored_from(&ranked, kernel.metric().higher_is_better());
        index::to_points(&scored)
    }

    /// All lists of point `p`, ground layer first.
    pub open spec fn lists(&self, p: int) -> Seq<Seq<u32>> {
        seq![ground_list(self.l0_offsets@, self.l0_links@, p)] + upper_lists(
            self.upper@,
            self.upper_index@[p],
        )
    }

    /// Whether the arrays of the graph fit together.
    fn check_layout(&self) -> (ok: bool)
        ensures
            ok == self.graph_ok(),
    {
        let n: usize = self.levels.len();
        let slots: usize = self.l0_offsets.len();
        if slots == 0 || slots - 1 != n || self.upper_index.len() != n {
            return false;
        }
        if self.l0_offsets[0] != 0 || self.l0_offsets[n] != self.l0_links.len() as u64 {
            return false;
        }
        for p in 0..n
            invariant
                n == self.levels@.len(),
                self.l0_offsets@.len() == n + 1,
                self.upper_index@.len() == n,
                forall|i: int, j: int|
                    0 <= i <= j <= p ==> (#[trigger] self.l0_offsets@[i]) <= (
                    #[trigger] self.l0_offsets@[j]),
                forall|i: int|
                    0 <= i < p ==> (#[trigger] self.upper_index@[i]) == NO_SLOT
                        || self.upper_index@[i] < self.upper@.len(),
        {
            if self.l0_offsets[p] > self.l0_offsets[p + 1] {
                assert(!self.graph_ok());
                return false;
            }
            let slot: u32 = self.upper_index[p];
            if slot != NO_SLOT && slot as usize >= self.upper.len() {
                assert(!self.graph_ok());
                return false;
            }
        }
        true
    }

    /// The number of layers above the ground that a point is on.
    fn upper_count(&self, point: usize) -> (count: usize)
        requires
            self.graph_ok(),
            point < self.levels@.len(),
        ensures
            count + 1 == self.lists(point as int).len(),
    {
        let slot: u32 = self.upper_index[point];
        if slot == NO_SLOT {
            0
        } else {
            self.upper[slot as usize].len()
        }
    }

    /// Whether every listed id is a point on `layer`.
    fn check_list(&self, ids: &[u32], layer: usize) -> (ok: bool)
        requires
            self.graph_ok(),
        ensures
            ok == (forall|i: int|
                0 <= i < ids@.len() ==> construction::present_on(
                    self.adjacency(),
                    layer as nat,
                ).contains(#[trigger] ids@[i])),
    {
        let n: usize = self.levels.len();
        let ghost present = construction::present_on(self.adjacency(), layer as nat);
        for i in 0..ids.len()
            invariant
                n == self.levels@.len(),
                self.graph_ok(),
                present == construction::present_on(self.adjacency(), layer as nat),
                forall|j: int| 0 <= j < i ==> present.contains(#[trigger] ids@[j]),
        {
            let id: usize = ids[i] as usize;
            if id >= n || self.upper_count(id) < layer {
                assert(!present.contains(ids@[i as int]));
                return false;
            }
        }
        true
    }

    /// Whether every list names points present on its layer.
    fn check_links(&self) -> (ok: bool)
        requires
            self.graph_ok(),
            self.levels@.len() <= u32::MAX,
        ensures
            ok == construction::linked(self.adjacency()),
    {
        let n: usize = self.levels.len();
        let ghost adj = self.adjacency();
        for p in 0..n
            invariant
                n == self.levels@.len(),
                n <= u32::MAX,
                adj == self.adjacency(),
                self.graph_ok(),
                forall|q: int, l: int, i: int|
                    0 <= q < p && 0 <= l < adj[q].len() && 0 <= i < adj[q][l].len()
                        ==> construction::present_on(adj, l as nat).contains(
                        #[trigger] adj[q][l][i],
                    ),
        {
            let ids = self.neighbors(p as u32, 0);
            assert(ids@ == adj[p as int][0]);
            if !self.check_list(ids, 0) {
                return false;
            }
            let count: usize = self.upper_count(p);
            for above in 0..count
                invariant
                    p < n,
                    n == self.levels@.len(),
                    n <= u32::MAX,
                    adj == self.adjacency(),
                    self.graph_ok(),
                    count + 1 == adj[p as int].len(),
                    forall|l: int, i: int|
                        0 <= l <= above && 0 <= i < adj[p as int][l].len()
                            ==> construction::present_on(adj, l as nat).contains(
                            #[trigger] adj[p as int][l][i],
                        ),
            {
                let ids = self.neighbors(p as u32, above + 1);
                assert(ids@ == adj[p as int][above + 1]);
                if !self.check_list(ids, above + 1) {
                    return false;
                }
            }
        }
        true
    }

    /// Whether the graph can be searched over `n` points: what a graph read back from
    /// storage must pass before it is used.
    pub fn check(&self, n: usize) -> (ok: bool)
        ensures
            ok == self.searchable(n as nat),
    {
        if self.levels.len() != n || n > u32::MAX as usize || !self.check_layout() {
            return false;
        }
        if !self.check_links() {
            return false;
        }
        match self.entry {
            Some(e) => (e as usize) < n && self.upper_count(e as usize) == self.max_level,
            None => n == 0,
        }
    }

    /// The number of points in the graph.
    pub fn len(&self) -> (n: usize)
        ensures
            n == self.adjacency().len(),
    {
        self.levels.len()
    }
}

impl Graph for GraphLayers {
    open spec fn graph_ok(&self) -> bool {
        let n = self.levels@.len();
        &&& self.l0_offsets@.len() == n + 1
        &&& self.upper_index@.len() == n
        &&& self.l0_offsets@[0] == 0
        &&& self.l0_offsets@[n as int] == self.l0_links@.len()
        &&& forall|p: int, r: int|
            0 <= p <= r <= n ==> (#[trigger] self.l0_offsets@[p]) <= (#[trigger] self.l0_offsets@[r])
        &&& forall|p: int|
            0 <= p < n ==> (#[trigger] self.upper_index@[p]) == NO_SLOT || self.upper_index@[p]
                < self.upper@.len()
    }

    open spec fn adjacency(&self) -> Adjacency {
        Seq::new(self.levels@.len(), |p: int| self.lists(p))
    }

    fn neighbors(&self, point: u32, layer: usize) -> (ids: &[u32]) {
        let p: usize = point as usize;
        if layer == 0 {
            let slots: usize = self.l0_offsets.len();
            let total: usize = self.l0_links.len();
            assert(p + 1 < slots);
            assert(self.l0_offsets@[p as int] <= self.l0_offsets@[p + 1]);
            assert(self.l0_offsets@[p + 1] <= self.l0_offsets@[self.levels@.len() as int]);
            assert(self.l0_offsets@[p + 1] <= total);
            let start: usize = self.l0_offsets[p] as usize;
            let end: usize = self.l0_offsets[p + 1] as usize;
            slice_subrange(self.l0_links.as_slice(), start, end)
        } else {
            let slot: u32 = self.upper_index[p];
            if slot == NO_SLOT {
                no_ids()
            } else {
                let lists = &self.upper[slot as usize];
                if layer - 1 < lists.len() {
                    lists[layer - 1].as_slice()
                } else {
                    no_ids()
                }
            }
        }
    }
}

/// Copies all lists but the first.
fn copy_upper(layers: &Vec<Vec<u32>>) -> (upper: Vec<Vec<u32>>)
    requires
        layers@.len() >= 1,
    ensures
        builder::layers_of(upper@) == builder::layers_of(layers@).skip(1),
{
    let mut upper: Vec<Vec<u32>> = Vec::new();
    let mut l: usize = 1;
    while l < layers.len()
        invariant
            1 <= l <= layers@.len(),
            upper@.len() == l - 1,
            forall|i: int| 0 <= i < l - 1 ==> (#[trigger] upper@[i])@ == layers@[i + 1]@,
        decreases layers@.len() - l,
    {
        upper.push(vector::copy_slice(layers[l].as_slice()));
        l = l + 1;
    }
    assert(builder::layers_of(upper@) =~= builder::layers_of(layers@).skip(1));
    upper
}

/// Flattens adjacency lists into the sealed layout: every point keeps its lists.
pub fn seal(
    levels: Vec<u8>,
    links: Vec<Vec<Vec<u32>>>,
    entry: Option<u32>,
    max_level: usize,
) -> (sealed: GraphLayers)
    requires
        levels@.len() == links@.len(),
        links@.len() <= u32::MAX,
        forall|p: int| 0 <= p < links@.len() ==> (#[trigger] links@[p])@.len() >= 1,
    ensures
        sealed.graph_ok(),
        sealed.adjacency() == builder::lists_of(links@),
        sealed.levels@ == levels@,
        sealed.entry == entry,
        sealed.max_level == max_level,
{
    let n: usize = links.len();
    let ghost adj = builder::lists_of(links@);
    let mut l0_offsets: Vec<u64> = Vec::new();
    let mut l0_links: Vec<u32> = Vec::new();
    let mut upper: Vec<Vec<Vec<u32>>> = Vec::new();
    let mut upper_index: Vec<u32> = Vec::new();
    l0_offsets.push(0);
    for p in 0..n
        invariant
            n == links@.len(),
            n <= u32::MAX,
            adj == builder::lists_of(links@),
            forall|p: int| 0 <= p < links@.len() ==> (#[trigger] links@[p])@.len() >= 1,
            l0_offsets@.len() == p + 1,
            upper_index@.len() == p,
            upper@.len() <= p,
            l0_offsets@[0] == 0,
            l0_offsets@[p as int] == l0_links@.len(),
            forall|i: int, j: int|
                0 <= i <= j <= p ==> (#[trigger] l0_offsets@[i]) <= (#[trigger] l0_offsets@[j]),
            forall|i: int|
                0 <= i < p ==> (#[trigger] upper_index@[i]) == NO_SLOT || upper_index@[i]
                    < upper@.len(),
            forall|i: int|
                0 <= i < p ==> #[trigger] ground_list(l0_offsets@, l0_links@, i) == adj[i][0],
            forall|i: int|
                0 <= i < p ==> upper_lists(upper@, #[trigger] upper_index@[i]) == adj[i].skip(1),
    {
        let ghost offsets0 = l0_offsets@;
        let ghost links0 = l0_links@;
        let ghost upper0 = upper@;
        let point_links = &links[p];
        vector::append_slice(&mut l0_links, point_links[0].as_slice());
        l0_offsets.push(l0_links.len() as u64);
        proof {
            assert(adj[p as int][0] == links@[p as int]@[0]@);
            assert forall|i: int| 0 <= i < p + 1 implies #[trigger] ground_list(
                l0_offsets@,
                l0_links@,
                i,
            ) == adj[i][0] by {
                if i < p {
                    assert(ground_list(offsets0, links0, i) == adj[i][0]);
                    assert(offsets0[i + 1] <= offsets0[p as int]);
                    assert(l0_offsets@[i] == offsets0[i]);
                    assert(l0_offsets@[i + 1] == offsets0[i + 1]);
                    assert(ground_list(l0_offsets@, l0_links@, i) =~= ground_list(
                        offsets0,
                        links0,
                        i,
                    ));
                } else {
                    assert(ground_list(l0_offsets@, l0_links@, i) =~= adj[i][0]);
                }
            }
        }
        if point_links.len() > 1 {
            let rest = copy_upper(point_links);
            upper_index.push(upper.len() as u32);
            upper.push(rest);
        } else {
            upper_index.push(NO_SLOT);
            assert(adj[p as int].skip(1) =~= Seq::<Seq<u32>>::empty());
        }
        proof {
            assert(adj[p as int] == builder::layers_of(links@[p as int]@));
            assert forall|i: int| 0 <= i < p + 1 implies upper_lists(upper@, #[trigger] upper_index@[i])
                == adj[i].skip(1) by {
                if i < p {
                    assert(upper_lists(upper0, upper_index@[i]) == adj[i].skip(1));
                }
            }
        }
    }
    let sealed = GraphLayers {
        entry,
        max_level,
        levels,
        l0_offsets,
        l0_links,
        upper,
        upper_index,
    };
    proof {
        assert forall|p: int| 0 <= p < n implies sealed.lists(p) == adj[p] by {
            assert(ground_list(l0_offsets@, l0_links@, p) == adj[p][0]);
            assert(upper_lists(upper@, upper_index@[p]) == adj[p].skip(1));
            assert(adj[p].len() >= 1) by {
                assert(links@[p]@.len() >= 1);
            }
            assert(sealed.lists(p) =~= adj[p]);
        }
        assert(sealed.adjacency() =~= adj);
    }
    sealed
}

} // verus!
