//! HNSW graph construction.
//!
//! [`GraphLayersBuilder`] inserts points one at a time, holding mutable per-point,
//! per-layer adjacency lists. Insertion is **sequential and deterministic**: levels come
//! from a pure function and every candidate set is ranked before use, so a given
//! `(vectors, seed, config)` always yields the identical graph.
//!
//! Sealing flattens the adjacency into the read-optimized [`GraphLayers`].

use std::sync::Arc;

use vstd::prelude::*;

use crate::distance;
use crate::distance::Kernel;
use crate::index::hnsw::config::HnswConfig;
use crate::index::hnsw::construction;
use crate::index::hnsw::construction::GraphState;
use crate::index::hnsw::graph;
use crate::index::hnsw::graph::GraphLayers;
use crate::index::hnsw::heuristic;
use crate::index::hnsw::heuristic::PairDistance;
use crate::index::hnsw::heuristic::RowPairs;
use crate::index::hnsw::rng;
use crate::index::hnsw::search;
use crate::index::hnsw::search::Adjacency;
use crate::index::hnsw::search::Distance;
use crate::index::hnsw::search::Graph;
use crate::index::hnsw::search::KeepAll;
use crate::index::hnsw::visited::VisitedList;
use crate::ordered::OrderedF32;
use crate::ranking::Ranked;
use crate::vector::VectorStorage;

verus! {

/// Adjacency lists as mathematical sequences.
pub open spec fn lists_of(links: Seq<Vec<Vec<u32>>>) -> Adjacency {
    Seq::new(links.len(), |p: int| layers_of(links[p]@))
}

/// One point's lists as mathematical sequences.
pub open spec fn layers_of(layers: Seq<Vec<u32>>) -> Seq<Seq<u32>> {
    Seq::new(layers.len(), |l: int| layers[l]@)
}

/// `count` empty lists.
pub open spec fn empty_lists(count: nat) -> Seq<Seq<u32>> {
    Seq::new(count, |l: int| Seq::<u32>::empty())
}

/// The graph before any insertion: every point with empty lists up to its level.
pub open spec fn unlinked<K: Kernel>(kernel: K, config: HnswConfig, n: nat) -> Adjacency {
    Seq::new(
        n,
        |p: int| empty_lists(rng::level_of(kernel, p as u32, config.seed, config.m as nat) + 1),
    )
}

/// The badness of each row as seen from one of them.
pub struct FromRow<'a, K: Kernel> {
    /// The rows and the kernel.
    pub pairs: RowPairs<'a, K>,
    /// The row measured from.
    pub point: u32,
}

impl<'a, K: Kernel> Distance for FromRow<'a, K> {
    open spec fn badness_fn(&self) -> spec_fn(u32) -> OrderedF32 {
        construction::distances_from(self.pairs.pair_fn(), self.point)
    }

    open spec fn measures(&self, id: u32) -> bool {
        self.pairs.covers(self.point) && self.pairs.covers(id)
    }

    fn badness(&self, id: u32) -> (b: OrderedF32) {
        self.pairs.between(self.point, id)
    }
}

/// Builds `count` empty lists.
pub fn make_empty_lists(count: usize) -> (lists: Vec<Vec<u32>>)
    ensures
        layers_of(lists@) == empty_lists(count as nat),
        lists@.len() == count,
{
    let mut lists: Vec<Vec<u32>> = Vec::with_capacity(count);
    for l in 0..count
        invariant
            lists@.len() == l,
            forall|i: int| 0 <= i < l ==> (#[trigger] lists@[i])@ == Seq::<u32>::empty(),
    {
        lists.push(Vec::new());
    }
    assert(layers_of(lists@) =~= empty_lists(count as nat));
    lists
}

/// The ids of ranked entries.
pub fn take_ids(found: &Vec<Ranked>) -> (ids: Vec<u32>)
    requires
        forall|i: int| 0 <= i < found@.len() ==> (#[trigger] found@[i]).id <= u32::MAX,
    ensures
        ids@ == construction::ids_of(found@),
{
    let mut ids: Vec<u32> = Vec::with_capacity(found.len());
    for i in 0..found.len()
        invariant
            forall|i: int| 0 <= i < found@.len() ==> (#[trigger] found@[i]).id <= u32::MAX,
            ids@ == construction::ids_of(found@).take(i as int),
    {
        ids.push(found[i].id as u32);
        assert(ids@ =~= construction::ids_of(found@).take(i + 1));
    }
    assert(ids@ =~= construction::ids_of(found@));
    ids
}

/// Replaces one list.
pub fn set_list(links: &mut Vec<Vec<Vec<u32>>>, point: u32, layer: usize, list: Vec<u32>)
    requires
        point < old(links)@.len(),
        layer < old(links)@[point as int]@.len(),
    ensures
        lists_of(final(links)@) == construction::with_list(
            lists_of(old(links)@),
            point,
            layer as nat,
            list@,
        ),
{
    let ghost before = lists_of(links@);
    let ghost rows = links@;
    let p: usize = point as usize;
    let layers = &mut links[p];
    layers[layer] = list;
    proof {
        let next = construction::with_list(before, point, layer as nat, list@);
        assert(lists_of(links@).len() == next.len());
        assert forall|i: int| 0 <= i < next.len() implies lists_of(links@)[i] == next[i] by {
            assert(lists_of(links@)[i] =~= next[i]);
        }
        assert(lists_of(links@) =~= next);
    }
}

/// Builds an HNSW graph by sequential insertion.
pub struct GraphLayersBuilder<K: Kernel> {
    /// The vectors.
    pub vectors: Arc<VectorStorage<K>>,
    /// The kernel.
    pub kernel: K,
    /// The parameters.
    pub config: HnswConfig,
    /// Assigned level per point.
    pub levels: Vec<u8>,
    /// `links[point][layer]`: neighbor ids, for each layer up to the point's level.
    pub links: Vec<Vec<Vec<u32>>>,
    /// The entry point.
    pub entry: Option<u32>,
    /// The level of the entry point.
    pub max_level: usize,
}

impl<K: Kernel> Graph for GraphLayersBuilder<K> {
    open spec fn graph_ok(&self) -> bool {
        true
    }

    open spec fn adjacency(&self) -> Adjacency {
        lists_of(self.links@)
    }

    fn neighbors(&self, point: u32, layer: usize) -> (ids: &[u32]) {
        let layers = &self.links[point as usize];
        if layer < layers.len() {
            layers[layer].as_slice()
        } else {
            graph::no_ids()
        }
    }
}

impl<K: Kernel> GraphLayersBuilder<K> {
    /// The badness between any two rows.
    pub open spec fn pairs(&self) -> spec_fn(u32, u32) -> OrderedF32 {
        heuristic::row_pairs(self.kernel, self.vectors.rows())
    }

    /// The graph built so far.
    pub open spec fn state(&self) -> GraphState {
        GraphState { adj: self.adjacency(), entry: self.entry, top: self.max_level as nat }
    }

    /// The graph is well linked over the stored vectors.
    pub open spec fn wf(&self) -> bool {
        &&& self.vectors.wf()
        &&& self.kernel.spec_dim() == self.vectors.kernel.spec_dim()
        &&& self.links@.len() == self.vectors.rows().len()
        &&& self.levels@.len() == self.links@.len()
        &&& forall|p: int|
            0 <= p < self.links@.len() ==> (#[trigger] self.links@[p])@.len() == self.levels@[p] + 1
        &&& construction::well_linked(self.config, self.adjacency())
        &&& construction::entry_ok(self.state())
        &&& self.max_level <= u8::MAX
    }

    /// Creates a builder over `vectors`, pre-assigning every point's level.
    pub fn new(vectors: Arc<VectorStorage<K>>, kernel: K, config: HnswConfig) -> (builder:
        GraphLayersBuilder<K>)
        requires
            vectors.wf(),
            kernel.spec_dim() == vectors.kernel.spec_dim(),
        ensures
            builder.wf(),
            builder.vectors == vectors,
            builder.kernel == kernel,
            builder.config == config,
            builder.state() == (GraphState {
                adj: unlinked(kernel, config, vectors.rows().len()),
                entry: None,
                top: 0,
            }),
            forall|p: int|
                0 <= p < builder.levels@.len() ==> (#[trigger] builder.levels@[p]) == rng::level_of(
                    kernel,
                    p as u32,
                    config.seed,
                    config.m as nat,
                ),
    {
        let n: usize = vectors.len();
        let mut levels: Vec<u8> = Vec::with_capacity(n);
        let mut links: Vec<Vec<Vec<u32>>> = Vec::with_capacity(n);
        for i in 0..n
            invariant
                n <= u32::MAX,
                levels@.len() == i,
                links@.len() == i,
                forall|p: int|
                    0 <= p < i ==> {
                        &&& (#[trigger] levels@[p]) == rng::level_of(
                            kernel,
                            p as u32,
                            config.seed,
                            config.m as nat,
                        )
                        &&& levels@[p] <= rng::MAX_LEVEL
                    },
                forall|p: int|
                    0 <= p < i ==> layers_of((#[trigger] links@[p])@) == empty_lists(
                        levels@[p] as nat + 1,
                    ) && links@[p]@.len() == levels@[p] + 1,
        {
            let level: usize = rng::level_for(&kernel, i as u32, config.seed, config.m);
            levels.push(level as u8);
            links.push(make_empty_lists(level + 1));
        }
        let builder = GraphLayersBuilder {
            vectors,
            kernel,
            config,
            levels,
            links,
            entry: None,
            max_level: 0,
        };
        proof {
            let adj = builder.adjacency();
            assert forall|p: int| 0 <= p < n implies (#[trigger] adj[p]) == empty_lists(
                levels@[p] as nat + 1,
            ) by {
                assert(layers_of(links@[p]@) == empty_lists(levels@[p] as nat + 1));
            }
            assert(adj =~= unlinked(kernel, config, n as nat)) by {
                assert forall|p: int| 0 <= p < n implies adj[p] == unlinked(
                    kernel,
                    config,
                    n as nat,
                )[p] by {
                    assert(levels@[p] == rng::level_of(
                        kernel,
                        p as u32,
                        config.seed,
                        config.m as nat,
                    ));
                }
            }
            assert(construction::well_linked(config, adj));
        }
        builder
    }

    /// The degree bound of a layer.
    pub fn max_conn(&self, layer: usize) -> (bound: usize)
        ensures
            bound == self.config.degree_bound(layer as nat),
    {
        self.config.max_conn(layer)
    }

    /// Links `point` into `neighbor`'s list on `layer`, re-selecting the list if it
    /// outgrows its bound.
    fn link_back(&mut self, neighbor: u32, layer: usize, point: u32)
        requires
            old(self).wf(),
            construction::present_on(old(self).adjacency(), layer as nat).contains(neighbor),
            construction::present_on(old(self).adjacency(), layer as nat).contains(point),
        ensures
            final(self).adjacency() == construction::with_list(
                old(self).adjacency(),
                neighbor,
                layer as nat,
                construction::linked_back(
                    old(self).pairs(),
                    old(self).config,
                    old(self).adjacency()[neighbor as int][layer as int],
                    neighbor,
                    layer as nat,
                    point,
                ),
            ),
            final(self).wf(),
            final(self).vectors == old(self).vectors,
            final(self).kernel == old(self).kernel,
            final(self).config == old(self).config,
            final(self).levels == old(self).levels,
            final(self).entry == old(self).entry,
            final(self).max_level == old(self).max_level,
            construction::same_shape(old(self).adjacency(), final(self).adjacency()),
    {
        let ghost adj = self.adjacency();
        let ghost region = construction::present_on(adj, layer as nat);
        let ghost list = adj[neighbor as int][layer as int];
        proof {
            assert forall|i: int| 0 <= i < list.len() implies region.contains(#[trigger] list[i]) by {
                assert(region.contains(adj[neighbor as int][layer as int][i]));
            }
            construction::lemma_linked_back(
                self.pairs(),
                self.config,
                list,
                neighbor,
                layer as nat,
                point,
                region,
            );
            construction::lemma_with_list(
                self.config,
                adj,
                neighbor,
                layer as nat,
                construction::linked_back(
                    self.pairs(),
                    self.config,
                    list,
                    neighbor,
                    layer as nat,
                    point,
                ),
            );
        }
        let bound: usize = self.max_conn(layer);
        let mut longer: Vec<u32> = crate::vector::copy_slice(
            self.links[neighbor as usize][layer].as_slice(),
        );
        longer.push(point);
        let next: Vec<u32> = if longer.len() > bound {
            let pairs = RowPairs { vectors: &self.vectors, kernel: self.kernel };
            proof {
                assert forall|i: int| 0 <= i < longer@.len() implies pairs.covers(
                    #[trigger] longer@[i],
                ) by {
                    if i < list.len() {
                        assert(longer@[i] == list[i]);
                        assert(region.contains(list[i]));
                    }
                }
            }
            let candidates = heuristic::candidates_to(&pairs, neighbor, longer.as_slice());
            proof {
                assert forall|i: int| 0 <= i < candidates@.len() implies (#[trigger] candidates@[i]).id
                    <= u32::MAX && pairs.covers(candidates@[i].id as u32) by {
                    assert(candidates@[i].id == longer@[i]);
                }
            }
            heuristic::select_neighbors(
                &pairs,
                neighbor,
                &candidates,
                bound,
                self.config.keep_pruned,
            )
        } else {
            longer
        };
        set_list(&mut self.links, neighbor, layer, next);
        proof {
            let after = self.adjacency();
            assert forall|p: int| 0 <= p < self.links@.len() implies (#[trigger] self.links@[p])@.len()
                == self.levels@[p] + 1 by {
                assert(after[p].len() == adj[p].len());
                assert(old(self).links@[p]@.len() == self.levels@[p] + 1);
            }
        }
    }

    /// Wires `point` up on one layer, given what the search there found.
    fn wire(&mut self, point: u32, layer: usize, found: &Vec<Ranked>)
        requires
            old(self).wf(),
            construction::present_on(old(self).adjacency(), layer as nat).contains(point),
            forall|i: int|
                0 <= i < found@.len() ==> (#[trigger] found@[i]).id <= u32::MAX
                    && construction::present_on(old(self).adjacency(), layer as nat).contains(
                    found@[i].id as u32,
                ),
        ensures
            final(self).wf(),
            final(self).adjacency() == construction::wire(
                old(self).pairs(),
                old(self).config,
                old(self).adjacency(),
                point,
                layer as nat,
                found@,
            ),
            construction::same_shape(old(self).adjacency(), final(self).adjacency()),
            final(self).vectors == old(self).vectors,
            final(self).kernel == old(self).kernel,
            final(self).config == old(self).config,
            final(self).levels == old(self).levels,
            final(self).entry == old(self).entry,
            final(self).max_level == old(self).max_level,
    {
        let ghost adj = self.adjacency();
        let ghost region = construction::present_on(adj, layer as nat);
        let bound: usize = self.max_conn(layer);
        let pairs = RowPairs { vectors: &self.vectors, kernel: self.kernel };
        let selected = heuristic::select_neighbors(
            &pairs,
            point,
            found,
            bound,
            self.config.keep_pruned,
        );
        proof {
            construction::lemma_wire(self.pairs(), self.config, adj, point, layer as nat, found@);
            construction::lemma_selected(
                self.pairs(),
                self.config,
                point,
                layer as nat,
                found@,
                region,
            );
            construction::lemma_with_list(self.config, adj, point, layer as nat, selected@);
        }
        set_list(
            &mut self.links,
            point,
            layer,
            crate::vector::copy_slice(selected.as_slice()),
        );
        let ghost own = self.adjacency();
        proof {
            assert forall|p: int| 0 <= p < self.links@.len() implies (#[trigger] self.links@[p])@.len()
                == self.levels@[p] + 1 by {
                assert(own[p].len() == adj[p].len());
                assert(old(self).links@[p]@.len() == self.levels@[p] + 1);
            }
            assert(construction::present_on(own, layer as nat) =~= region);
            assert(construction::link_back_all(
                self.pairs(),
                self.config,
                own,
                layer as nat,
                point,
                selected@.take(0),
            ) == own);
        }
        for i in 0..selected.len()
            invariant
                self.wf(),
                self.vectors == old(self).vectors,
                self.kernel == old(self).kernel,
                self.config == old(self).config,
                self.levels == old(self).levels,
                self.entry == old(self).entry,
                self.max_level == old(self).max_level,
                construction::same_shape(own, self.adjacency()),
                region == construction::present_on(own, layer as nat),
                region.contains(point),
                forall|j: int|
                    0 <= j < selected@.len() ==> region.contains(#[trigger] selected@[j]),
                self.adjacency() == construction::link_back_all(
                    self.pairs(),
                    self.config,
                    own,
                    layer as nat,
                    point,
                    selected@.take(i as int),
                ),
        {
            proof {
                assert(selected@.take(i + 1).drop_last() =~= selected@.take(i as int));
                assert(construction::present_on(self.adjacency(), layer as nat) =~= region);
                assert(region.contains(selected@[i as int]));
            }
            self.link_back(selected[i], layer, point);
        }
        assert(selected@.take(selected@.len() as int) =~= selected@);
    }

    /// Inserts `point` into the graph.
    pub fn insert(&mut self, point: u32, visited: &mut VisitedList)
        requires
            old(self).wf(),
            point < old(self).vectors.rows().len(),
            old(visited).wf(),
            old(visited).capacity() >= old(self).vectors.rows().len(),
        ensures
            final(self).wf(),
            final(self).state() == construction::inserted(
                old(self).pairs(),
                old(self).config,
                old(self).state(),
                point,
            ),
            final(self).vectors == old(self).vectors,
            final(self).kernel == old(self).kernel,
            final(self).config == old(self).config,
            final(self).levels == old(self).levels,
            final(visited).wf(),
            final(visited).capacity() == old(visited).capacity(),
    {
        let ghost g = self.state();
        let ghost adj0 = self.adjacency();
        proof {
            construction::law_insert_keeps_well_linked(self.pairs(), self.config, g, point);
            assert(adj0[point as int].len() == self.links@[point as int]@.len());
        }
        let level: usize = self.levels[point as usize] as usize;
        let entry: u32 = match self.entry {
            None => {
                // First point: it becomes the entry.
                self.entry = Some(point);
                self.max_level = level;
                return ;
            },
            Some(e) => e,
        };
        let vectors = self.vectors.clone();
        let dist = FromRow { pairs: RowPairs { vectors: &vectors, kernel: self.kernel }, point };
        let start_level: usize = self.max_level;
        let ghost pairs = self.pairs();
        let ghost from = construction::distances_from(pairs, point);
        let ghost config = self.config;
        assert(dist.badness_fn() == from);

        // Phase 1: greedy descent from the top down to just above this point's level.
        let mut near: u32 = entry;
        let mut layer: usize = start_level;
        while layer > level
            invariant
                self.wf(),
                *self == *old(self),
                adj0 == self.adjacency(),
                config == self.config,
                vectors == self.vectors,
                dist.pairs.vectors == *vectors,
                dist.pairs.kernel == self.kernel,
                dist.point == point,
                dist.badness_fn() == from,
                point < self.vectors.rows().len(),
                visited.wf(),
                visited.capacity() == old(visited).capacity(),
                visited.capacity() >= self.vectors.rows().len(),
                layer >= level || layer == start_level,
                layer <= start_level,
                construction::present_on(adj0, layer as nat).contains(near),
                construction::descend(adj0, from, near, layer as nat, level as nat)
                    == construction::descend(adj0, from, entry, start_level as nat, level as nat),
            decreases layer,
        {
            proof {
                construction::lemma_layer_closed(adj0, layer as nat);
                construction::lemma_closest_on(adj0, layer as nat, from, near);
            }
            let entries: [u32; 1] = [near];
            assert(entries@ =~= seq![near]);
            let found = search::search_layer(self, layer, &entries, 1, &dist, &KeepAll, visited);
            proof {
                assert(found@ == search::layer_search(
                    search::LayerQuery {
                        adj: adj0,
                        layer: layer as nat,
                        ef: 1,
                        dist: from,
                        keeps: search::keeps_all(),
                    },
                    seq![near],
                ));
            }
            if found.len() > 0 {
                near = found[0].id as u32;
            }
            proof {
                construction::lemma_present_below(
                    adj0,
                    seq![near],
                    layer as nat,
                    (layer - 1) as nat,
                );
                assert(construction::present_on(adj0, (layer - 1) as nat).contains(seq![near][0]));
            }
            layer = layer - 1;
        }

        // Phase 2: from min(level, top) down to 0, find neighbors and wire up.
        let top: usize = if level <= start_level {
            level
        } else {
            start_level
        };
        let ghost target = construction::connect(
            pairs,
            config,
            adj0,
            point,
            top as nat,
            seq![near],
        );
        let mut entries: Vec<u32> = Vec::new();
        entries.push(near);
        assert(entries@ =~= seq![near]);
        let mut layer: usize = top;
        let mut done = false;
        proof {
            assert(construction::present_on(adj0, top as nat).contains(near));
        }
        while !done
            invariant
                self.wf(),
                self.vectors == old(self).vectors,
                self.kernel == old(self).kernel,
                self.config == old(self).config,
                self.levels == old(self).levels,
                self.entry == old(self).entry,
                self.max_level == old(self).max_level,
                self.max_level == start_level,
                pairs == self.pairs(),
                config == self.config,
                construction::same_shape(adj0, self.adjacency()),
                vectors == self.vectors,
                dist.pairs.vectors == *vectors,
                dist.pairs.kernel == self.kernel,
                dist.point == point,
                dist.badness_fn() == from,
                from == construction::distances_from(pairs, point),
                point < self.vectors.rows().len(),
                visited.wf(),
                visited.capacity() == old(visited).capacity(),
                visited.capacity() >= self.vectors.rows().len(),
                layer <= level,
                adj0[point as int].len() == level + 1,
                !done ==> forall|i: int|
                    0 <= i < entries@.len() ==> construction::present_on(
                        self.adjacency(),
                        layer as nat,
                    ).contains(#[trigger] entries@[i]),
                !done ==> construction::connect(
                    pairs,
                    config,
                    self.adjacency(),
                    point,
                    layer as nat,
                    entries@,
                ) == target,
                done ==> self.adjacency() == target,
            decreases layer + (if done { 0int } else { 1int }),
        {
            let ghost adj = self.adjacency();
            proof {
                construction::lemma_layer_closed(adj, layer as nat);
                construction::lemma_found_on(pairs, config, adj, point, layer as nat, entries@);
                assert(construction::present_on(adj, layer as nat).contains(point));
                assert forall|i: int| 0 <= i < entries@.len() implies (#[trigger] entries@[i])
                    < adj.len() by {
                    assert(construction::present_on(adj, layer as nat).contains(entries@[i]));
                }
            }
            let found = search::search_layer(
                self,
                layer,
                entries.as_slice(),
                self.config.ef_construction,
                &dist,
                &KeepAll,
                visited,
            );
            assert(found@ == construction::found_on(
                pairs,
                config,
                adj,
                point,
                layer as nat,
                entries@,
            ));
            self.wire(point, layer, &found);
            // The found set seeds the next (lower) layer's search.
            entries = take_ids(&found);
            if layer == 0 {
                done = true;
            } else {
                proof {
                    let wired = self.adjacency();
                    assert(construction::present_on(wired, layer as nat)
                        =~= construction::present_on(adj, layer as nat));
                    construction::lemma_present_below(
                        wired,
                        entries@,
                        layer as nat,
                        (layer - 1) as nat,
                    );
                }
                layer = layer - 1;
            }
        }

        // Raise the global entry point if this point reaches a new top layer.
        if level > self.max_level {
            self.max_level = level;
            self.entry = Some(point);
        }
    }

    /// Seals the mutable adjacency into the read-optimized [`GraphLayers`].
    pub fn into_graph_layers(self) -> (sealed: GraphLayers)
        requires
            self.wf(),
        ensures
            sealed.graph_ok(),
            sealed.adjacency() == self.adjacency(),
            sealed.levels@ == self.levels@,
            sealed.entry == self.entry,
            sealed.max_level == self.max_level,
    {
        graph::seal(self.levels, self.links, self.entry, self.max_level)
    }
}

} // verus!
