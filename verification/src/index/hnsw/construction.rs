//! What inserting a point into an HNSW graph does.
//!
//! The functions here say, over mathematical adjacency lists, which graph results from
//! an insertion: a greedy descent to the point's own level, then on each layer below a
//! beam search, a neighbor selection, and links in both directions with overflowing
//! neighbors re-selected. The laws say what every insertion keeps.

use vstd::prelude::*;

use crate::index::hnsw::config::HnswConfig;
use crate::index::hnsw::heuristic;
use crate::index::hnsw::search;
use crate::index::hnsw::search::Adjacency;
use crate::index::hnsw::search::LayerQuery;
use crate::ordered::OrderedF32;
use crate::ranking::Ranked;

verus! {

/// A graph under construction.
pub ghost struct GraphState {
    /// Neighbor ids by point and layer; a point's number of lists is its level plus one.
    pub adj: Adjacency,
    /// The point at which every search starts.
    pub entry: Option<u32>,
    /// The level of the entry point.
    pub top: nat,
}

/// The badness of each point as seen from `point`.
pub open spec fn distances_from(
    pairs: spec_fn(u32, u32) -> OrderedF32,
    point: u32,
) -> spec_fn(u32) -> OrderedF32 {
    |id: u32| pairs(point, id)
}

/// The closest point found by a width-one search from `from`, or `from` itself.
pub open spec fn closest_on(
    adj: Adjacency,
    layer: nat,
    dist: spec_fn(u32) -> OrderedF32,
    from: u32,
) -> u32 {
    let found = search::layer_search(
        LayerQuery { adj, layer, ef: 1, dist, keeps: search::keeps_all() },
        seq![from],
    );
    if found.len() > 0 {
        found[0].id as u32
    } else {
        from
    }
}

/// Greedy descent from layer `layer` down to just above layer `stop`.
pub open spec fn descend(
    adj: Adjacency,
    dist: spec_fn(u32) -> OrderedF32,
    from: u32,
    layer: nat,
    stop: nat,
) -> u32
    decreases layer,
{
    if layer <= stop {
        from
    } else {
        descend(adj, dist, closest_on(adj, layer, dist, from), (layer - 1) as nat, stop)
    }
}

/// The graph with one list replaced.
pub open spec fn with_list(adj: Adjacency, point: u32, layer: nat, list: Seq<u32>) -> Adjacency {
    adj.update(point as int, adj[point as int].update(layer as int, list))
}

/// The list of a neighbor once it links back to `point`: re-selected if it overflows.
pub open spec fn linked_back(
    pairs: spec_fn(u32, u32) -> OrderedF32,
    config: HnswConfig,
    list: Seq<u32>,
    neighbor: u32,
    layer: nat,
    point: u32,
) -> Seq<u32> {
    let longer = list.push(point);
    let bound = config.degree_bound(layer);
    if longer.len() > bound {
        heuristic::selection(
            pairs,
            neighbor,
            heuristic::ranked_to(pairs, neighbor, longer),
            bound,
            config.keep_pruned,
        )
    } else {
        longer
    }
}

/// Links each of the selected neighbors back to `point`.
pub open spec fn link_back_all(
    pairs: spec_fn(u32, u32) -> OrderedF32,
    config: HnswConfig,
    adj: Adjacency,
    layer: nat,
    point: u32,
    selected: Seq<u32>,
) -> Adjacency
    decreases selected.len(),
{
    if selected.len() == 0 {
        adj
    } else {
        let before = link_back_all(pairs, config, adj, layer, point, selected.drop_last());
        let neighbor = selected.last();
        with_list(
            before,
            neighbor,
            layer,
            linked_back(
                pairs,
                config,
                before[neighbor as int][layer as int],
                neighbor,
                layer,
                point,
            ),
        )
    }
}

/// The ids of ranked entries, in order.
pub open spec fn ids_of(found: Seq<Ranked>) -> Seq<u32> {
    Seq::new(found.len(), |i: int| found[i].id as u32)
}

/// What a construction search on a layer finds.
pub open spec fn found_on(
    pairs: spec_fn(u32, u32) -> OrderedF32,
    config: HnswConfig,
    adj: Adjacency,
    point: u32,
    layer: nat,
    entries: Seq<u32>,
) -> Seq<Ranked> {
    search::layer_search(
        LayerQuery {
            adj,
            layer,
            ef: config.ef_construction as nat,
            dist: distances_from(pairs, point),
            keeps: search::keeps_all(),
        },
        entries,
    )
}

/// Wires `point` up on one layer, given what the search there found.
pub open spec fn wire(
    pairs: spec_fn(u32, u32) -> OrderedF32,
    config: HnswConfig,
    adj: Adjacency,
    point: u32,
    layer: nat,
    found: Seq<Ranked>,
) -> Adjacency {
    let selected = heuristic::selection(
        pairs,
        point,
        found,
        config.degree_bound(layer),
        config.keep_pruned,
    );
    link_back_all(pairs, config, with_list(adj, point, layer, selected), layer, point, selected)
}

/// Wires `point` up on `layer` and every layer below.
pub open spec fn connect(
    pairs: spec_fn(u32, u32) -> OrderedF32,
    config: HnswConfig,
    adj: Adjacency,
    point: u32,
    layer: nat,
    entries: Seq<u32>,
) -> Adjacency
    decreases layer,
{
    let found = found_on(pairs, config, adj, point, layer, entries);
    let wired = wire(pairs, config, adj, point, layer, found);
    if layer == 0 {
        wired
    } else {
        connect(pairs, config, wired, point, (layer - 1) as nat, ids_of(found))
    }
}

/// The level of a point.
pub open spec fn level_in(adj: Adjacency, point: u32) -> nat {
    (adj[point as int].len() - 1) as nat
}

/// The graph with `point` inserted.
pub open spec fn inserted(
    pairs: spec_fn(u32, u32) -> OrderedF32,
    config: HnswConfig,
    g: GraphState,
    point: u32,
) -> GraphState {
    let level = level_in(g.adj, point);
    match g.entry {
        None => GraphState { adj: g.adj, entry: Some(point), top: level },
        Some(entry) => {
            let near = descend(g.adj, distances_from(pairs, point), entry, g.top, level);
            let start = if level <= g.top {
                level
            } else {
                g.top
            };
            let adj = connect(pairs, config, g.adj, point, start, seq![near]);
            if level > g.top {
                GraphState { adj, entry: Some(point), top: level }
            } else {
                GraphState { adj, entry: g.entry, top: g.top }
            }
        },
    }
}

/// The graph with the points `0..n` inserted in order.
pub open spec fn built(
    pairs: spec_fn(u32, u32) -> OrderedF32,
    config: HnswConfig,
    g: GraphState,
    n: nat,
) -> GraphState
    decreases n,
{
    if n == 0 {
        g
    } else {
        inserted(pairs, config, built(pairs, config, g, (n - 1) as nat), (n - 1) as u32)
    }
}

/// The points that are present on a layer.
pub open spec fn present_on(adj: Adjacency, layer: nat) -> Set<u32> {
    Set::new(|p: u32| p < adj.len() && layer < adj[p as int].len())
}

/// Every point is on layer 0, and every list names points present on its layer.
pub open spec fn linked(adj: Adjacency) -> bool {
    &&& adj.len() <= u32::MAX
    &&& forall|p: int| 0 <= p < adj.len() ==> (#[trigger] adj[p]).len() >= 1
    &&& forall|p: int, l: int, i: int|
        0 <= p < adj.len() && 0 <= l < adj[p].len() && 0 <= i < adj[p][l].len() ==> present_on(
            adj,
            l as nat,
        ).contains(#[trigger] adj[p][l][i])
}

/// Every list is within its layer's degree bound.
pub open spec fn within_bounds(config: HnswConfig, adj: Adjacency) -> bool {
    forall|p: int, l: int|
        0 <= p < adj.len() && 0 <= l < adj[p].len() ==> (#[trigger] adj[p][l]).len()
            <= config.degree_bound(l as nat)
}

/// Every list is within its layer's degree bound and names points present on the layer.
pub open spec fn well_linked(config: HnswConfig, adj: Adjacency) -> bool {
    linked(adj) && within_bounds(config, adj)
}

/// The entry point exists and sits at the top level.
pub open spec fn entry_ok(g: GraphState) -> bool {
    match g.entry {
        Some(e) => e < g.adj.len() && g.adj[e as int].len() == g.top + 1,
        None => true,
    }
}

/// The same points on the same layers.
pub open spec fn same_shape(a: Adjacency, b: Adjacency) -> bool {
    a.len() == b.len() && forall|p: int| 0 <= p < a.len() ==> (#[trigger] a[p]).len() == b[p].len()
}

/// In a linked graph a search never leaves the points of its layer.
pub proof fn lemma_layer_closed(adj: Adjacency, layer: nat)
    requires
        linked(adj),
    ensures
        search::closed_under(adj, layer, present_on(adj, layer)),
        search::closed_under(adj, layer, search::ids_below(adj.len())),
{
    assert forall|p: u32, i: int| 0 <= i < search::neighbors_of(adj, p, layer).len() implies present_on(
        adj,
        layer,
    ).contains(#[trigger] search::neighbors_of(adj, p, layer)[i]) by {
        assert(present_on(adj, layer).contains(adj[p as int][layer as int][i]));
    }
    assert forall|p: u32, i: int|
        search::ids_below(adj.len()).contains(p) && 0 <= i < search::neighbors_of(
            adj,
            p,
            layer,
        ).len() implies search::ids_below(adj.len()).contains(
        #[trigger] search::neighbors_of(adj, p, layer)[i],
    ) by {
        assert(present_on(adj, layer).contains(search::neighbors_of(adj, p, layer)[i]));
    }
}

/// Replacing a list by one that fits its layer keeps the graph well linked.
pub proof fn lemma_with_list(
    config: HnswConfig,
    adj: Adjacency,
    point: u32,
    layer: nat,
    list: Seq<u32>,
)
    requires
        well_linked(config, adj),
        present_on(adj, layer).contains(point),
        list.len() <= config.degree_bound(layer),
        forall|i: int| 0 <= i < list.len() ==> present_on(adj, layer).contains(#[trigger] list[i]),
    ensures
        well_linked(config, with_list(adj, point, layer, list)),
        same_shape(adj, with_list(adj, point, layer, list)),
{
    let next = with_list(adj, point, layer, list);
    assert(same_shape(adj, next));
    assert forall|l: nat| #[trigger] present_on(next, l) == present_on(adj, l) by {
        assert(present_on(next, l) =~= present_on(adj, l));
    }
    assert forall|p: int, l: int| 0 <= p < next.len() && 0 <= l < next[p].len() implies (
    #[trigger] next[p][l]).len() <= config.degree_bound(l as nat) by {
        if p == point && l == layer {
        } else {
            assert(next[p][l] == adj[p][l]);
        }
    }
    assert forall|p: int, l: int, i: int|
        0 <= p < next.len() && 0 <= l < next[p].len() && 0 <= i < next[p][l].len() implies present_on(
        next,
        l as nat,
    ).contains(#[trigger] next[p][l][i]) by {
        if p == point && l == layer {
            assert(next[p][l] == list);
        } else {
            assert(next[p][l] == adj[p][l]);
            assert(present_on(adj, l as nat).contains(adj[p][l][i]));
        }
    }
}

/// A back-linked list fits its layer.
pub proof fn lemma_linked_back(
    pairs: spec_fn(u32, u32) -> OrderedF32,
    config: HnswConfig,
    list: Seq<u32>,
    neighbor: u32,
    layer: nat,
    point: u32,
    region: Set<u32>,
)
    requires
        region.contains(point),
        forall|i: int| 0 <= i < list.len() ==> region.contains(#[trigger] list[i]),
    ensures
        ({
            let next = linked_back(pairs, config, list, neighbor, layer, point);
            &&& next.len() <= config.degree_bound(layer)
            &&& forall|i: int| 0 <= i < next.len() ==> region.contains(#[trigger] next[i])
            &&& forall|i: int| 0 <= i < next.len() ==> list.contains(#[trigger] next[i]) || next[i]
                == point
            &&& list.no_duplicates() && !list.contains(point) ==> next.no_duplicates()
            &&& !list.contains(neighbor) && neighbor != point ==> !next.contains(neighbor)
        }),
{
    let longer = list.push(point);
    let next = linked_back(pairs, config, list, neighbor, layer, point);
    let bound = config.degree_bound(layer);
    assert forall|i: int| 0 <= i < longer.len() implies region.contains(#[trigger] longer[i]) && (
    list.contains(longer[i]) || longer[i] == point) by {
        if i < list.len() {
            assert(longer[i] == list[i]);
        }
    }
    if longer.len() > bound {
        let cand = heuristic::ranked_to(pairs, neighbor, longer);
        heuristic::law_selection(pairs, neighbor, cand, bound, config.keep_pruned);
        assert forall|i: int| 0 <= i < next.len() implies region.contains(#[trigger] next[i]) && (
        list.contains(next[i]) || next[i] == point) by {
            assert(heuristic::has_id(cand, next[i]));
            let k = choose|k: int| 0 <= k < cand.len() && (#[trigger] cand[k]).id == next[i];
            assert(longer[k] == next[i]);
        }
        if list.no_duplicates() && !list.contains(point) {
            assert(heuristic::distinct_ids(cand)) by {
                assert forall|i: int, j: int| 0 <= i < j < cand.len() implies (#[trigger] cand[i]).id
                    != (#[trigger] cand[j]).id by {
                    assert(longer[i] == list[i]);
                    if j < list.len() {
                        assert(longer[j] == list[j]);
                    } else {
                        assert(list.contains(list[i]));
                    }
                }
            }
        }
    } else {
        if list.no_duplicates() && !list.contains(point) {
            assert forall|i: int, j: int|
                0 <= i < next.len() && 0 <= j < next.len() && i != j implies next[i] != next[j] by {
                if i < list.len() {
                    assert(list.contains(list[i]));
                }
                if j < list.len() {
                    assert(list.contains(list[j]));
                }
            }
        }
        if !list.contains(neighbor) && neighbor != point {
            assert forall|i: int| 0 <= i < next.len() implies next[i] != neighbor by {
                if i < list.len() {
                    assert(list.contains(list[i]));
                }
            }
        }
    }
}

/// Linking back keeps the graph well linked.
pub proof fn lemma_link_back_all(
    pairs: spec_fn(u32, u32) -> OrderedF32,
    config: HnswConfig,
    adj: Adjacency,
    layer: nat,
    point: u32,
    selected: Seq<u32>,
)
    requires
        well_linked(config, adj),
        present_on(adj, layer).contains(point),
        forall|i: int|
            0 <= i < selected.len() ==> present_on(adj, layer).contains(#[trigger] selected[i]),
    ensures
        well_linked(config, link_back_all(pairs, config, adj, layer, point, selected)),
        same_shape(adj, link_back_all(pairs, config, adj, layer, point, selected)),
    decreases selected.len(),
{
    if selected.len() > 0 {
        let shorter = selected.drop_last();
        assert forall|i: int| 0 <= i < shorter.len() implies present_on(adj, layer).contains(
            #[trigger] shorter[i],
        ) by {
            assert(shorter[i] == selected[i]);
        }
        lemma_link_back_all(pairs, config, adj, layer, point, shorter);
        let before = link_back_all(pairs, config, adj, layer, point, shorter);
        let neighbor = selected.last();
        assert(present_on(adj, layer).contains(selected[selected.len() - 1]));
        assert(present_on(before, layer) =~= present_on(adj, layer));
        let list = before[neighbor as int][layer as int];
        assert forall|i: int| 0 <= i < list.len() implies present_on(before, layer).contains(
            #[trigger] list[i],
        ) by {
            assert(present_on(before, layer).contains(before[neighbor as int][layer as int][i]));
        }
        lemma_linked_back(pairs, config, list, neighbor, layer, point, present_on(before, layer));
        lemma_with_list(
            config,
            before,
            neighbor,
            layer,
            linked_back(pairs, config, list, neighbor, layer, point),
        );
    }
}

/// What a construction search finds is present on the layer, and no point twice.
pub proof fn lemma_found_on(
    pairs: spec_fn(u32, u32) -> OrderedF32,
    config: HnswConfig,
    adj: Adjacency,
    point: u32,
    layer: nat,
    entries: Seq<u32>,
)
    requires
        well_linked(config, adj),
        forall|i: int|
            0 <= i < entries.len() ==> present_on(adj, layer).contains(#[trigger] entries[i]),
    ensures
        ({
            let found = found_on(pairs, config, adj, point, layer, entries);
            &&& heuristic::distinct_ids(found)
            &&& forall|i: int|
                0 <= i < found.len() ==> (#[trigger] found[i]).id <= u32::MAX && present_on(
                    adj,
                    layer,
                ).contains(found[i].id as u32)
            &&& forall|i: int|
                0 <= i < ids_of(found).len() ==> present_on(adj, layer).contains(
                    #[trigger] ids_of(found)[i],
                )
        }),
{
    let q = LayerQuery {
        adj,
        layer,
        ef: config.ef_construction as nat,
        dist: distances_from(pairs, point),
        keeps: search::keeps_all(),
    };
    lemma_layer_closed(adj, layer);
    search::law_layer_search(q, entries, present_on(adj, layer));
    let found = found_on(pairs, config, adj, point, layer, entries);
    assert forall|i: int| 0 <= i < ids_of(found).len() implies present_on(adj, layer).contains(
        #[trigger] ids_of(found)[i],
    ) by {
        assert(found[i].id <= u32::MAX);
    }
}

/// The neighbors selected from what a search found are present on the layer.
pub proof fn lemma_selected(
    pairs: spec_fn(u32, u32) -> OrderedF32,
    config: HnswConfig,
    point: u32,
    layer: nat,
    found: Seq<Ranked>,
    region: Set<u32>,
)
    requires
        forall|i: int|
            0 <= i < found.len() ==> (#[trigger] found[i]).id <= u32::MAX && region.contains(
                found[i].id as u32,
            ),
    ensures
        ({
            let selected = heuristic::selection(
                pairs,
                point,
                found,
                config.degree_bound(layer),
                config.keep_pruned,
            );
            &&& selected.len() <= config.degree_bound(layer)
            &&& forall|i: int| 0 <= i < selected.len() ==> region.contains(#[trigger] selected[i])
            &&& !selected.contains(point)
            &&& heuristic::distinct_ids(found) ==> selected.no_duplicates()
        }),
{
    let bound = config.degree_bound(layer);
    heuristic::law_selection(pairs, point, found, bound, config.keep_pruned);
    let selected = heuristic::selection(pairs, point, found, bound, config.keep_pruned);
    assert forall|i: int| 0 <= i < selected.len() implies region.contains(#[trigger] selected[i]) by {
        assert(heuristic::has_id(found, selected[i]));
        let k = choose|k: int| 0 <= k < found.len() && (#[trigger] found[k]).id == selected[i];
        assert(found[k].id as u32 == selected[i]);
    }
}

/// Wiring a point up on a layer keeps the graph well linked.
pub proof fn lemma_wire(
    pairs: spec_fn(u32, u32) -> OrderedF32,
    config: HnswConfig,
    adj: Adjacency,
    point: u32,
    layer: nat,
    found: Seq<Ranked>,
)
    requires
        well_linked(config, adj),
        present_on(adj, layer).contains(point),
        forall|i: int|
            0 <= i < found.len() ==> (#[trigger] found[i]).id <= u32::MAX && present_on(
                adj,
                layer,
            ).contains(found[i].id as u32),
    ensures
        well_linked(config, wire(pairs, config, adj, point, layer, found)),
        same_shape(adj, wire(pairs, config, adj, point, layer, found)),
{
    let bound = config.degree_bound(layer);
    let selected = heuristic::selection(pairs, point, found, bound, config.keep_pruned);
    lemma_selected(pairs, config, point, layer, found, present_on(adj, layer));
    lemma_with_list(config, adj, point, layer, selected);
    let own = with_list(adj, point, layer, selected);
    assert(present_on(own, layer) =~= present_on(adj, layer));
    lemma_link_back_all(pairs, config, own, layer, point, selected);
}

/// Points present on a layer are present on every layer below.
pub proof fn lemma_present_below(adj: Adjacency, entries: Seq<u32>, layer: nat, below: nat)
    requires
        below <= layer,
        forall|i: int|
            0 <= i < entries.len() ==> present_on(adj, layer).contains(#[trigger] entries[i]),
    ensures
        forall|i: int|
            0 <= i < entries.len() ==> present_on(adj, below).contains(#[trigger] entries[i]),
{
    assert forall|i: int| 0 <= i < entries.len() implies present_on(adj, below).contains(
        #[trigger] entries[i],
    ) by {
        assert(present_on(adj, layer).contains(entries[i]));
    }
}

/// Wiring a point up on all its layers keeps the graph well linked.
pub proof fn lemma_connect(
    pairs: spec_fn(u32, u32) -> OrderedF32,
    config: HnswConfig,
    adj: Adjacency,
    point: u32,
    layer: nat,
    entries: Seq<u32>,
)
    requires
        well_linked(config, adj),
        present_on(adj, layer).contains(point),
        forall|i: int|
            0 <= i < entries.len() ==> present_on(adj, layer).contains(#[trigger] entries[i]),
    ensures
        well_linked(config, connect(pairs, config, adj, point, layer, entries)),
        same_shape(adj, connect(pairs, config, adj, point, layer, entries)),
    decreases layer,
{
    let found = found_on(pairs, config, adj, point, layer, entries);
    lemma_found_on(pairs, config, adj, point, layer, entries);
    lemma_wire(pairs, config, adj, point, layer, found);
    if layer > 0 {
        let wired = wire(pairs, config, adj, point, layer, found);
        let below = (layer - 1) as nat;
        assert(present_on(wired, layer) =~= present_on(adj, layer));
        lemma_present_below(wired, ids_of(found), layer, below);
        lemma_connect(pairs, config, wired, point, below, ids_of(found));
    }
}

/// The closest point found on a layer is present there.
pub proof fn lemma_closest_on(
    adj: Adjacency,
    layer: nat,
    dist: spec_fn(u32) -> OrderedF32,
    from: u32,
)
    requires
        linked(adj),
        present_on(adj, layer).contains(from),
    ensures
        present_on(adj, layer).contains(closest_on(adj, layer, dist, from)),
{
    let q = LayerQuery { adj, layer, ef: 1, dist, keeps: search::keeps_all() };
    lemma_layer_closed(adj, layer);
    search::law_layer_search(q, seq![from], present_on(adj, layer));
}

/// A descent ends on a point present where it stops.
pub proof fn lemma_descend(
    adj: Adjacency,
    dist: spec_fn(u32) -> OrderedF32,
    from: u32,
    layer: nat,
    stop: nat,
)
    requires
        linked(adj),
        present_on(adj, layer).contains(from),
    ensures
        present_on(adj, if stop <= layer { stop } else { layer }).contains(
            descend(adj, dist, from, layer, stop),
        ),
    decreases layer,
{
    if layer > stop {
        lemma_closest_on(adj, layer, dist, from);
        lemma_descend(
            adj,
            dist,
            closest_on(adj, layer, dist, from),
            (layer - 1) as nat,
            stop,
        );
    }
}

/// Every insertion keeps the graph well linked: degrees within bounds, every neighbor
/// present on its layer, the points' levels unchanged, and the entry at the top level.
pub proof fn law_insert_keeps_well_linked(
    pairs: spec_fn(u32, u32) -> OrderedF32,
    config: HnswConfig,
    g: GraphState,
    point: u32,
)
    requires
        well_linked(config, g.adj),
        entry_ok(g),
        point < g.adj.len(),
    ensures
        well_linked(config, inserted(pairs, config, g, point).adj),
        entry_ok(inserted(pairs, config, g, point)),
        same_shape(g.adj, inserted(pairs, config, g, point).adj),
        inserted(pairs, config, g, point).entry is Some,
{
    let level = level_in(g.adj, point);
    assert(g.adj[point as int].len() >= 1);
    if let Some(entry) = g.entry {
        let dist = distances_from(pairs, point);
        lemma_descend(g.adj, dist, entry, g.top, level);
        let near = descend(g.adj, dist, entry, g.top, level);
        let start = if level <= g.top {
            level
        } else {
            g.top
        };
        assert(present_on(g.adj, start).contains(near));
        lemma_connect(pairs, config, g.adj, point, start, seq![near]);
    }
}

} // verus!
