//! Structural invariants of a sequentially built graph.
//!
//! However the vectors lie, the graph that results from inserting the points in order has
//! bounded degrees, no self-loops, no duplicate edges, only neighbors that are present on
//! their layer, an entry at the top level, and (from two points on) no isolated point.

use vstd::prelude::*;

use crate::index::hnsw::config::HnswConfig;
use crate::index::hnsw::construction;
use crate::index::hnsw::construction::GraphState;
use crate::index::hnsw::heuristic;
use crate::index::hnsw::search;
use crate::index::hnsw::search::Adjacency;
use crate::index::hnsw::search::Beam;
use crate::index::hnsw::search::LayerQuery;
use crate::ordered::OrderedF32;
use crate::ranking;
use crate::ranking::Ranked;

verus! {

/// No list names its own point, and none names a point twice.
pub open spec fn simple(adj: Adjacency) -> bool {
    forall|p: int, l: int|
        0 <= p < adj.len() && 0 <= l < adj[p].len() ==> (#[trigger] adj[p][l]).no_duplicates()
            && !adj[p][l].contains(p as u32)
}

/// The lists of a layer name only points of `seen`.
pub open spec fn only_seen_at(adj: Adjacency, layer: nat, seen: Set<u32>) -> bool {
    forall|p: int, i: int|
        0 <= p < adj.len() && layer < adj[p].len() && 0 <= i < adj[p][layer as int].len()
            ==> seen.contains(#[trigger] adj[p][layer as int][i])
}

/// `e` is the one point of `seen`.
pub open spec fn only_one(seen: Set<u32>, e: u32) -> bool {
    seen.contains(e) && forall|q: u32| #[trigger] seen.contains(q) ==> q == e
}

/// All lists but those of one layer are the same.
pub open spec fn same_off_layer(a: Adjacency, b: Adjacency, layer: nat) -> bool {
    forall|p: int, l: int|
        0 <= p < a.len() && 0 <= l < a[p].len() && l != layer ==> (#[trigger] a[p][l]) == b[p][l]
}

/// Every point below `bound` has a neighbor on the ground layer.
pub open spec fn none_isolated(adj: Adjacency, bound: nat) -> bool {
    forall|p: int| 0 <= p < bound ==> (#[trigger] adj[p])[0].len() > 0
}

/// No point reaches above the top level.
pub open spec fn none_above(g: GraphState) -> bool {
    forall|p: int| 0 <= p < g.adj.len() ==> (#[trigger] g.adj[p]).len() <= g.top + 1
}

/// The parameters let every point have a neighbor.
pub open spec fn connecting(config: HnswConfig) -> bool {
    config.m_max0 >= 1 && config.ef_construction >= 1
}

proof fn lemma_meet_all_nonempty(q: LayerQuery, b: Beam, ids: Seq<u32>)
    requires
        q.ef >= 1,
        b.results.len() >= 1,
        ranking::sorted(b.results),
    ensures
        search::meet_all(q, b, ids).results.len() >= 1,
        ranking::sorted(search::meet_all(q, b, ids).results),
    decreases ids.len(),
{
    if ids.len() > 0 {
        let before = search::meet_all(q, b, ids.drop_last());
        lemma_meet_all_nonempty(q, b, ids.drop_last());
        lemma_enqueue_nonempty(q, before.marked(ids.last()), ids.last());
    }
}

pub proof fn lemma_enqueue_nonempty(q: LayerQuery, b: Beam, id: u32)
    requires
        q.ef >= 1,
        ranking::sorted(b.results),
    ensures
        ranking::sorted(search::enqueue(q, b, id).results),
        b.results.len() >= 1 || (q.keeps)(id) ==> search::enqueue(q, b, id).results.len() >= 1,
{
    let r = search::measured(q, id);
    ranking::lemma_insert_sorted(b.results, r);
    let grown = ranking::insert_sorted(b.results, r);
    if grown.len() > q.ef {
        let cut = grown.drop_last();
        assert forall|i: int, j: int| 0 <= i < j < cut.len() implies !(#[trigger] cut[j]).before(
            #[trigger] cut[i],
        ) by {
            assert(!grown[j].before(grown[i]));
        }
    }
}

proof fn lemma_run_nonempty(q: LayerQuery, b: Beam, budget: nat)
    requires
        q.ef >= 1,
        b.results.len() >= 1,
        ranking::sorted(b.results),
    ensures
        search::run(q, b, budget).len() >= 1,
    decreases budget,
{
    if budget > 0 && !search::finished(q, b) {
        lemma_meet_all_nonempty(
            q,
            Beam { frontier: b.frontier.skip(1), ..b },
            search::neighbors_of(q.adj, b.frontier[0].id as u32, q.layer),
        );
        lemma_run_nonempty(q, search::expand(q, b), (budget - 1) as nat);
    }
}

proof fn lemma_seed_all_nonempty(q: LayerQuery, ids: Seq<u32>)
    requires
        q.ef >= 1,
        q.keeps == search::keeps_all(),
    ensures
        ranking::sorted(search::seed_all(q, Beam::start(), ids).results),
        ids.len() > 0 ==> search::seed_all(q, Beam::start(), ids).results.len() >= 1,
        search::seed_all(q, Beam::start(), ids).seen.len() > 0 ==> search::seed_all(
            q,
            Beam::start(),
            ids,
        ).results.len() >= 1,
        search::seed_all(q, Beam::start(), ids).seen.finite(),
    decreases ids.len(),
{
    if ids.len() > 0 {
        let before = search::seed_all(q, Beam::start(), ids.drop_last());
        lemma_seed_all_nonempty(q, ids.drop_last());
        lemma_enqueue_nonempty(q, before.marked(ids.last()), ids.last());
        if before.seen.contains(ids.last()) {
            assert(before.seen.len() > 0) by {
                assert(before.seen.remove(ids.last()).insert(ids.last()) =~= before.seen);
            }
        }
    }
}

/// A search that admits everything finds something from any entry point.
pub proof fn law_search_finds_something(q: LayerQuery, entries: Seq<u32>)
    requires
        q.ef >= 1,
        q.keeps == search::keeps_all(),
        entries.len() > 0,
    ensures
        search::layer_search(q, entries).len() >= 1,
{
    lemma_seed_all_nonempty(q, entries);
    lemma_run_nonempty(q, search::seed_all(q, Beam::start(), entries), q.adj.len());
}

proof fn lemma_pick_all_nonempty(
    pairs: spec_fn(u32, u32) -> OrderedF32,
    candidates: Seq<Ranked>,
    m: nat,
)
    requires
        m >= 1,
        candidates.len() >= 1,
    ensures
        heuristic::pick_all(pairs, candidates, m).chosen.len() >= 1,
    decreases candidates.len(),
{
    let shorter = candidates.drop_last();
    if shorter.len() >= 1 {
        lemma_pick_all_nonempty(pairs, shorter, m);
    } else {
        let before = heuristic::pick_all(pairs, shorter, m);
        assert(before.chosen.len() == 0);
        assert(heuristic::diverse(pairs, before.chosen, candidates.last()));
    }
}

/// The heuristic never selects nothing from something.
pub proof fn law_selection_nonempty(
    pairs: spec_fn(u32, u32) -> OrderedF32,
    base: u32,
    candidates: Seq<Ranked>,
    m: nat,
    keep_pruned: bool,
)
    requires
        m >= 1,
        exists|i: int| 0 <= i < candidates.len() && (#[trigger] candidates[i]).id != base,
    ensures
        heuristic::selection(pairs, base, candidates, m, keep_pruned).len() >= 1,
{
    let i = choose|i: int| 0 <= i < candidates.len() && (#[trigger] candidates[i]).id != base;
    let w = heuristic::without(candidates, base);
    heuristic::lemma_without(candidates, base);
    assert(candidates.contains(candidates[i]));
    assert(w.contains(candidates[i]));
    ranking::law_sort_ranked(w);
    lemma_pick_all_nonempty(pairs, ranking::sort_ranked(w), m);
}

proof fn lemma_linked_back_nonempty(
    pairs: spec_fn(u32, u32) -> OrderedF32,
    config: HnswConfig,
    list: Seq<u32>,
    neighbor: u32,
    layer: nat,
    point: u32,
)
    requires
        config.degree_bound(layer) >= 1,
        neighbor != point,
    ensures
        construction::linked_back(pairs, config, list, neighbor, layer, point).len() >= 1,
{
    let longer = list.push(point);
    if longer.len() > config.degree_bound(layer) {
        let cand = heuristic::ranked_to(pairs, neighbor, longer);
        assert(cand[list.len() as int].id != neighbor);
        law_selection_nonempty(
            pairs,
            neighbor,
            cand,
            config.degree_bound(layer),
            config.keep_pruned,
        );
    }
}

/// Linking back touches only the selected neighbors' lists on the layer, and keeps the
/// graph simple.
proof fn lemma_link_back_all_simple(
    pairs: spec_fn(u32, u32) -> OrderedF32,
    config: HnswConfig,
    adj: Adjacency,
    layer: nat,
    point: u32,
    selected: Seq<u32>,
    seen: Set<u32>,
)
    requires
        construction::well_linked(config, adj),
        simple(adj),
        construction::present_on(adj, layer).contains(point),
        selected.no_duplicates(),
        !selected.contains(point),
        forall|i: int|
            0 <= i < selected.len() ==> construction::present_on(adj, layer).contains(
                #[trigger] selected[i],
            ) && !adj[selected[i] as int][layer as int].contains(point),
        only_seen_at(adj, layer, seen.insert(point)),
    ensures
        ({
            let next = construction::link_back_all(pairs, config, adj, layer, point, selected);
            &&& construction::well_linked(config, next)
            &&& construction::same_shape(adj, next)
            &&& simple(next)
            &&& same_off_layer(adj, next, layer)
            &&& only_seen_at(next, layer, seen.insert(point))
            &&& forall|p: int|
                0 <= p < adj.len() && layer < adj[p].len() && !selected.contains(p as u32) ==> (
                #[trigger] next[p])[layer as int] == adj[p][layer as int]
            &&& config.degree_bound(layer) >= 1 ==> forall|p: int|
                0 <= p < adj.len() && layer < adj[p].len() && selected.contains(p as u32) ==> (
                #[trigger] next[p])[layer as int].len() >= 1
        }),
    decreases selected.len(),
{
    if selected.len() > 0 {
        let shorter = selected.drop_last();
        let neighbor = selected.last();
        assert(selected[selected.len() - 1] == neighbor);
        assert forall|i: int| 0 <= i < shorter.len() implies construction::present_on(
            adj,
            layer,
        ).contains(#[trigger] shorter[i]) && !adj[shorter[i] as int][layer as int].contains(point) by {
            assert(shorter[i] == selected[i]);
        }
        assert(shorter.no_duplicates()) by {
            assert forall|i: int, j: int|
                0 <= i < shorter.len() && 0 <= j < shorter.len() && i != j implies shorter[i]
                != shorter[j] by {
                assert(selected[i] != selected[j]);
            }
        }
        assert(!shorter.contains(point)) by {
            if shorter.contains(point) {
                assert(selected[shorter.index_of(point)] == point);
            }
        }
        assert(neighbor != point) by {
            if neighbor == point {
                assert(selected.contains(point));
            }
        }
        assert(!shorter.contains(neighbor)) by {
            if shorter.contains(neighbor) {
                assert(selected[shorter.index_of(neighbor)] != selected[selected.len() - 1]);
            }
        }
        lemma_link_back_all_simple(pairs, config, adj, layer, point, shorter, seen);
        construction::lemma_link_back_all(pairs, config, adj, layer, point, selected);
        let before = construction::link_back_all(pairs, config, adj, layer, point, shorter);
        let next = construction::link_back_all(pairs, config, adj, layer, point, selected);
        let nb = neighbor as int;
        let list = before[nb][layer as int];
        assert(list == adj[nb][layer as int]);
        let longer = construction::linked_back(pairs, config, list, neighbor, layer, point);
        let below = seen.insert(point);
        assert forall|i: int| 0 <= i < list.len() implies below.contains(#[trigger] list[i]) by {
            assert(seen.insert(point).contains(adj[nb][layer as int][i]));
        }
        construction::lemma_linked_back(pairs, config, list, neighbor, layer, point, below);
        assert(!adj[nb][layer as int].contains(nb as u32));
        assert(next[nb][layer as int] == longer);
        assert forall|p: int, l: int| 0 <= p < next.len() && 0 <= l < next[p].len() implies (
        #[trigger] next[p][l]).no_duplicates() && !next[p][l].contains(p as u32) by {
            if p == nb && l == layer {
            } else {
                assert(next[p][l] == before[p][l]);
                assert(before[p][l].no_duplicates() && !before[p][l].contains(p as u32));
            }
        }
        assert forall|p: int, l: int|
            0 <= p < adj.len() && 0 <= l < adj[p].len() && l != layer implies (#[trigger] adj[p][l])
            == next[p][l] by {
            assert(adj[p][l] == before[p][l]);
            assert(before[p][l] == next[p][l]);
        }
        assert forall|p: int, i: int|
            0 <= p < next.len() && layer < next[p].len() && 0 <= i < next[p][layer as int].len() implies below.contains(
        #[trigger] next[p][layer as int][i],
        ) by {
            if p == nb {
                assert(below.contains(longer[i]));
            } else {
                assert(next[p][layer as int] == before[p][layer as int]);
                assert(below.contains(before[p][layer as int][i]));
            }
        }
        assert forall|p: int|
            0 <= p < adj.len() && layer < adj[p].len() && !selected.contains(p as u32) implies (
        #[trigger] next[p])[layer as int] == adj[p][layer as int] by {
            if p == nb {
                assert(selected.contains(p as u32));
            }
            if shorter.contains(p as u32) {
                assert(selected[shorter.index_of(p as u32)] == p as u32);
            }
            assert(before[p][layer as int] == adj[p][layer as int]);
        }
        if config.degree_bound(layer) >= 1 {
            lemma_linked_back_nonempty(pairs, config, list, neighbor, layer, point);
            assert forall|p: int|
                0 <= p < adj.len() && layer < adj[p].len() && selected.contains(p as u32) implies (
            #[trigger] next[p])[layer as int].len() >= 1 by {
                if p != nb {
                    let i = selected.index_of(p as u32);
                    if i == selected.len() - 1 {
                        assert(p as u32 == neighbor);
                        assert(p == nb);
                    }
                    assert(shorter[i] == p as u32);
                    assert(before[p][layer as int].len() >= 1);
                }
            }
        }
    }
}

/// Wiring a point that no list of the layer names yet keeps the graph simple.
proof fn lemma_wire_simple(
    pairs: spec_fn(u32, u32) -> OrderedF32,
    config: HnswConfig,
    adj: Adjacency,
    point: u32,
    layer: nat,
    found: Seq<Ranked>,
    seen: Set<u32>,
)
    requires
        !seen.contains(point),
        construction::well_linked(config, adj),
        simple(adj),
        construction::present_on(adj, layer).contains(point),
        only_seen_at(adj, layer, seen),
        heuristic::distinct_ids(found),
        forall|i: int|
            0 <= i < found.len() ==> (#[trigger] found[i]).id <= u32::MAX && seen.contains(
                found[i].id as u32,
            ) && construction::present_on(adj, layer).contains(found[i].id as u32),
    ensures
        ({
            let next = construction::wire(pairs, config, adj, point, layer, found);
            &&& construction::well_linked(config, next)
            &&& construction::same_shape(adj, next)
            &&& simple(next)
            &&& same_off_layer(adj, next, layer)
            &&& only_seen_at(next, layer, seen.insert(point))
            &&& config.degree_bound(layer) >= 1 && found.len() >= 1 ==> {
                &&& next[point as int][layer as int].len() >= 1
                &&& forall|p: int|
                    0 <= p < adj.len() && layer < adj[p].len() && adj[p][layer as int].len() >= 1
                        ==> (#[trigger] next[p])[layer as int].len() >= 1
                &&& found.len() == 1 ==> next[found[0].id as int][layer as int].len() >= 1
            }
        }),
{
    let bound = config.degree_bound(layer);
    let region = construction::present_on(adj, layer);
    let selected = heuristic::selection(pairs, point, found, bound, config.keep_pruned);
    assert forall|i: int| 0 <= i < found.len() implies (#[trigger] found[i]).id <= u32::MAX
        && region.contains(found[i].id as u32) by {}
    construction::lemma_selected(pairs, config, point, layer, found, region);
    construction::lemma_with_list(config, adj, point, layer, selected);
    heuristic::law_selection(pairs, point, found, bound, config.keep_pruned);
    let own = construction::with_list(adj, point, layer, selected);
    assert(construction::present_on(own, layer) =~= region);
    assert forall|i: int| 0 <= i < selected.len() implies seen.contains(#[trigger] selected[i]) by {
        assert(heuristic::has_id(found, selected[i]));
        let k = choose|k: int| 0 <= k < found.len() && (#[trigger] found[k]).id == selected[i];
        assert(seen.contains(found[k].id as u32));
    }
    assert forall|p: int, l: int| 0 <= p < own.len() && 0 <= l < own[p].len() implies (
    #[trigger] own[p][l]).no_duplicates() && !own[p][l].contains(p as u32) by {
        if p == point && l == layer {
            assert(own[p][l] == selected);
        } else {
            assert(own[p][l] == adj[p][l]);
            assert(adj[p][l].no_duplicates() && !adj[p][l].contains(p as u32));
        }
    }
    assert forall|p: int, i: int|
        0 <= p < own.len() && layer < own[p].len() && 0 <= i < own[p][layer as int].len() implies seen.insert(
        point,
    ).contains(#[trigger] own[p][layer as int][i]) by {
        if p == point {
            assert(own[p][layer as int] == selected);
        } else {
            assert(own[p][layer as int] == adj[p][layer as int]);
            assert(seen.contains(adj[p][layer as int][i]));
        }
    }
    assert forall|i: int| 0 <= i < selected.len() implies construction::present_on(
        own,
        layer,
    ).contains(#[trigger] selected[i]) && !own[selected[i] as int][layer as int].contains(point) by {
        let nb = selected[i] as int;
        assert(region.contains(selected[i]));
        assert(own[nb][layer as int] == adj[nb][layer as int]);
        if own[nb][layer as int].contains(point) {
            let k = own[nb][layer as int].index_of(point);
            assert(seen.contains(adj[nb][layer as int][k]));
        }
    }
    lemma_link_back_all_simple(pairs, config, own, layer, point, selected, seen);
    let next = construction::wire(pairs, config, adj, point, layer, found);
    assert forall|p: int, l: int|
        0 <= p < adj.len() && 0 <= l < adj[p].len() && l != layer implies (#[trigger] adj[p][l])
        == next[p][l] by {
        assert(own[p][l] == adj[p][l]);
        assert(own[p][l] == next[p][l]);
    }
    if bound >= 1 && found.len() >= 1 {
        assert(seen.contains(found[0].id as u32));
        assert(found[0].id != point);
        law_selection_nonempty(pairs, point, found, bound, config.keep_pruned);
        assert(next[point as int][layer as int] == selected) by {
            assert(!selected.contains(point));
            assert(own[point as int][layer as int] == selected);
        }
        assert forall|p: int|
            0 <= p < adj.len() && layer < adj[p].len() && adj[p][layer as int].len() >= 1 implies (
        #[trigger] next[p])[layer as int].len() >= 1 by {
            if p != point && !selected.contains(p as u32) {
                assert(next[p][layer as int] == own[p][layer as int]);
                assert(own[p][layer as int] == adj[p][layer as int]);
            }
        }
        if found.len() == 1 {
            assert(heuristic::has_id(found, selected[0]));
            let k = choose|k: int| 0 <= k < found.len() && (#[trigger] found[k]).id == selected[0];
            assert(k == 0);
            let nb = found[0].id as int;
            assert(selected[0] == nb);
            assert(selected.contains(nb as u32));
            assert(region.contains(found[0].id as u32));
        }
    }
}

/// What a construction search finds when the layer's lists name only points of `seen`.
proof fn lemma_found_below(
    pairs: spec_fn(u32, u32) -> OrderedF32,
    config: HnswConfig,
    adj: Adjacency,
    point: u32,
    layer: nat,
    entries: Seq<u32>,
    seen: Set<u32>,
)
    requires
        !seen.contains(point),
        construction::well_linked(config, adj),
        only_seen_at(adj, layer, seen),
        forall|i: int|
            0 <= i < entries.len() ==> seen.contains(#[trigger] entries[i]) && construction::present_on(
                adj,
                layer,
            ).contains(entries[i]),
    ensures
        ({
            let found = construction::found_on(pairs, config, adj, point, layer, entries);
            &&& heuristic::distinct_ids(found)
            &&& forall|i: int|
                0 <= i < found.len() ==> (#[trigger] found[i]).id <= u32::MAX && seen.contains(
                    found[i].id as u32,
                ) && construction::present_on(adj, layer).contains(found[i].id as u32)
            &&& config.ef_construction >= 1 && entries.len() >= 1 ==> found.len() >= 1
        }),
{
    let q = LayerQuery {
        adj,
        layer,
        ef: config.ef_construction as nat,
        dist: construction::distances_from(pairs, point),
        keeps: search::keeps_all(),
    };
    assert forall|p: u32, i: int|
        seen.contains(p) && 0 <= i < search::neighbors_of(adj, p, layer).len() implies seen.contains(
        #[trigger] search::neighbors_of(adj, p, layer)[i],
    ) by {
        assert(seen.contains(adj[p as int][layer as int][i]));
    }
    search::law_layer_search(q, entries, seen);
    construction::lemma_found_on(pairs, config, adj, point, layer, entries);
    if config.ef_construction >= 1 && entries.len() >= 1 {
        law_search_finds_something(q, entries);
    }
}

/// Wiring a fresh point up on its layers keeps the graph simple, and leaves no earlier
/// point isolated.
proof fn lemma_connect_simple(
    pairs: spec_fn(u32, u32) -> OrderedF32,
    config: HnswConfig,
    adj: Adjacency,
    point: u32,
    layer: nat,
    entries: Seq<u32>,
    seen: Set<u32>,
)
    requires
        !seen.contains(point),
        construction::well_linked(config, adj),
        simple(adj),
        construction::present_on(adj, layer).contains(point),
        forall|l: nat| l <= layer ==> #[trigger] only_seen_at(adj, l, seen),
        entries.len() >= 1,
        forall|i: int|
            0 <= i < entries.len() ==> seen.contains(#[trigger] entries[i]) && construction::present_on(
                adj,
                layer,
            ).contains(entries[i]),
    ensures
        ({
            let next = construction::connect(pairs, config, adj, point, layer, entries);
            &&& construction::well_linked(config, next)
            &&& construction::same_shape(adj, next)
            &&& simple(next)
            &&& forall|l: nat| l <= layer ==> #[trigger] only_seen_at(next, l, seen.insert(point))
            &&& forall|p: int, l: int|
                0 <= p < adj.len() && layer < l < adj[p].len() ==> (#[trigger] adj[p][l])
                    == next[p][l]
            &&& connecting(config) ==> {
                &&& next[point as int][0].len() >= 1
                &&& forall|p: int|
                    0 <= p < adj.len() && adj[p][0].len() >= 1 ==> (#[trigger] next[p])[0].len()
                        >= 1
                &&& forall|e: u32| #[trigger]
                    only_one(seen, e) && e < adj.len() ==> next[e as int][0].len() >= 1
            }
        }),
    decreases layer,
{
    let found = construction::found_on(pairs, config, adj, point, layer, entries);
    assert(only_seen_at(adj, layer, seen));
    lemma_found_below(pairs, config, adj, point, layer, entries, seen);
    lemma_wire_simple(pairs, config, adj, point, layer, found, seen);
    let wired = construction::wire(pairs, config, adj, point, layer, found);
    if layer == 0 {
        if connecting(config) {
            assert forall|e: u32| #[trigger] only_one(seen, e) && e < adj.len() implies wired[e as int][0].len()
                >= 1 by {
                assert(seen.contains(found[0].id as u32));
                assert(found[0].id == e);
                if found.len() > 1 {
                    assert(seen.contains(found[1].id as u32));
                    assert(found[0].id != found[1].id);
                }
            }
        }
        assert forall|l: nat| l <= layer implies #[trigger] only_seen_at(
            wired,
            l,
            seen.insert(point),
        ) by {}
    } else {
        let below = (layer - 1) as nat;
        let ids = construction::ids_of(found);
        if !(config.ef_construction >= 1) {
            // With a zero beam nothing is found, and nothing is wired below either.
            lemma_connect_nothing(pairs, config, adj, point, layer, entries, seen);
        } else {
            assert forall|l: nat| l <= below implies #[trigger] only_seen_at(
                wired,
                l,
                seen,
            ) by {
                assert(only_seen_at(adj, l, seen));
                assert forall|p: int, i: int|
                    0 <= p < wired.len() && l < wired[p].len() && 0 <= i
                        < wired[p][l as int].len() implies seen.contains(
                    #[trigger] wired[p][l as int][i],
                ) by {
                    assert(adj[p][l as int] == wired[p][l as int]);
                    assert(seen.contains(adj[p][l as int][i]));
                }
            }
            assert(construction::present_on(wired, below) =~= construction::present_on(adj, below));
            assert forall|i: int| 0 <= i < ids.len() implies seen.contains(#[trigger] ids[i])
                && construction::present_on(wired, below).contains(ids[i]) by {
                assert(seen.contains(found[i].id as u32));
                assert(construction::present_on(adj, layer).contains(found[i].id as u32));
            }
            assert(construction::present_on(wired, below).contains(point));
            lemma_connect_simple(pairs, config, wired, point, below, ids, seen);
            let next = construction::connect(pairs, config, adj, point, layer, entries);
            assert forall|l: nat| l <= layer implies #[trigger] only_seen_at(
                next,
                l,
                seen.insert(point),
            ) by {
                if l == layer {
                    assert forall|p: int, i: int|
                        0 <= p < next.len() && l < next[p].len() && 0 <= i
                            < next[p][l as int].len() implies seen.insert(point).contains(
                        #[trigger] next[p][l as int][i],
                    ) by {
                        assert(wired[p][l as int] == next[p][l as int]);
                        assert(seen.insert(point).contains(wired[p][l as int][i]));
                    }
                }
            }
            assert forall|p: int, l: int| 0 <= p < adj.len() && layer < l < adj[p].len() implies (
            #[trigger] adj[p][l]) == next[p][l] by {
                assert(adj[p][l] == wired[p][l]);
                assert(wired[p][l] == next[p][l]);
            }
            if connecting(config) {
                assert forall|p: int| 0 <= p < adj.len() && adj[p][0].len() >= 1 implies (
                #[trigger] next[p])[0].len() >= 1 by {
                    assert(adj[p][0] == wired[p][0]);
                }
            }
        }
    }
}

/// With a zero beam an insertion wires nothing but empty lists.
proof fn lemma_connect_nothing(
    pairs: spec_fn(u32, u32) -> OrderedF32,
    config: HnswConfig,
    adj: Adjacency,
    point: u32,
    layer: nat,
    entries: Seq<u32>,
    seen: Set<u32>,
)
    requires
        !seen.contains(point),
        construction::well_linked(config, adj),
        simple(adj),
        construction::present_on(adj, layer).contains(point),
        forall|l: nat| l <= layer ==> #[trigger] only_seen_at(adj, l, seen),
        config.ef_construction == 0,
        forall|i: int|
            0 <= i < entries.len() ==> seen.contains(#[trigger] entries[i]) && construction::present_on(
                adj,
                layer,
            ).contains(entries[i]),
    ensures
        ({
            let next = construction::connect(pairs, config, adj, point, layer, entries);
            &&& construction::well_linked(config, next)
            &&& construction::same_shape(adj, next)
            &&& simple(next)
            &&& forall|l: nat| l <= layer ==> #[trigger] only_seen_at(next, l, seen.insert(point))
            &&& forall|p: int, l: int|
                0 <= p < adj.len() && layer < l < adj[p].len() ==> (#[trigger] adj[p][l])
                    == next[p][l]
        }),
    decreases layer,
{
    let found = construction::found_on(pairs, config, adj, point, layer, entries);
    assert(only_seen_at(adj, layer, seen));
    lemma_found_below(pairs, config, adj, point, layer, entries, seen);
    lemma_wire_simple(pairs, config, adj, point, layer, found, seen);
    let wired = construction::wire(pairs, config, adj, point, layer, found);
    if layer > 0 {
        let below = (layer - 1) as nat;
        let ids = construction::ids_of(found);
        assert forall|l: nat| l <= below implies #[trigger] only_seen_at(wired, l, seen) by {
            assert(only_seen_at(adj, l, seen));
            assert forall|p: int, i: int|
                0 <= p < wired.len() && l < wired[p].len() && 0 <= i < wired[p][l as int].len() implies seen.contains(
                #[trigger] wired[p][l as int][i],
            ) by {
                assert(adj[p][l as int] == wired[p][l as int]);
                assert(seen.contains(adj[p][l as int][i]));
            }
        }
        assert(construction::present_on(wired, below) =~= construction::present_on(adj, below));
        assert forall|i: int| 0 <= i < ids.len() implies seen.contains(#[trigger] ids[i])
            && construction::present_on(wired, below).contains(ids[i]) by {
            assert(seen.contains(found[i].id as u32));
            assert(construction::present_on(adj, layer).contains(found[i].id as u32));
        }
        assert(construction::present_on(wired, below).contains(point));
        lemma_connect_nothing(pairs, config, wired, point, below, ids, seen);
        let next = construction::connect(pairs, config, adj, point, layer, entries);
        assert forall|l: nat| l <= layer implies #[trigger] only_seen_at(
            next,
            l,
            seen.insert(point),
        ) by {
            if l == layer {
                assert forall|p: int, i: int|
                    0 <= p < next.len() && l < next[p].len() && 0 <= i < next[p][l as int].len() implies seen.insert(
                    point,
                ).contains(#[trigger] next[p][l as int][i]) by {
                    assert(wired[p][l as int] == next[p][l as int]);
                    assert(seen.insert(point).contains(wired[p][l as int][i]));
                }
            }
        }
        assert forall|p: int, l: int| 0 <= p < adj.len() && layer < l < adj[p].len() implies (
        #[trigger] adj[p][l]) == next[p][l] by {
            assert(adj[p][l] == wired[p][l]);
            assert(wired[p][l] == next[p][l]);
        }
    }
}

/// A greedy descent over lists that name only points of `seen` stays among them.
proof fn lemma_descend_seen(
    adj: Adjacency,
    dist: spec_fn(u32) -> OrderedF32,
    from: u32,
    layer: nat,
    stop: nat,
    seen: Set<u32>,
)
    requires
        construction::linked(adj),
        construction::present_on(adj, layer).contains(from),
        seen.contains(from),
        forall|l: nat| #[trigger] only_seen_at(adj, l, seen),
    ensures
        seen.contains(construction::descend(adj, dist, from, layer, stop)),
    decreases layer,
{
    if layer > stop {
        let q = LayerQuery { adj, layer, ef: 1, dist, keeps: search::keeps_all() };
        assert(only_seen_at(adj, layer, seen));
        assert forall|p: u32, i: int|
            seen.contains(p) && 0 <= i < search::neighbors_of(adj, p, layer).len() implies seen.contains(
            #[trigger] search::neighbors_of(adj, p, layer)[i],
        ) by {
            assert(seen.contains(adj[p as int][layer as int][i]));
        }
        search::law_layer_search(q, seq![from], seen);
        construction::lemma_closest_on(adj, layer, dist, from);
        lemma_descend_seen(
            adj,
            dist,
            construction::closest_on(adj, layer, dist, from),
            (layer - 1) as nat,
            stop,
            seen,
        );
    }
}

/// Two different points are in `seen`.
pub open spec fn two_seen(seen: Set<u32>) -> bool {
    exists|a: u32, b: u32| #[trigger] seen.contains(a) && #[trigger] seen.contains(b) && a != b
}

/// The structural invariants of a graph into which the points of `seen` were inserted, in
/// whatever order: degrees are within bounds; every neighbor is an inserted point that
/// reaches the layer; no list names its own point or a point twice; the entry is an
/// inserted point at the highest level among them; and once two points are in, no inserted
/// point is isolated on the ground layer.
pub open spec fn valid_with(config: HnswConfig, g: GraphState, seen: Set<u32>) -> bool {
    &&& construction::well_linked(config, g.adj)
    &&& construction::entry_ok(g)
    &&& simple(g.adj)
    &&& forall|p: u32| #[trigger] seen.contains(p) ==> p < g.adj.len()
    &&& forall|l: nat| #[trigger] only_seen_at(g.adj, l, seen)
    &&& g.entry is None ==> seen =~= Set::empty()
    &&& g.entry matches Some(e) ==> seen.contains(e) && forall|p: u32| #[trigger]
        seen.contains(p) ==> construction::level_in(g.adj, p) <= g.top
    &&& connecting(config) && two_seen(seen) ==> forall|p: u32| #[trigger]
        seen.contains(p) ==> g.adj[p as int][0].len() > 0
}

/// The structural invariants of a graph into which the points `0..n` were inserted.
pub open spec fn valid_graph(config: HnswConfig, g: GraphState, n: nat) -> bool {
    &&& valid_with(config, g, search::ids_below(n))
    &&& g.entry is Some <==> n > 0
    &&& connecting(config) && n >= 2 ==> none_isolated(g.adj, n)
}

/// Inserting a point that is not in yet keeps every structural invariant, whichever points
/// went before it.
pub proof fn law_insert_keeps_valid(
    pairs: spec_fn(u32, u32) -> OrderedF32,
    config: HnswConfig,
    g: GraphState,
    point: u32,
    seen: Set<u32>,
)
    requires
        valid_with(config, g, seen),
        point < g.adj.len(),
        !seen.contains(point),
    ensures
        valid_with(config, construction::inserted(pairs, config, g, point), seen.insert(point)),
        construction::same_shape(g.adj, construction::inserted(pairs, config, g, point).adj),
        construction::inserted(pairs, config, g, point).entry is Some,
{
    construction::law_insert_keeps_well_linked(pairs, config, g, point);
    let next = construction::inserted(pairs, config, g, point);
    let after = seen.insert(point);
    let level = construction::level_in(g.adj, point);
    assert(g.adj[point as int].len() >= 1);
    match g.entry {
        None => {
            assert forall|l: nat| #[trigger] only_seen_at(next.adj, l, after) by {
                assert(only_seen_at(g.adj, l, seen));
                assert forall|p: int, i: int|
                    0 <= p < next.adj.len() && l < next.adj[p].len() && 0 <= i
                        < next.adj[p][l as int].len() implies after.contains(
                    #[trigger] next.adj[p][l as int][i],
                ) by {
                    assert(seen.contains(g.adj[p][l as int][i]));
                }
            }
        },
        Some(entry) => {
            let dist = construction::distances_from(pairs, point);
            construction::lemma_descend(g.adj, dist, entry, g.top, level);
            let near = construction::descend(g.adj, dist, entry, g.top, level);
            lemma_descend_seen(g.adj, dist, entry, g.top, level, seen);
            let start = if level <= g.top {
                level
            } else {
                g.top
            };
            let entries = seq![near];
            assert(construction::present_on(g.adj, start).contains(near));
            assert(construction::present_on(g.adj, start).contains(point));
            assert forall|l: nat| l <= start implies #[trigger] only_seen_at(g.adj, l, seen) by {}
            lemma_connect_simple(pairs, config, g.adj, point, start, entries, seen);
            assert forall|l: nat| #[trigger] only_seen_at(next.adj, l, after) by {
                if l > start {
                    assert(only_seen_at(g.adj, l, seen));
                    assert forall|p: int, i: int|
                        0 <= p < next.adj.len() && l < next.adj[p].len() && 0 <= i
                            < next.adj[p][l as int].len() implies after.contains(
                        #[trigger] next.adj[p][l as int][i],
                    ) by {
                        assert(g.adj[p][l as int] == next.adj[p][l as int]);
                        assert(seen.contains(g.adj[p][l as int][i]));
                    }
                }
            }
            assert forall|p: u32| #[trigger] after.contains(p) implies construction::level_in(
                next.adj,
                p,
            ) <= next.top by {
                assert(next.adj[p as int].len() == g.adj[p as int].len());
                if p != point {
                    assert(seen.contains(p));
                    assert(construction::level_in(g.adj, p) <= g.top);
                }
            }
            if connecting(config) {
                assert forall|p: u32| #[trigger] after.contains(p) implies next.adj[p as int][0].len()
                    > 0 by {
                    if p != point {
                        assert(seen.contains(p));
                        if !two_seen(seen) {
                            assert(only_one(seen, p)) by {
                                assert forall|q: u32| #[trigger] seen.contains(q) implies q == p by {}
                            }
                        }
                    }
                }
            }
        },
    }
}

/// Unlinked points without an entry are a graph into which nothing was inserted.
pub proof fn law_unlinked_is_valid(config: HnswConfig, g: GraphState)
    requires
        g.adj.len() <= u32::MAX,
        forall|p: int| 0 <= p < g.adj.len() ==> (#[trigger] g.adj[p]).len() >= 1,
        forall|p: int, l: int|
            0 <= p < g.adj.len() && 0 <= l < g.adj[p].len() ==> (#[trigger] g.adj[p][l]).len() == 0,
        g.entry is None,
    ensures
        valid_with(config, g, Set::empty()),
{
    assert forall|l: nat| #[trigger] only_seen_at(g.adj, l, Set::empty()) by {
        assert forall|p: int, i: int|
            0 <= p < g.adj.len() && l < g.adj[p].len() && 0 <= i < g.adj[p][l as int].len() implies Set::<
            u32,
        >::empty().contains(#[trigger] g.adj[p][l as int][i]) by {
            assert(g.adj[p][l as int].len() == 0);
        }
    }
}

/// The graph with points inserted in the listed order.
pub open spec fn inserted_all(
    pairs: spec_fn(u32, u32) -> OrderedF32,
    config: HnswConfig,
    g: GraphState,
    order: Seq<u32>,
) -> GraphState
    decreases order.len(),
{
    if order.len() == 0 {
        g
    } else {
        construction::inserted(
            pairs,
            config,
            inserted_all(pairs, config, g, order.drop_last()),
            order.last(),
        )
    }
}

/// The graph built from unlinked points by inserting any of them in any order, each at
/// most once, satisfies every structural invariant of the points inserted.
pub proof fn law_any_order_is_valid(
    pairs: spec_fn(u32, u32) -> OrderedF32,
    config: HnswConfig,
    g: GraphState,
    order: Seq<u32>,
)
    requires
        g.adj.len() <= u32::MAX,
        forall|p: int| 0 <= p < g.adj.len() ==> (#[trigger] g.adj[p]).len() >= 1,
        forall|p: int, l: int|
            0 <= p < g.adj.len() && 0 <= l < g.adj[p].len() ==> (#[trigger] g.adj[p][l]).len() == 0,
        g.entry is None,
        order.no_duplicates(),
        forall|i: int| 0 <= i < order.len() ==> (#[trigger] order[i]) < g.adj.len(),
    ensures
        valid_with(config, inserted_all(pairs, config, g, order), order.to_set()),
        construction::same_shape(g.adj, inserted_all(pairs, config, g, order).adj),
        inserted_all(pairs, config, g, order).entry is Some <==> order.len() > 0,
    decreases order.len(),
{
    if order.len() == 0 {
        law_unlinked_is_valid(config, g);
        assert(order.to_set() =~= Set::empty());
    } else {
        let shorter = order.drop_last();
        let point = order.last();
        assert(order[order.len() - 1] == point);
        assert(shorter.no_duplicates()) by {
            assert forall|i: int, j: int|
                0 <= i < shorter.len() && 0 <= j < shorter.len() && i != j implies shorter[i]
                != shorter[j] by {
                assert(order[i] != order[j]);
            }
        }
        assert forall|i: int| 0 <= i < shorter.len() implies (#[trigger] shorter[i])
            < g.adj.len() by {
            assert(shorter[i] == order[i]);
        }
        law_any_order_is_valid(pairs, config, g, shorter);
        let before = inserted_all(pairs, config, g, shorter);
        let seen = shorter.to_set();
        assert(!seen.contains(point)) by {
            if shorter.contains(point) {
                let i = shorter.index_of(point);
                assert(order[i] != order[order.len() - 1]);
            }
        }
        law_insert_keeps_valid(pairs, config, before, point, seen);
        assert(order.to_set() =~= seen.insert(point)) by {
            assert forall|x: u32| #[trigger] order.contains(x) <==> shorter.contains(x) || x
                == point by {
                if order.contains(x) {
                    let i = order.index_of(x);
                    if i < shorter.len() {
                        assert(shorter[i] == x);
                    }
                }
                if shorter.contains(x) {
                    assert(order[shorter.index_of(x)] == x);
                }
            }
        }
    }
}

/// The graph built from unlinked points by inserting them in order satisfies every
/// structural invariant.
pub proof fn law_built_graph_is_valid(
    pairs: spec_fn(u32, u32) -> OrderedF32,
    config: HnswConfig,
    g: GraphState,
    n: nat,
)
    requires
        g.adj.len() <= u32::MAX,
        n <= g.adj.len(),
        forall|p: int| 0 <= p < g.adj.len() ==> (#[trigger] g.adj[p]).len() >= 1,
        forall|p: int, l: int|
            0 <= p < g.adj.len() && 0 <= l < g.adj[p].len() ==> (#[trigger] g.adj[p][l]).len() == 0,
        g.entry is None,
    ensures
        valid_graph(config, construction::built(pairs, config, g, n), n),
        construction::same_shape(g.adj, construction::built(pairs, config, g, n).adj),
    decreases n,
{
    let all = search::ids_below(n);
    if n == 0 {
        law_unlinked_is_valid(config, g);
        assert(all =~= Set::empty());
    } else {
        let fewer = search::ids_below((n - 1) as nat);
        law_built_graph_is_valid(pairs, config, g, (n - 1) as nat);
        let before = construction::built(pairs, config, g, (n - 1) as nat);
        law_insert_keeps_valid(pairs, config, before, (n - 1) as u32, fewer);
        assert(all =~= fewer.insert((n - 1) as u32));
        if n >= 2 {
            assert(all.contains(0u32) && all.contains(1u32));
            assert(two_seen(all));
            let built = construction::built(pairs, config, g, n);
            if connecting(config) {
                assert forall|p: int| 0 <= p < n implies (#[trigger] built.adj[p])[0].len() > 0 by {
                    assert(all.contains(p as u32));
                }
            }
        }
    }
}

} // verus!
