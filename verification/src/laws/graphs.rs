//! What a search of a whole graph finds.

use vstd::prelude::*;

use crate::index::hnsw::construction;
use crate::index::hnsw::construction::GraphState;
use crate::index::hnsw::graph;
use crate::index::hnsw::search;
use crate::index::hnsw::search::Adjacency;
use crate::index::hnsw::search::LayerQuery;
use crate::laws::beams;
use crate::ordered::OrderedF32;
use crate::ranking::Ranked;

verus! {

/// A point with its badness.
pub open spec fn ranked_at(dist: spec_fn(u32) -> OrderedF32, id: u32) -> Ranked {
    Ranked { badness: dist(id), id: id as u64 }
}

/// Every admitted point can be reached on the ground layer, wherever a search starts.
pub open spec fn connected(adj: Adjacency, keeps: spec_fn(u32) -> bool) -> bool {
    forall|from: u32, to: u32|
        from < adj.len() && to < adj.len() && keeps(to) ==> #[trigger] beams::reaches(
            adj,
            0,
            from,
            to,
        )
}

/// Neighbor lists of a linked graph name existing points only.
pub proof fn lemma_linked_within(adj: Adjacency, layer: nat)
    requires
        construction::linked(adj),
    ensures
        beams::within(adj, layer),
{
    assert forall|p: u32, n: u32| #[trigger] beams::lists(adj, layer, p, n) implies n
        < adj.len() by {
        let list = adj[p as int][layer as int];
        let i = list.index_of(n);
        assert(construction::present_on(adj, layer).contains(adj[p as int][layer as int][i]));
    }
}

/// Asking for fewer results gives the first ones: a search for `k` returns a prefix of what
/// the same search for more returns, as long as it may be. The best are kept.
pub proof fn law_fewer_results_are_the_first(
    g: GraphState,
    dist: spec_fn(u32) -> OrderedF32,
    keeps: spec_fn(u32) -> bool,
    k: nat,
    more: nat,
    ef: nat,
)
    requires
        k <= more,
    ensures
        ({
            let few = graph::graph_search(g, dist, keeps, k, ef);
            let many = graph::graph_search(g, dist, keeps, more, ef);
            &&& few.len() == if many.len() <= k {
                many.len()
            } else {
                k
            }
            &&& few == many.take(few.len() as int)
        }),
{
    let few = graph::graph_search(g, dist, keeps, k, ef);
    let many = graph::graph_search(g, dist, keeps, more, ef);
    assert(few =~= many.take(few.len() as int));
}

/// What a search leaves out ranks after what it returns: where the same search for more
/// returns a point that this one does not, every returned point ranks before it.
pub proof fn law_left_out_ranks_after(
    g: GraphState,
    dist: spec_fn(u32) -> OrderedF32,
    keeps: spec_fn(u32) -> bool,
    k: nat,
    more: nat,
    ef: nat,
    r: Ranked,
    i: int,
)
    requires
        construction::linked(g.adj),
        construction::entry_ok(g),
        graph::graph_search(g, dist, keeps, more, ef).contains(r),
        !graph::graph_search(g, dist, keeps, k, ef).contains(r),
        0 <= i < graph::graph_search(g, dist, keeps, k, ef).len(),
        k <= more,
    ensures
        graph::graph_search(g, dist, keeps, k, ef)[i].before(r),
{
    let few = graph::graph_search(g, dist, keeps, k, ef);
    let many = graph::graph_search(g, dist, keeps, more, ef);
    law_fewer_results_are_the_first(g, dist, keeps, k, more, ef);
    graph::law_graph_search(g, dist, keeps, more, ef);
    let p = many.index_of(r);
    if p < few.len() {
        assert(few[p] == many.take(few.len() as int)[p]);
        assert(few.contains(r));
    }
    assert(few[i] == many.take(few.len() as int)[i]);
    assert(!many[p].before(many[i]));
    assert(many[i].id != many[p].id);
}

/// A search ends at a local best: every admitted neighbor, on the ground layer, of a point
/// it finds is found too, unless the beam is full of points that are no farther.
pub proof fn law_graph_search_is_locally_best(
    g: GraphState,
    dist: spec_fn(u32) -> OrderedF32,
    keeps: spec_fn(u32) -> bool,
    k: nat,
    ef: nat,
    id: u32,
    neighbor: u32,
)
    requires
        construction::linked(g.adj),
        construction::entry_ok(g),
        k >= ef,
        graph::graph_search(g, dist, keeps, k, ef).contains(ranked_at(dist, id)),
        beams::lists(g.adj, 0, id, neighbor),
        keeps(neighbor),
    ensures
        ({
            let found = graph::graph_search(g, dist, keeps, k, ef);
            ||| found.contains(ranked_at(dist, neighbor))
            ||| found.len() == ef && forall|i: int|
                0 <= i < found.len() ==> (#[trigger] found[i]).badness.key <= dist(neighbor).key
        }),
{
    let entry = g.entry->0;
    construction::lemma_descend(g.adj, dist, entry, g.top, 0);
    let near = construction::descend(g.adj, dist, entry, g.top, 0);
    assert(construction::present_on(g.adj, 0).contains(near));
    let q = LayerQuery { adj: g.adj, layer: 0, ef, dist, keeps };
    lemma_linked_within(g.adj, 0);
    graph::law_graph_search(g, dist, keeps, k, ef);
    construction::lemma_layer_closed(g.adj, 0);
    assert forall|i: int| 0 <= i < seq![near].len() implies search::ids_below(
        g.adj.len(),
    ).contains(#[trigger] seq![near][i]) by {}
    search::law_layer_search(q, seq![near], search::ids_below(g.adj.len()));
    assert(graph::graph_search(g, dist, keeps, k, ef) == search::layer_search(q, seq![near]));
    assert(beams::at_its_badness(q, id) == ranked_at(dist, id));
    assert(beams::at_its_badness(q, neighbor) == ranked_at(dist, neighbor));
    beams::law_beam_is_locally_best(q, seq![near], id, neighbor);
}

/// A greedy step ends at a local best, no farther than it started.
pub proof fn law_greedy_step_goes_downhill(
    adj: Adjacency,
    layer: nat,
    dist: spec_fn(u32) -> OrderedF32,
    from: u32,
    neighbor: u32,
)
    requires
        construction::linked(adj),
        construction::present_on(adj, layer).contains(from),
    ensures
        dist(construction::closest_on(adj, layer, dist, from)).key <= dist(from).key,
        beams::lists(adj, layer, construction::closest_on(adj, layer, dist, from), neighbor)
            ==> dist(construction::closest_on(adj, layer, dist, from)).key <= dist(neighbor).key,
{
    let q = LayerQuery { adj, layer, ef: 1, dist, keeps: search::keeps_all() };
    lemma_linked_within(adj, layer);
    let entries = seq![from];
    assert(entries[0] == from);
    let found = search::layer_search(q, entries);
    beams::law_beam_accounts_for_entries(q, entries, 0);
    construction::lemma_layer_closed(adj, layer);
    assert forall|i: int| 0 <= i < entries.len() implies search::ids_below(adj.len()).contains(
        #[trigger] entries[i],
    ) by {}
    search::law_layer_search(q, entries, search::ids_below(adj.len()));
    let r = construction::closest_on(adj, layer, dist, from);
    if found.contains(beams::at_its_badness(q, from)) {
        let i = found.index_of(beams::at_its_badness(q, from));
        assert(i == 0);
    }
    assert(found[0] == beams::at_its_badness(q, r));
    assert(found.contains(beams::at_its_badness(q, r)));
    if beams::lists(adj, layer, r, neighbor) {
        beams::law_beam_is_locally_best(q, entries, r, neighbor);
        if found.contains(beams::at_its_badness(q, neighbor)) {
            let i = found.index_of(beams::at_its_badness(q, neighbor));
            assert(i == 0);
        }
    }
}

/// The descent through the upper layers only comes closer, and on the last layer it visits
/// it ends at a point none of whose neighbors is closer.
pub proof fn law_descent_goes_downhill(
    adj: Adjacency,
    dist: spec_fn(u32) -> OrderedF32,
    from: u32,
    layer: nat,
    stop: nat,
    neighbor: u32,
)
    requires
        construction::linked(adj),
        construction::present_on(adj, layer).contains(from),
    ensures
        dist(construction::descend(adj, dist, from, layer, stop)).key <= dist(from).key,
        layer > stop && beams::lists(
            adj,
            stop + 1,
            construction::descend(adj, dist, from, layer, stop),
            neighbor,
        ) ==> dist(construction::descend(adj, dist, from, layer, stop)).key <= dist(neighbor).key,
        layer <= stop ==> construction::descend(adj, dist, from, layer, stop) == from,
    decreases layer,
{
    if layer > stop {
        law_greedy_step_goes_downhill(adj, layer, dist, from, neighbor);
        construction::lemma_closest_on(adj, layer, dist, from);
        let next = construction::closest_on(adj, layer, dist, from);
        let entries = seq![next];
        assert(entries[0] == next);
        construction::lemma_present_below(adj, entries, layer, (layer - 1) as nat);
        assert(construction::present_on(adj, (layer - 1) as nat).contains(entries[0]));
        law_descent_goes_downhill(adj, dist, next, (layer - 1) as nat, stop, neighbor);
    }
}

/// A search that admits everything finds a point at least as close as the graph's entry.
pub proof fn law_graph_search_improves_on_the_entry(
    g: GraphState,
    dist: spec_fn(u32) -> OrderedF32,
    keeps: spec_fn(u32) -> bool,
    k: nat,
    ef: nat,
    entry: u32,
)
    requires
        construction::linked(g.adj),
        construction::entry_ok(g),
        g.entry == Some(entry),
        forall|id: u32| #[trigger] keeps(id),
        k >= 1,
        ef >= 1,
    ensures
        graph::graph_search(g, dist, keeps, k, ef).len() >= 1,
        graph::graph_search(g, dist, keeps, k, ef)[0].badness.key <= dist(entry).key,
{
    construction::lemma_descend(g.adj, dist, entry, g.top, 0);
    assert(construction::present_on(g.adj, g.top).contains(entry));
    law_descent_goes_downhill(g.adj, dist, entry, g.top, 0, entry);
    let near = construction::descend(g.adj, dist, entry, g.top, 0);
    assert(construction::present_on(g.adj, 0).contains(near));
    let q = LayerQuery { adj: g.adj, layer: 0, ef, dist, keeps };
    let entries = seq![near];
    assert(entries[0] == near);
    lemma_linked_within(g.adj, 0);
    beams::law_beam_accounts_for_entries(q, entries, 0);
    construction::lemma_layer_closed(g.adj, 0);
    assert forall|i: int| 0 <= i < entries.len() implies search::ids_below(g.adj.len()).contains(
        #[trigger] entries[i],
    ) by {}
    search::law_layer_search(q, entries, search::ids_below(g.adj.len()));
    let found = search::layer_search(q, entries);
    if found.contains(beams::at_its_badness(q, near)) {
        let i = found.index_of(beams::at_its_badness(q, near));
        if i > 0 {
            assert(!found[i].before(found[0]));
        }
    }
}

/// A search whose beam is at least as wide as there are admitted points, in a graph where
/// all of them can be reached, is exact: it returns `k` points, or all where there are
/// fewer, and every returned point ranks before every admitted point that is left out.
pub proof fn law_wide_graph_search_is_exact(
    g: GraphState,
    dist: spec_fn(u32) -> OrderedF32,
    keeps: spec_fn(u32) -> bool,
    k: nat,
    ef: nat,
)
    requires
        construction::linked(g.adj),
        construction::entry_ok(g),
        g.entry is Some,
        connected(g.adj, keeps),
        beams::admitted_points(g.adj.len(), keeps).len() <= ef,
    ensures
        ({
            let found = graph::graph_search(g, dist, keeps, k, ef);
            let admitted = beams::admitted_points(g.adj.len(), keeps);
            &&& found.len() == if admitted.len() <= k {
                admitted.len()
            } else {
                k
            }
            &&& forall|id: u32|
                id < g.adj.len() && #[trigger] keeps(id) ==> {
                    ||| found.contains(ranked_at(dist, id))
                    ||| found.len() == k && forall|i: int|
                        0 <= i < found.len() ==> (#[trigger] found[i]).before(ranked_at(dist, id))
                }
        }),
{
    let entry = g.entry->0;
    construction::lemma_descend(g.adj, dist, entry, g.top, 0);
    let near = construction::descend(g.adj, dist, entry, g.top, 0);
    assert(construction::present_on(g.adj, 0).contains(near));
    let q = LayerQuery { adj: g.adj, layer: 0, ef, dist, keeps };
    let entries = seq![near];
    assert(entries[0] == near);
    lemma_linked_within(g.adj, 0);
    construction::lemma_layer_closed(g.adj, 0);
    let region = search::ids_below(g.adj.len());
    assert forall|i: int| 0 <= i < entries.len() implies region.contains(#[trigger] entries[i]) by {}
    search::law_layer_search(q, entries, region);
    let all = search::layer_search(q, entries);
    let admitted = beams::admitted_points(g.adj.len(), keeps);
    let found = graph::graph_search(g, dist, keeps, k, ef);
    assert forall|id: u32| id < g.adj.len() && #[trigger] keeps(id) implies all.contains(
        ranked_at(dist, id),
    ) by {
        assert(beams::reaches(g.adj, 0, near, id));
        assert(beams::at_its_badness(q, id) == ranked_at(dist, id));
        beams::law_wide_beam_finds_everything(q, entries, near, id);
    }
    lemma_all_admitted(q, all);
    assert forall|id: u32| id < g.adj.len() && #[trigger] keeps(id) implies {
        ||| found.contains(ranked_at(dist, id))
        ||| found.len() == k && forall|i: int|
            0 <= i < found.len() ==> (#[trigger] found[i]).before(ranked_at(dist, id))
    } by {
        let r = ranked_at(dist, id);
        assert(all.contains(r));
        let p = all.index_of(r);
        if p < found.len() {
            assert(found[p] == all[p]);
            assert(found.contains(r));
        } else {
            assert forall|i: int| 0 <= i < found.len() implies (#[trigger] found[i]).before(r) by {
                assert(found[i] == all[i]);
                assert(!all[p].before(all[i]));
                assert(all[i].id != all[p].id);
            }
        }
    }
}

/// Results that hold every admitted point are as many as there are.
proof fn lemma_all_admitted(q: LayerQuery, all: Seq<Ranked>)
    requires
        search::results_ok(q, all, search::ids_below(q.adj.len())),
        forall|id: u32|
            id < q.adj.len() && #[trigger] (q.keeps)(id) ==> all.contains(ranked_at(q.dist, id)),
    ensures
        all.len() == beams::admitted_points(q.adj.len(), q.keeps).len(),
{
    let points = beams::admitted_points(q.adj.len(), q.keeps);
    beams::lemma_admitted_finite(q.adj.len(), q.keeps);
    let ids = Seq::new(all.len(), |i: int| all[i].id as u32);
    assert(ids.no_duplicates()) by {
        assert forall|i: int, j: int|
            0 <= i < ids.len() && 0 <= j < ids.len() && i != j implies ids[i] != ids[j] by {
            if i < j {
                assert(all[i].id != all[j].id);
            } else {
                assert(all[j].id != all[i].id);
            }
        }
    }
    ids.unique_seq_to_set();
    assert(ids.to_set() =~= points) by {
        assert forall|x: u32| ids.to_set().contains(x) implies points.contains(x) by {
            let i = ids.index_of(x);
            assert(all[i].id == x);
        }
        assert forall|x: u32| points.contains(x) implies ids.to_set().contains(x) by {
            let i = all.index_of(ranked_at(q.dist, x));
            assert(ids[i] == x);
        }
    }
}

} // verus!
