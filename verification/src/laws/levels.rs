//! How the layers of a graph are made up, and how concurrently grown lists come together.

use vstd::prelude::*;

use crate::distance::Kernel;
use crate::index::hnsw::builder;
use crate::index::hnsw::construction;
use crate::index::hnsw::construction::GraphState;
use crate::index::hnsw::heuristic;
use crate::index::hnsw::parallel;
use crate::index::hnsw::rng;
use crate::index::hnsw::search::Adjacency;
use crate::index::HnswConfig;
use crate::ordered::OrderedF32;

verus! {

/// A point's level is drawn from the hash of its id and the seed, and is at most sixteen.
pub proof fn law_levels_are_drawn_and_clamped<K: Kernel>(kernel: K, id: u32, seed: u64, m: nat)
    ensures
        ({
            let step = 0x9E37_79B9_7F4A_7C15u64;
            let s = (seed ^ ((id as u64).wrapping_add(1)).wrapping_mul(step)).wrapping_add(step);
            let a = (s ^ (s >> 30)).wrapping_mul(0xBF58_476D_1CE4_E5B9);
            let b = (a ^ (a >> 27)).wrapping_mul(0x94D0_49BB_1331_11EB);
            let drawn = kernel.spec_level((b ^ (b >> 31)) >> 11, m);
            &&& drawn <= 16 ==> rng::level_of(kernel, id, seed, m) == drawn
            &&& drawn > 16 ==> rng::level_of(kernel, id, seed, m) == 16
        }),
{
}

/// Before anything is inserted a point has one empty list for each layer up to its level.
pub proof fn law_unlinked_points_have_their_levels<K: Kernel>(
    kernel: K,
    config: HnswConfig,
    n: nat,
    p: int,
    l: int,
)
    requires
        0 <= p < n,
    ensures
        ({
            let adj = builder::unlinked(kernel, config, n);
            &&& adj.len() == n
            &&& adj[p].len() == 1 + rng::level_of(kernel, p as u32, config.seed, config.m as nat)
            &&& 0 <= l < adj[p].len() ==> adj[p][l].len() == 0
        }),
{
}

/// The ground layer has a degree bound of its own; all others share one.
pub proof fn law_ground_layer_has_its_own_bound(config: HnswConfig, layer: nat)
    ensures
        layer == 0 ==> config.degree_bound(layer) == config.m_max0,
        layer > 0 ==> config.degree_bound(layer) == config.m,
{
}

/// A graph is entered at the first of its points that reach the highest level, and it is as
/// high as that.
pub proof fn law_entry_is_the_first_highest_point(
    pairs: spec_fn(u32, u32) -> OrderedF32,
    config: HnswConfig,
    adj: Adjacency,
    n: nat,
)
    requires
        construction::well_linked(config, adj),
        n <= adj.len(),
    ensures
        ({
            let g = construction::built(
                pairs,
                config,
                GraphState { adj, entry: None, top: 0 },
                n,
            );
            &&& n == 0 ==> g.entry is None
            &&& n > 0 ==> {
                &&& g.entry is Some
                &&& g.entry->0 < n
                &&& adj[g.entry->0 as int].len() == g.top + 1
                &&& forall|p: int| 0 <= p < n ==> (#[trigger] adj[p]).len() <= g.top + 1
                &&& forall|p: int| 0 <= p < g.entry->0 ==> (#[trigger] adj[p]).len() <= g.top
            }
        }),
{
    lemma_entry(pairs, config, adj, n);
}

proof fn lemma_entry(
    pairs: spec_fn(u32, u32) -> OrderedF32,
    config: HnswConfig,
    adj: Adjacency,
    n: nat,
)
    requires
        construction::well_linked(config, adj),
        n <= adj.len(),
    ensures
        ({
            let g = construction::built(
                pairs,
                config,
                GraphState { adj, entry: None, top: 0 },
                n,
            );
            &&& construction::well_linked(config, g.adj)
            &&& construction::entry_ok(g)
            &&& construction::same_shape(adj, g.adj)
            &&& n == 0 ==> g.entry is None
            &&& n > 0 ==> {
                &&& g.entry is Some
                &&& g.entry->0 < n
                &&& adj[g.entry->0 as int].len() == g.top + 1
                &&& forall|p: int| 0 <= p < n ==> (#[trigger] adj[p]).len() <= g.top + 1
                &&& forall|p: int| 0 <= p < g.entry->0 ==> (#[trigger] adj[p]).len() <= g.top
            }
        }),
    decreases n,
{
    let start = GraphState { adj, entry: None, top: 0 };
    if n > 0 {
        let m = (n - 1) as nat;
        lemma_entry(pairs, config, adj, m);
        let before = construction::built(pairs, config, start, m);
        construction::law_insert_keeps_well_linked(pairs, config, before, m as u32);
        let g = construction::built(pairs, config, start, n);
        assert(g == construction::inserted(pairs, config, before, m as u32));
        assert(adj[m as int].len() == before.adj[m as int].len());
        assert(adj[m as int].len() >= 1);
    }
}

/// Every point is inserted in the order of its id, each into the graph of those before it.
pub proof fn law_points_are_inserted_in_order(
    pairs: spec_fn(u32, u32) -> OrderedF32,
    config: HnswConfig,
    g: GraphState,
    n: nat,
)
    ensures
        construction::built(pairs, config, g, 0) == g,
        construction::built(pairs, config, g, n + 1) == construction::inserted(
            pairs,
            config,
            construction::built(pairs, config, g, n),
            n as u32,
        ),
{
}

/// Merging what was selected into a list keeps the list, in place, and adds each selected id
/// that it did not hold, once, in the order of selection.
pub proof fn law_merging_adds_what_is_missing(list: Seq<u32>, selected: Seq<u32>)
    ensures
        ({
            let all = parallel::merged(list, selected);
            &&& all.len() >= list.len()
            &&& all.take(list.len() as int) == list
            &&& forall|x: u32| #[trigger]
                all.contains(x) <==> list.contains(x) || selected.contains(x)
            &&& list.no_duplicates() ==> all.no_duplicates()
        }),
        list.no_duplicates() && selected.no_duplicates() ==> parallel::merged(list, selected)
            == list + selected.filter(|x: u32| !list.contains(x)),
    decreases selected.len(),
{
    reveal(Seq::filter);
    let all = parallel::merged(list, selected);
    let missing = |x: u32| !list.contains(x);
    if selected.len() == 0 {
        assert(all.take(list.len() as int) =~= list);
        assert(list + selected.filter(missing) =~= list);
    } else {
        let rest = selected.drop_last();
        let last = selected.last();
        law_merging_adds_what_is_missing(list, rest);
        let before = parallel::merged(list, rest);
        assert forall|x: u32| #[trigger] all.contains(x) <==> list.contains(x)
            || selected.contains(x) by {
            if all.contains(x) {
                let i = all.index_of(x);
                if i < before.len() {
                    assert(before[i] == x);
                    assert(before.contains(x));
                    if rest.contains(x) {
                        assert(selected[rest.index_of(x)] == x);
                    }
                } else {
                    assert(selected[selected.len() - 1] == x);
                }
            }
            if list.contains(x) || selected.contains(x) {
                if selected.contains(x) && selected.index_of(x) < rest.len() {
                    assert(rest[selected.index_of(x)] == x);
                }
                if before.contains(x) {
                    assert(all[before.index_of(x)] == x);
                } else {
                    assert(x == last);
                    assert(all[before.len() as int] == x);
                }
            }
        }
        assert(all.take(list.len() as int) =~= before.take(list.len() as int));
        if list.no_duplicates() && selected.no_duplicates() {
            assert(rest.no_duplicates());
            assert(!rest.contains(last)) by {
                if rest.contains(last) {
                    let i = rest.index_of(last);
                    assert(selected[i] == selected[selected.len() - 1]);
                }
            }
            if missing(last) {
                assert(!before.contains(last));
                assert(all =~= list + selected.filter(missing));
            } else {
                assert(before.contains(last));
            }
        }
    }
}

/// A list that has outgrown its bound is cut to the best of it; one that has not stays.
pub proof fn law_lists_are_cut_only_when_full(
    pairs: spec_fn(u32, u32) -> OrderedF32,
    config: HnswConfig,
    base: u32,
    layer: nat,
    list: Seq<u32>,
)
    ensures
        ({
            let bound = if layer == 0 {
                config.m_max0 as nat
            } else {
                config.m as nat
            };
            &&& list.len() <= bound ==> parallel::rebounded(pairs, config, base, layer, list)
                == list
            &&& list.len() > bound ==> parallel::rebounded(pairs, config, base, layer, list)
                == heuristic::selection(
                pairs,
                base,
                heuristic::ranked_to(pairs, base, list),
                bound,
                config.keep_pruned,
            )
        }),
{
}

} // verus!
