//! What neighbor selection chooses, and what an insertion changes in a graph.

use vstd::prelude::*;

use crate::index::hnsw::config::HnswConfig;
use crate::index::hnsw::construction;
use crate::index::hnsw::construction::GraphState;
use crate::index::hnsw::heuristic;
use crate::index::hnsw::invariants;
use crate::index::hnsw::search;
use crate::index::hnsw::search::Adjacency;
use crate::index::hnsw::search::LayerQuery;
use crate::laws::beams;
use crate::laws::graphs;
use crate::ordered::OrderedF32;
use crate::ranking;
use crate::ranking::Ranked;

verus! {

/// The places, in a ranked list, of what was chosen and of what was passed over.
spec fn picked_at(
    pairs: spec_fn(u32, u32) -> OrderedF32,
    s: Seq<Ranked>,
    m: nat,
    picks: heuristic::Picks,
    c: Seq<int>,
    p: Seq<int>,
) -> bool {
    &&& picks.chosen.len() <= m
    &&& c.len() == picks.chosen.len()
    &&& p.len() == picks.pruned.len()
    &&& forall|i: int|
        0 <= i < c.len() ==> 0 <= #[trigger] c[i] < s.len() && picks.chosen[i] == s[c[i]].id as u32
    &&& forall|i: int|
        0 <= i < p.len() ==> 0 <= #[trigger] p[i] < s.len() && picks.pruned[i] == s[p[i]].id as u32
    &&& forall|i: int, j: int| 0 <= i < j < c.len() ==> #[trigger] c[i] < #[trigger] c[j]
    &&& forall|i: int, j: int| 0 <= i < j < p.len() ==> #[trigger] p[i] < #[trigger] p[j]
    &&& forall|i: int, j: int|
        0 <= i < j < c.len() && 0 <= #[trigger] c[i] ==> !pairs(
            picks.chosen[j],
            picks.chosen[i],
        ).numerically_below(s[#[trigger] c[j]].badness)
    &&& forall|j: int| 0 <= j < p.len() ==> crowded_out(pairs, s, picks.chosen, c, #[trigger] p[j])
    &&& forall|x: int|
        0 <= x < s.len() ==> #[trigger] c.contains(x) || p.contains(x) || (picks.chosen.len() == m
            && forall|i: int| 0 <= i < c.len() ==> #[trigger] c[i] < x)
}

/// Whether a candidate is closer to an earlier chosen neighbor than to the base.
spec fn crowded_out(
    pairs: spec_fn(u32, u32) -> OrderedF32,
    s: Seq<Ranked>,
    chosen: Seq<u32>,
    c: Seq<int>,
    x: int,
) -> bool {
    exists|i: int|
        0 <= i < c.len() && #[trigger] c[i] < x && pairs(s[x].id as u32, chosen[i]).numerically_below(
            s[x].badness,
        )
}

proof fn lemma_picks(pairs: spec_fn(u32, u32) -> OrderedF32, s: Seq<Ranked>, m: nat) -> (places: (
    Seq<int>,
    Seq<int>,
))
    ensures
        picked_at(pairs, s, m, heuristic::pick_all(pairs, s, m), places.0, places.1),
    decreases s.len(),
{
    if s.len() == 0 {
        (Seq::empty(), Seq::empty())
    } else {
        let t = s.drop_last();
        let r = s.last();
        let last = s.len() - 1;
        let (c, p) = lemma_picks(pairs, t, m);
        let b = heuristic::pick_all(pairs, t, m);
        let a = heuristic::pick_all(pairs, s, m);
        assert(forall|i: int| 0 <= i < t.len() ==> t[i] == s[i]);
        assert forall|j: int| 0 <= j < p.len() implies crowded_out(
            pairs,
            s,
            b.chosen,
            c,
            #[trigger] p[j],
        ) by {
            assert(crowded_out(pairs, t, b.chosen, c, p[j]));
            let i = choose|i: int|
                0 <= i < c.len() && #[trigger] c[i] < p[j] && pairs(
                    t[p[j]].id as u32,
                    b.chosen[i],
                ).numerically_below(t[p[j]].badness);
            assert(c[i] < p[j]);
        }
        if b.chosen.len() >= m {
            assert forall|x: int| 0 <= x < s.len() implies #[trigger] c.contains(x) || p.contains(x)
                || (a.chosen.len() == m && forall|i: int|
                0 <= i < c.len() ==> #[trigger] c[i] < x) by {
                if x < last {
                    let held = c.contains(x);
                }
            }
            (c, p)
        } else if heuristic::diverse(pairs, b.chosen, r) {
            let d = c.push(last);
            assert forall|j: int| 0 <= j < p.len() implies crowded_out(
                pairs,
                s,
                a.chosen,
                d,
                #[trigger] p[j],
            ) by {
                let i = choose|i: int|
                    0 <= i < c.len() && #[trigger] c[i] < p[j] && pairs(
                        s[p[j]].id as u32,
                        b.chosen[i],
                    ).numerically_below(s[p[j]].badness);
                assert(d[i] < p[j] && a.chosen[i] == b.chosen[i]);
            }
            assert forall|x: int| 0 <= x < s.len() implies #[trigger] d.contains(x) || p.contains(x)
                || (a.chosen.len() == m && forall|i: int|
                0 <= i < d.len() ==> #[trigger] d[i] < x) by {
                if x < last {
                    if c.contains(x) {
                        assert(d[c.index_of(x)] == x);
                    }
                } else {
                    assert(d[c.len() as int] == x);
                }
            }
            assert forall|i: int, j: int|
                0 <= i < j < d.len() && 0 <= #[trigger] d[i] implies !pairs(
                a.chosen[j],
                a.chosen[i],
            ).numerically_below(s[#[trigger] d[j]].badness) by {
                assert(a.chosen[i] == b.chosen[i]);
                if j < c.len() {
                    assert(c[i] < c[j]);
                    assert(a.chosen[j] == b.chosen[j]);
                }
            }
            (d, p)
        } else {
            let e = p.push(last);
            let i = choose|i: int|
                0 <= i < b.chosen.len() && pairs(
                    r.id as u32,
                    #[trigger] b.chosen[i],
                ).numerically_below(r.badness);
            assert(c[i] < last);
            assert(crowded_out(pairs, s, a.chosen, c, last));
            assert forall|j: int| 0 <= j < e.len() implies crowded_out(
                pairs,
                s,
                a.chosen,
                c,
                #[trigger] e[j],
            ) by {
                if j < p.len() {
                    assert(e[j] == p[j]);
                }
            }
            assert forall|x: int| 0 <= x < s.len() implies #[trigger] c.contains(x) || e.contains(x)
                || (a.chosen.len() == m && forall|i: int|
                0 <= i < c.len() ==> #[trigger] c[i] < x) by {
                if x < last {
                    let held = c.contains(x);
                    if p.contains(x) {
                        assert(e[p.index_of(x)] == x);
                    }
                } else {
                    assert(e[p.len() as int] == x);
                }
            }
            (c, e)
        }
    }
}

/// The candidates of a selection are ranked strictly.
proof fn lemma_ranked(candidates: Seq<Ranked>, base: u32)
    requires
        heuristic::distinct_ids(candidates),
        forall|i: int| 0 <= i < candidates.len() ==> (#[trigger] candidates[i]).id <= u32::MAX,
    ensures
        ({
            let s = ranking::sort_ranked(heuristic::without(candidates, base));
            &&& heuristic::distinct_ids(s)
            &&& forall|i: int| 0 <= i < s.len() ==> (#[trigger] s[i]).id <= u32::MAX
            &&& forall|r: Ranked| #[trigger]
                s.contains(r) <==> candidates.contains(r) && r.id != base
            &&& forall|i: int, j: int|
                0 <= i < j < s.len() ==> (#[trigger] s[i]).before(#[trigger] s[j])
        }),
{
    let w = heuristic::without(candidates, base);
    let s = ranking::sort_ranked(w);
    heuristic::lemma_without(candidates, base);
    ranking::law_sort_ranked(w);
    heuristic::lemma_sort_distinct(w);
    assert forall|r: Ranked| #[trigger] s.contains(r) <==> candidates.contains(r) && r.id
        != base by {
        assert(w.contains(r) <==> candidates.contains(r) && r.id != base);
    }
    assert forall|i: int| 0 <= i < s.len() implies (#[trigger] s[i]).id <= u32::MAX by {
        assert(s.contains(s[i]));
        let k = candidates.index_of(s[i]);
        assert(candidates[k].id <= u32::MAX);
    }
    assert forall|i: int, j: int| 0 <= i < j < s.len() implies (#[trigger] s[i]).before(
        #[trigger] s[j],
    ) by {
        assert(!s[j].before(s[i]));
        assert(s[i].id != s[j].id);
    }
}

/// Neighbors are selected closest first, for diversity: of two chosen neighbors the closer
/// comes first, and the farther is not closer to it than to the base. A candidate is passed
/// over only if enough closer ones were chosen, or if a closer chosen one is closer to it
/// than the base is.
pub proof fn law_selection_is_closest_and_diverse(
    pairs: spec_fn(u32, u32) -> OrderedF32,
    base: u32,
    candidates: Seq<Ranked>,
    m: nat,
)
    requires
        heuristic::distinct_ids(candidates),
        forall|i: int| 0 <= i < candidates.len() ==> (#[trigger] candidates[i]).id <= u32::MAX,
    ensures
        ({
            let chosen = heuristic::selection(pairs, base, candidates, m, false);
            &&& forall|i: int, j: int, a: Ranked, b: Ranked|
                0 <= i < j < chosen.len() && #[trigger] candidates.contains(a)
                    && #[trigger] candidates.contains(b) && a.id == #[trigger] chosen[i] && b.id
                    == #[trigger] chosen[j] ==> a.before(b) && !pairs(
                    chosen[j],
                    chosen[i],
                ).numerically_below(b.badness)
            &&& forall|c: Ranked| #[trigger]
                candidates.contains(c) && c.id != base && !chosen.contains(c.id as u32) ==> {
                    ||| chosen.len() == m && forall|i: int, a: Ranked|
                        0 <= i < chosen.len() && #[trigger] candidates.contains(a) && a.id
                            == #[trigger] chosen[i] ==> a.before(c)
                    ||| exists|i: int, a: Ranked|
                        0 <= i < chosen.len() && #[trigger] candidates.contains(a) && a.id
                            == #[trigger] chosen[i] && a.before(c) && pairs(
                            c.id as u32,
                            chosen[i],
                        ).numerically_below(c.badness)
                }
        }),
{
    let s = ranking::sort_ranked(heuristic::without(candidates, base));
    lemma_ranked(candidates, base);
    let (c, p) = lemma_picks(pairs, s, m);
    let picks = heuristic::pick_all(pairs, s, m);
    let chosen = picks.chosen;
    heuristic::law_selection(pairs, base, candidates, m, false);
    assert forall|i: int, a: Ranked| 0 <= i < chosen.len() && #[trigger] s.contains(a) && a.id
        == #[trigger] chosen[i] implies a == s[c[i]] by {
        lemma_same_place(s, c[i], a);
    }
    assert forall|i: int, j: int, a: Ranked, b: Ranked|
        0 <= i < j < chosen.len() && #[trigger] candidates.contains(a)
            && #[trigger] candidates.contains(b) && a.id == #[trigger] chosen[i] && b.id
            == #[trigger] chosen[j] implies a.before(b) && !pairs(
        chosen[j],
        chosen[i],
    ).numerically_below(b.badness) by {
        assert(s.contains(a) && s.contains(b));
        assert(a == s[c[i]] && b == s[c[j]]);
        assert(c[i] < c[j]);
    }
    assert forall|r: Ranked| #[trigger]
        candidates.contains(r) && r.id != base && !chosen.contains(r.id as u32) implies {
        ||| chosen.len() == m && forall|i: int, a: Ranked|
            0 <= i < chosen.len() && #[trigger] candidates.contains(a) && a.id
                == #[trigger] chosen[i] ==> a.before(r)
        ||| exists|i: int, a: Ranked|
            0 <= i < chosen.len() && #[trigger] candidates.contains(a) && a.id
                == #[trigger] chosen[i] && a.before(r) && pairs(
                r.id as u32,
                chosen[i],
            ).numerically_below(r.badness)
    } by {
        assert(s.contains(r));
        let x = s.index_of(r);
        if c.contains(x) {
            let i = c.index_of(x);
            assert(chosen[i] == s[c[i]].id as u32);
            assert(chosen.contains(r.id as u32));
        }
        if p.contains(x) {
            let j = p.index_of(x);
            assert(crowded_out(pairs, s, chosen, c, p[j]));
            let i = choose|i: int|
                0 <= i < c.len() && #[trigger] c[i] < x && pairs(
                    s[x].id as u32,
                    chosen[i],
                ).numerically_below(s[x].badness);
            let a = s[c[i]];
            assert(s.contains(a));
            assert(candidates.contains(a) && a.id == chosen[i] && a.before(r));
        } else {
            assert forall|i: int, a: Ranked|
                0 <= i < chosen.len() && #[trigger] candidates.contains(a) && a.id
                    == #[trigger] chosen[i] implies a.before(r) by {
                assert(a.id != base) by {
                    assert(chosen[i] != base);
                }
                assert(s.contains(a));
                assert(a == s[c[i]]);
                assert(c[i] < x);
            }
        }
    }
}

/// In a list of distinct ids, an entry is found by its id.
proof fn lemma_same_place(s: Seq<Ranked>, x: int, a: Ranked)
    requires
        heuristic::distinct_ids(s),
        0 <= x < s.len(),
        s.contains(a),
        a.id <= u32::MAX,
        s[x].id <= u32::MAX,
        a.id as u32 == s[x].id as u32,
    ensures
        a == s[x],
{
    let y = s.index_of(a);
    if x < y {
        assert(s[x].id != s[y].id);
    }
    if y < x {
        assert(s[y].id != s[x].id);
    }
}

/// Topping a selection up keeps what was chosen for diversity, first and in order, and adds
/// the closest of the others: none that is left out ranks before one that was added.
pub proof fn law_topping_up_adds_the_closest(
    pairs: spec_fn(u32, u32) -> OrderedF32,
    base: u32,
    candidates: Seq<Ranked>,
    m: nat,
)
    requires
        heuristic::distinct_ids(candidates),
        forall|i: int| 0 <= i < candidates.len() ==> (#[trigger] candidates[i]).id <= u32::MAX,
    ensures
        ({
            let chosen = heuristic::selection(pairs, base, candidates, m, false);
            let topped = heuristic::selection(pairs, base, candidates, m, true);
            &&& topped.len() >= chosen.len()
            &&& topped.take(chosen.len() as int) == chosen
            &&& forall|i: int, a: Ranked, c: Ranked|
                chosen.len() <= i < topped.len() && #[trigger] candidates.contains(a)
                    && #[trigger] candidates.contains(c) && a.id == #[trigger] topped[i] && c.id
                    != base && !topped.contains(c.id as u32) ==> a.before(c)
        }),
{
    let s = ranking::sort_ranked(heuristic::without(candidates, base));
    lemma_ranked(candidates, base);
    let (c, p) = lemma_picks(pairs, s, m);
    let picks = heuristic::pick_all(pairs, s, m);
    let chosen = picks.chosen;
    let topped = heuristic::selection(pairs, base, candidates, m, true);
    heuristic::law_selection(pairs, base, candidates, m, true);
    assert(topped.take(chosen.len() as int) =~= chosen);
    assert forall|i: int, a: Ranked, r: Ranked|
        chosen.len() <= i < topped.len() && #[trigger] candidates.contains(a)
            && #[trigger] candidates.contains(r) && a.id == #[trigger] topped[i] && r.id != base
            && !topped.contains(r.id as u32) implies a.before(r) by {
        let u = i - chosen.len();
        assert(topped[i] == picks.pruned[u]);
        assert(topped[i] != base);
        assert(s.contains(a) && s.contains(r));
        let x = s.index_of(r);
        assert(chosen.len() < m);
        if c.contains(x) {
            let k = c.index_of(x);
            assert(chosen[k] == s[c[k]].id as u32);
            assert(topped[k] == r.id as u32);
            assert(topped.contains(r.id as u32));
        }
        assert(p.contains(x));
        let w = p.index_of(x);
        assert(picks.pruned[w] == r.id as u32);
        if w <= u {
            assert(topped[chosen.len() + w] == r.id as u32);
            assert(topped.contains(r.id as u32));
        }
        lemma_same_place(s, p[u], a);
        assert(p[u] < p[w]);
    }
}

/// The closest candidate is always selected, and first.
pub proof fn law_closest_candidate_is_selected(
    pairs: spec_fn(u32, u32) -> OrderedF32,
    base: u32,
    candidates: Seq<Ranked>,
    m: nat,
    keep_pruned: bool,
    c: Ranked,
)
    requires
        heuristic::distinct_ids(candidates),
        forall|i: int| 0 <= i < candidates.len() ==> (#[trigger] candidates[i]).id <= u32::MAX,
        m >= 1,
        candidates.contains(c),
        c.id != base,
        forall|r: Ranked| #[trigger]
            candidates.contains(r) && r.id != base && r != c ==> c.before(r),
    ensures
        heuristic::selection(pairs, base, candidates, m, keep_pruned).len() > 0,
        heuristic::selection(pairs, base, candidates, m, keep_pruned)[0] == c.id,
{
    let s = ranking::sort_ranked(heuristic::without(candidates, base));
    lemma_ranked(candidates, base);
    let (places, passed) = lemma_picks(pairs, s, m);
    let picks = heuristic::pick_all(pairs, s, m);
    let chosen = picks.chosen;
    assert(s.contains(c));
    let x = s.index_of(c);
    assert(s.contains(s[0]));
    if x > 0 {
        assert(s[0].before(s[x]));
        assert(candidates.contains(s[0]));
    }
    assert(x == 0);
    if passed.contains(x) {
        let j = passed.index_of(x);
        assert(crowded_out(pairs, s, chosen, places, passed[j]));
        assert(false);
    }
    if !places.contains(x) {
        assert(chosen.len() == m);
        assert(places[0] < x);
        assert(false);
    }
    let i = places.index_of(x);
    if i > 0 {
        assert(places[0] < places[i]);
    }
    assert(chosen[0] == s[places[0]].id as u32);
}

/// A neighbor that links back to a new point loses nothing while its list has room, and
/// once it has none chooses from its old neighbors and the new point, the closest of which
/// stays. Nothing else comes in.
pub proof fn law_back_link_keeps_what_fits(
    pairs: spec_fn(u32, u32) -> OrderedF32,
    config: HnswConfig,
    list: Seq<u32>,
    neighbor: u32,
    layer: nat,
    point: u32,
    id: u32,
)
    requires
        list.no_duplicates(),
        !list.contains(point),
        !list.contains(neighbor),
        neighbor != point,
    ensures
        ({
            let bound = if layer == 0 {
                config.m_max0
            } else {
                config.m
            };
            let next = construction::linked_back(pairs, config, list, neighbor, layer, point);
            &&& next.len() <= bound
            &&& next.contains(id) ==> list.contains(id) || id == point
            &&& list.len() < bound ==> (next.contains(id) <==> list.contains(id) || id == point)
            &&& list.len() >= bound && config.keep_pruned ==> next.len() == bound
            &&& bound >= 1 && (list.contains(id) || id == point) && (forall|x: u32|
                (#[trigger] list.contains(x) || x == point) && x != id ==> graphs::ranked_at(
                    construction::distances_from(pairs, neighbor),
                    id,
                ).before(
                    graphs::ranked_at(construction::distances_from(pairs, neighbor), x),
                )) ==> next.contains(id)
        }),
{
    let longer = list.push(point);
    let bound = config.degree_bound(layer);
    let next = construction::linked_back(pairs, config, list, neighbor, layer, point);
    let region = Set::<u32>::full();
    construction::lemma_linked_back(pairs, config, list, neighbor, layer, point, region);
    if next.contains(id) {
        let i = next.index_of(id);
        assert(list.contains(next[i]) || next[i] == point);
    }
    assert(longer[list.len() as int] == point);
    if list.contains(id) {
        assert(longer[list.index_of(id)] == id);
    }
    if longer.len() > bound {
        let cand = heuristic::ranked_to(pairs, neighbor, longer);
        assert(heuristic::distinct_ids(cand)) by {
            assert forall|i: int, j: int| 0 <= i < j < cand.len() implies (#[trigger] cand[i]).id
                != (#[trigger] cand[j]).id by {
                if j < list.len() {
                    assert(list[i] != list[j]);
                } else {
                    assert(list.contains(list[i]));
                }
            }
        }
        assert forall|i: int| 0 <= i < cand.len() implies (#[trigger] cand[i]).id != neighbor
            && cand[i].id <= u32::MAX by {
            if i < list.len() {
                assert(list.contains(list[i]));
            }
        }
        heuristic::law_selection(pairs, neighbor, cand, bound, config.keep_pruned);
        heuristic::lemma_without(cand, neighbor);
        let dist = construction::distances_from(pairs, neighbor);
        if bound >= 1 && (list.contains(id) || id == point) && (forall|x: u32|
            (#[trigger] list.contains(x) || x == point) && x != id ==> graphs::ranked_at(
                dist,
                id,
            ).before(graphs::ranked_at(dist, x))) {
            let c = graphs::ranked_at(dist, id);
            let at = longer.index_of(id);
            assert(longer.contains(id));
            assert(cand[at] == c);
            assert forall|r: Ranked| #[trigger]
                cand.contains(r) && r.id != neighbor && r != c implies c.before(r) by {
                let k = cand.index_of(r);
                let x = longer[k];
                assert(r == graphs::ranked_at(dist, x));
                if k < list.len() {
                    assert(list.contains(list[k]));
                }
                let held = list.contains(x);
                assert(x != id);
            }
            law_closest_candidate_is_selected(
                pairs,
                neighbor,
                cand,
                bound,
                config.keep_pruned,
                c,
            );
            assert(next[0] == id);
        }
    }
}

/// What linking back changes.
proof fn lemma_link_back_effect(
    pairs: spec_fn(u32, u32) -> OrderedF32,
    config: HnswConfig,
    adj: Adjacency,
    layer: nat,
    point: u32,
    selected: Seq<u32>,
)
    requires
        selected.no_duplicates(),
        forall|i: int|
            0 <= i < selected.len() ==> construction::present_on(adj, layer).contains(
                #[trigger] selected[i],
            ),
    ensures
        ({
            let next = construction::link_back_all(pairs, config, adj, layer, point, selected);
            &&& construction::same_shape(adj, next)
            &&& forall|p: int, l: int|
                0 <= p < adj.len() && 0 <= l < adj[p].len() && (l != layer || !selected.contains(
                    p as u32,
                )) ==> (#[trigger] next[p][l]) == adj[p][l]
            &&& forall|p: int|
                0 <= p < adj.len() && layer < adj[p].len() && p <= u32::MAX && selected.contains(
                    p as u32,
                ) ==> (#[trigger] next[p])[layer as int] == construction::linked_back(
                    pairs,
                    config,
                    adj[p][layer as int],
                    p as u32,
                    layer,
                    point,
                )
        }),
    decreases selected.len(),
{
    if selected.len() > 0 {
        let shorter = selected.drop_last();
        let neighbor = selected.last();
        assert(selected[selected.len() - 1] == neighbor);
        assert(construction::present_on(adj, layer).contains(neighbor));
        assert forall|i: int| 0 <= i < shorter.len() implies construction::present_on(
            adj,
            layer,
        ).contains(#[trigger] shorter[i]) by {
            assert(shorter[i] == selected[i]);
        }
        assert(shorter.no_duplicates()) by {
            assert forall|i: int, j: int|
                0 <= i < shorter.len() && 0 <= j < shorter.len() && i != j implies shorter[i]
                != shorter[j] by {
                assert(selected[i] != selected[j]);
            }
        }
        assert(!shorter.contains(neighbor)) by {
            if shorter.contains(neighbor) {
                assert(selected[shorter.index_of(neighbor)] != selected[selected.len() - 1]);
            }
        }
        lemma_link_back_effect(pairs, config, adj, layer, point, shorter);
        let before = construction::link_back_all(pairs, config, adj, layer, point, shorter);
        let next = construction::link_back_all(pairs, config, adj, layer, point, selected);
        let nb = neighbor as int;
        assert forall|p: int, l: int|
            0 <= p < adj.len() && 0 <= l < adj[p].len() && (l != layer || !selected.contains(
                p as u32,
            )) implies (#[trigger] next[p][l]) == adj[p][l] by {
            if shorter.contains(p as u32) {
                assert(selected[shorter.index_of(p as u32)] == p as u32);
            }
            if p == nb {
                assert(selected.contains(p as u32));
            }
            assert(before[p][l] == adj[p][l]);
        }
        assert forall|p: int|
            0 <= p < adj.len() && layer < adj[p].len() && p <= u32::MAX && selected.contains(
                p as u32,
            ) implies (#[trigger] next[p])[layer as int] == construction::linked_back(
            pairs,
            config,
            adj[p][layer as int],
            p as u32,
            layer,
            point,
        ) by {
            if p == nb {
                assert(before[p][layer as int] == adj[p][layer as int]);
            } else {
                let i = selected.index_of(p as u32);
                assert(i < shorter.len());
                assert(shorter[i] == p as u32);
                assert(before[p][layer as int] == construction::linked_back(
                    pairs,
                    config,
                    adj[p][layer as int],
                    p as u32,
                    layer,
                    point,
                ));
            }
        }
    }
}

/// What wiring a point up changes: on the layers it is wired on, the lists of the points it
/// now names link back, and nothing else changes but its own lists.
spec fn wired_only(
    pairs: spec_fn(u32, u32) -> OrderedF32,
    config: HnswConfig,
    adj: Adjacency,
    next: Adjacency,
    point: u32,
    layer: nat,
) -> bool {
    &&& construction::same_shape(adj, next)
    &&& forall|p: int, l: int|
        0 <= p < adj.len() && layer < l < adj[p].len() ==> (#[trigger] next[p][l]) == adj[p][l]
    &&& forall|p: int, l: int|
        0 <= p < adj.len() && 0 <= l <= layer && l < adj[p].len() && p != point ==> (
        #[trigger] next[p][l]) == if next[point as int][l].contains(p as u32) {
            construction::linked_back(pairs, config, adj[p][l], p as u32, l as nat, point)
        } else {
            adj[p][l]
        }
}

proof fn lemma_connect_effect(
    pairs: spec_fn(u32, u32) -> OrderedF32,
    config: HnswConfig,
    adj: Adjacency,
    point: u32,
    layer: nat,
    entries: Seq<u32>,
)
    requires
        construction::well_linked(config, adj),
        construction::present_on(adj, layer).contains(point),
        forall|i: int|
            0 <= i < entries.len() ==> construction::present_on(adj, layer).contains(
                #[trigger] entries[i],
            ),
    ensures
        wired_only(
            pairs,
            config,
            adj,
            construction::connect(pairs, config, adj, point, layer, entries),
            point,
            layer,
        ),
    decreases layer,
{
    let found = construction::found_on(pairs, config, adj, point, layer, entries);
    construction::lemma_found_on(pairs, config, adj, point, layer, entries);
    construction::lemma_wire(pairs, config, adj, point, layer, found);
    let region = construction::present_on(adj, layer);
    construction::lemma_selected(pairs, config, point, layer, found, region);
    let selected = heuristic::selection(
        pairs,
        point,
        found,
        config.degree_bound(layer),
        config.keep_pruned,
    );
    let own = construction::with_list(adj, point, layer, selected);
    assert(construction::present_on(own, layer) =~= region);
    lemma_link_back_effect(pairs, config, own, layer, point, selected);
    let wired = construction::wire(pairs, config, adj, point, layer, found);
    let next = construction::connect(pairs, config, adj, point, layer, entries);
    assert(wired[point as int][layer as int] == selected) by {
        assert(own[point as int][layer as int] == selected);
    }
    assert forall|p: int, l: int|
        0 <= p < adj.len() && 0 <= l < adj[p].len() && l != layer implies (
    #[trigger] wired[p][l]) == adj[p][l] by {
        assert(own[p].len() == adj[p].len());
        assert(own[p][l] == adj[p][l]);
    }
    assert forall|p: int|
        0 <= p < adj.len() && layer < adj[p].len() && p != point implies (
    #[trigger] wired[p])[layer as int] == if selected.contains(p as u32) {
        construction::linked_back(
            pairs,
            config,
            adj[p][layer as int],
            p as u32,
            layer,
            point,
        )
    } else {
        adj[p][layer as int]
    } by {
        assert(own[p] == adj[p]);
    }
    if layer > 0 {
        let below = (layer - 1) as nat;
        let ids = construction::ids_of(found);
        assert(construction::present_on(wired, layer) =~= region);
        assert forall|i: int| 0 <= i < ids.len() implies construction::present_on(
            wired,
            layer,
        ).contains(#[trigger] ids[i]) by {}
        construction::lemma_present_below(wired, ids, layer, below);
        lemma_connect_effect(pairs, config, wired, point, below, ids);
        assert forall|p: int, l: int|
            0 <= p < adj.len() && layer < l < adj[p].len() implies (#[trigger] next[p][l])
            == adj[p][l] by {
            assert(wired[p].len() == adj[p].len());
            assert(wired[p][l] == adj[p][l]);
            assert(next[p][l] == wired[p][l]);
        }
        assert(next[point as int][layer as int] == selected) by {
            assert(next[point as int][layer as int] == wired[point as int][layer as int]);
        }
        assert forall|p: int, l: int|
            0 <= p < adj.len() && 0 <= l <= layer && l < adj[p].len() && p != point implies (
        #[trigger] next[p][l]) == if next[point as int][l].contains(p as u32) {
            construction::linked_back(pairs, config, adj[p][l], p as u32, l as nat, point)
        } else {
            adj[p][l]
        } by {
            assert(wired[p].len() == adj[p].len());
            if l == layer {
                assert(next[p][l] == wired[p][l]);
                assert(wired[p][layer as int] == wired[p][l]);
            } else {
                assert(wired[p][l] == adj[p][l]);
            }
        }
    } else {
        assert forall|p: int, l: int|
            0 <= p < adj.len() && 0 <= l <= layer && l < adj[p].len() && p != point implies (
        #[trigger] next[p][l]) == if next[point as int][l].contains(p as u32) {
            construction::linked_back(pairs, config, adj[p][l], p as u32, l as nat, point)
        } else {
            adj[p][l]
        } by {
            assert(wired[p][layer as int] == wired[p][l]);
        }
    }
}

/// An insertion touches nothing but the lists of the new point and of the neighbors it
/// chose: every other list stays as it was; a chosen neighbor links back, unless its list is
/// full, and loses no link while it has room; no list gains anything but the new point.
pub proof fn law_insertion_links_both_ways(
    pairs: spec_fn(u32, u32) -> OrderedF32,
    config: HnswConfig,
    g: GraphState,
    point: u32,
    p: int,
    l: int,
    id: u32,
)
    requires
        construction::well_linked(config, g.adj),
        construction::entry_ok(g),
        point < g.adj.len(),
        0 <= p < g.adj.len(),
        0 <= l < g.adj[p].len(),
        p != point,
        g.adj[p][l].no_duplicates(),
        !g.adj[p][l].contains(point),
        !g.adj[p][l].contains(p as u32),
    ensures
        ({
            let next = construction::inserted(pairs, config, g, point).adj;
            let bound = if l == 0 {
                config.m_max0
            } else {
                config.m
            };
            let chosen = l < next[point as int].len() && next[point as int][l].contains(p as u32);
            &&& next.len() == g.adj.len()
            &&& next[p].len() == g.adj[p].len()
            &&& !chosen || g.entry is None || l > g.top ==> next[p][l] == g.adj[p][l]
            &&& next[p][l].contains(id) ==> g.adj[p][l].contains(id) || id == point
            &&& g.adj[p][l].len() < bound && g.adj[p][l].contains(id) ==> next[p][l].contains(id)
            &&& g.adj[p][l].len() < bound && chosen && g.entry is Some && l <= g.top
                ==> next[p][l].contains(point)
        }),
{
    let level = construction::level_in(g.adj, point);
    assert(g.adj[point as int].len() >= 1);
    if let Some(entry) = g.entry {
        let dist = construction::distances_from(pairs, point);
        construction::lemma_descend(g.adj, dist, entry, g.top, level);
        let near = construction::descend(g.adj, dist, entry, g.top, level);
        let start = if level <= g.top {
            level
        } else {
            g.top
        };
        assert(construction::present_on(g.adj, start).contains(near));
        let entries = seq![near];
        lemma_connect_effect(pairs, config, g.adj, point, start, entries);
        let next = construction::inserted(pairs, config, g, point).adj;
        assert(next[point as int].len() == g.adj[point as int].len());
        assert(next[p].len() == g.adj[p].len());
        if l <= start {
            law_back_link_keeps_what_fits(
                pairs,
                config,
                g.adj[p][l],
                p as u32,
                l as nat,
                point,
                id,
            );
            law_back_link_keeps_what_fits(
                pairs,
                config,
                g.adj[p][l],
                p as u32,
                l as nat,
                point,
                point,
            );
            assert(next[p][l] == if next[point as int][l].contains(p as u32) {
                construction::linked_back(pairs, config, g.adj[p][l], p as u32, l as nat, point)
            } else {
                g.adj[p][l]
            });
        } else {
            assert(next[p][l] == g.adj[p][l]);
        }
    }
}

/// What wiring leaves a point with on the ground layer, where the search there sees all.
proof fn lemma_connect_nearest(
    pairs: spec_fn(u32, u32) -> OrderedF32,
    config: HnswConfig,
    adj: Adjacency,
    point: u32,
    layer: nat,
    entries: Seq<u32>,
    seen: Set<u32>,
    nearest: u32,
)
    requires
        construction::well_linked(config, adj),
        construction::present_on(adj, layer).contains(point),
        forall|i: int|
            0 <= i < entries.len() ==> construction::present_on(adj, layer).contains(
                #[trigger] entries[i],
            ) && seen.contains(entries[i]),
        entries.len() > 0,
        config.ef_construction >= adj.len(),
        config.m_max0 >= 1,
        !seen.contains(point),
        seen.contains(nearest),
        nearest < adj.len(),
        forall|l: nat, a: u32, b: u32| #[trigger]
            beams::lists(adj, l, a, b) && l <= layer ==> seen.contains(b),
        forall|a: u32| #[trigger] seen.contains(a) ==> beams::reaches(adj, 0, a, nearest),
        forall|a: u32| #[trigger]
            seen.contains(a) && a != nearest ==> graphs::ranked_at(
                construction::distances_from(pairs, point),
                nearest,
            ).before(graphs::ranked_at(construction::distances_from(pairs, point), a)),
    ensures
        construction::connect(
            pairs,
            config,
            adj,
            point,
            layer,
            entries,
        )[point as int][0].contains(nearest),
    decreases layer,
{
    let dist = construction::distances_from(pairs, point);
    let q = LayerQuery {
        adj,
        layer,
        ef: config.ef_construction as nat,
        dist,
        keeps: search::keeps_all(),
    };
    let found = construction::found_on(pairs, config, adj, point, layer, entries);
    construction::lemma_found_on(pairs, config, adj, point, layer, entries);
    graphs::lemma_linked_within(adj, layer);
    let small = seen.intersect(search::ids_below(adj.len()));
    assert(search::closed_under(adj, layer, small)) by {
        assert forall|p: u32, i: int|
            small.contains(p) && 0 <= i < search::neighbors_of(
                adj,
                p,
                layer,
            ).len() implies small.contains(#[trigger] search::neighbors_of(adj, p, layer)[i]) by {
            let list = adj[p as int][layer as int];
            assert(list.contains(list[i]));
            assert(beams::lists(adj, layer, p, list[i]));
        }
    }
    assert forall|i: int| 0 <= i < entries.len() implies small.contains(#[trigger] entries[i]) by {
        assert(construction::present_on(adj, layer).contains(entries[i]));
    }
    search::law_layer_search(q, entries, small);
    construction::lemma_wire(pairs, config, adj, point, layer, found);
    let region = construction::present_on(adj, layer);
    construction::lemma_selected(pairs, config, point, layer, found, region);
    let bound = config.degree_bound(layer);
    let selected = heuristic::selection(pairs, point, found, bound, config.keep_pruned);
    let own = construction::with_list(adj, point, layer, selected);
    assert(construction::present_on(own, layer) =~= region);
    lemma_link_back_effect(pairs, config, own, layer, point, selected);
    let wired = construction::wire(pairs, config, adj, point, layer, found);
    assert forall|p: int, l: int|
        0 <= p < adj.len() && 0 <= l < adj[p].len() && l != layer implies (
    #[trigger] wired[p][l]) == adj[p][l] by {
        assert(own[p].len() == adj[p].len());
        assert(own[p][l] == adj[p][l]);
    }
    if layer == 0 {
        let c = graphs::ranked_at(dist, nearest);
        assert(beams::admitted_points(adj.len(), q.keeps).len() <= q.ef) by {
            beams::lemma_admitted_finite(adj.len(), q.keeps);
        }
        assert forall|j: int| 0 <= j < entries.len() implies (#[trigger] entries[j])
            < adj.len() by {
            assert(construction::present_on(adj, layer).contains(entries[j]));
        }
        assert(seen.contains(entries[0]));
        assert(entries.contains(entries[0]));
        beams::law_wide_beam_finds_everything(q, entries, entries[0], nearest);
        assert(beams::at_its_badness(q, nearest) == c);
        assert forall|r: Ranked| #[trigger]
            found.contains(r) && r.id != point && r != c implies c.before(r) by {
            let i = found.index_of(r);
            assert(found[i] == r);
            assert(small.contains(r.id as u32));
            assert(r == graphs::ranked_at(dist, r.id as u32));
            assert(seen.contains(r.id as u32));
        }
        law_closest_candidate_is_selected(pairs, point, found, bound, config.keep_pruned, c);
        assert(selected[0] == nearest);
        assert(own[point as int][0] == selected);
        assert(wired[point as int][0] == selected);
        assert(selected.contains(nearest));
    } else {
        let below = (layer - 1) as nat;
        let ids = construction::ids_of(found);
        assert(construction::present_on(wired, layer) =~= region);
        assert forall|i: int| 0 <= i < ids.len() implies construction::present_on(
            wired,
            layer,
        ).contains(#[trigger] ids[i]) by {}
        construction::lemma_present_below(wired, ids, layer, below);
        assert forall|i: int| 0 <= i < ids.len() implies construction::present_on(
            wired,
            below,
        ).contains(#[trigger] ids[i]) && seen.contains(ids[i]) by {
            assert(small.contains(found[i].id as u32));
        }
        assert(ids.len() > 0) by {
            assert(entries.contains(entries[0]));
            assert forall|j: int| 0 <= j < entries.len() implies (#[trigger] entries[j])
                < adj.len() by {
                assert(construction::present_on(adj, layer).contains(entries[j]));
            }
            beams::law_beam_accounts_for_entries(q, entries, 0);
        }
        assert forall|l: nat, a: u32, b: u32| #[trigger]
            beams::lists(wired, l, a, b) && l <= below implies seen.contains(b) by {
            assert(wired[a as int].len() == adj[a as int].len());
            assert(wired[a as int][l as int] == adj[a as int][l as int]);
            assert(beams::lists(adj, l, a, b));
        }
        assert forall|a: u32| #[trigger] seen.contains(a) implies beams::reaches(
            wired,
            0,
            a,
            nearest,
        ) by {
            let trail = choose|trail: Seq<u32>| #[trigger]
                beams::is_trail(adj, 0, trail) && trail.len() > 0 && trail.first() == a
                    && trail.last() == nearest;
            assert(beams::is_trail(wired, 0, trail)) by {
                assert forall|i: int| 0 <= i < trail.len() - 1 implies beams::lists(
                    wired,
                    0,
                    #[trigger] trail[i],
                    trail[i + 1],
                ) by {
                    assert(beams::lists(adj, 0, trail[i], trail[i + 1]));
                    assert(wired[trail[i] as int].len() == adj[trail[i] as int].len());
                    assert(wired[trail[i] as int][0] == adj[trail[i] as int][0]);
                }
            }
        }
        lemma_connect_nearest(pairs, config, wired, point, below, ids, seen, nearest);
    }
}

/// An insertion finds the nearest point and links to it: where the construction beam holds
/// all points, and every inserted point can be reached on the ground layer, the new point
/// names the inserted point that is closest to it.
pub proof fn law_insertion_links_to_the_nearest(
    pairs: spec_fn(u32, u32) -> OrderedF32,
    config: HnswConfig,
    g: GraphState,
    point: u32,
    seen: Set<u32>,
    nearest: u32,
)
    requires
        construction::well_linked(config, g.adj),
        construction::entry_ok(g),
        point < g.adj.len(),
        g.entry matches Some(e) && seen.contains(e),
        config.ef_construction >= g.adj.len(),
        config.m_max0 >= 1,
        !seen.contains(point),
        seen.contains(nearest),
        nearest < g.adj.len(),
        forall|l: nat, a: u32, b: u32| #[trigger]
            beams::lists(g.adj, l, a, b) ==> seen.contains(b),
        forall|a: u32| #[trigger] seen.contains(a) ==> beams::reaches(g.adj, 0, a, nearest),
        forall|a: u32| #[trigger]
            seen.contains(a) && a != nearest ==> graphs::ranked_at(
                construction::distances_from(pairs, point),
                nearest,
            ).before(graphs::ranked_at(construction::distances_from(pairs, point), a)),
    ensures
        construction::inserted(pairs, config, g, point).adj[point as int][0].contains(nearest),
{
    let level = construction::level_in(g.adj, point);
    assert(g.adj[point as int].len() >= 1);
    let entry = g.entry->0;
    let dist = construction::distances_from(pairs, point);
    construction::lemma_descend(g.adj, dist, entry, g.top, level);
    lemma_descend_seen(g.adj, dist, entry, g.top, level, seen);
    let near = construction::descend(g.adj, dist, entry, g.top, level);
    let start = if level <= g.top {
        level
    } else {
        g.top
    };
    assert(construction::present_on(g.adj, start).contains(near));
    lemma_connect_nearest(pairs, config, g.adj, point, start, seq![near], seen, nearest);
}

/// A descent over lists that name only inserted points stays among them.
proof fn lemma_descend_seen(
    adj: Adjacency,
    dist: spec_fn(u32) -> OrderedF32,
    from: u32,
    layer: nat,
    stop: nat,
    seen: Set<u32>,
)
    requires
        construction::linked(adj),
        construction::present_on(adj, layer).contains(from),
        seen.contains(from),
        forall|l: nat, a: u32, b: u32| #[trigger] beams::lists(adj, l, a, b) ==> seen.contains(b),
    ensures
        seen.contains(construction::descend(adj, dist, from, layer, stop)),
    decreases layer,
{
    if layer > stop {
        let q = LayerQuery { adj, layer, ef: 1, dist, keeps: search::keeps_all() };
        assert(search::closed_under(adj, layer, seen)) by {
            assert forall|p: u32, i: int|
                seen.contains(p) && 0 <= i < search::neighbors_of(
                    adj,
                    p,
                    layer,
                ).len() implies seen.contains(#[trigger] search::neighbors_of(adj, p, layer)[i]) by {
                let list = adj[p as int][layer as int];
                assert(list.contains(list[i]));
                assert(beams::lists(adj, layer, p, list[i]));
            }
        }
        search::law_layer_search(q, seq![from], seen);
        construction::lemma_closest_on(adj, layer, dist, from);
        let next = construction::closest_on(adj, layer, dist, from);
        let entries = seq![next];
        assert(entries[0] == next);
        construction::lemma_present_below(adj, entries, layer, (layer - 1) as nat);
        assert(construction::present_on(adj, (layer - 1) as nat).contains(entries[0]));
        lemma_descend_seen(adj, dist, next, (layer - 1) as nat, stop, seen);
    }
}

/// What wiring leaves a point with on each layer: something on those that it wires, and what
/// it had on those above.
proof fn lemma_connect_links(
    pairs: spec_fn(u32, u32) -> OrderedF32,
    config: HnswConfig,
    adj: Adjacency,
    point: u32,
    layer: nat,
    entries: Seq<u32>,
    seen: Set<u32>,
)
    requires
        construction::well_linked(config, adj),
        construction::present_on(adj, layer).contains(point),
        forall|i: int|
            0 <= i < entries.len() ==> construction::present_on(adj, layer).contains(
                #[trigger] entries[i],
            ) && seen.contains(entries[i]),
        entries.len() > 0,
        config.ef_construction >= 1,
        config.m_max0 >= 1,
        config.m >= 1,
        !seen.contains(point),
        forall|l: nat, a: u32, b: u32| #[trigger]
            beams::lists(adj, l, a, b) && l <= layer ==> seen.contains(b),
    ensures
        ({
            let next = construction::connect(pairs, config, adj, point, layer, entries);
            &&& next[point as int].len() == adj[point as int].len()
            &&& forall|l: int|
                0 <= l < adj[point as int].len() ==> if l <= layer {
                    (#[trigger] next[point as int][l]).len() > 0
                } else {
                    next[point as int][l] == adj[point as int][l]
                }
        }),
    decreases layer,
{
    let dist = construction::distances_from(pairs, point);
    let q = LayerQuery {
        adj,
        layer,
        ef: config.ef_construction as nat,
        dist,
        keeps: search::keeps_all(),
    };
    let found = construction::found_on(pairs, config, adj, point, layer, entries);
    construction::lemma_found_on(pairs, config, adj, point, layer, entries);
    let small = seen.intersect(search::ids_below(adj.len()));
    assert(search::closed_under(adj, layer, small)) by {
        construction::lemma_layer_closed(adj, layer);
        assert forall|p: u32, i: int|
            small.contains(p) && 0 <= i < search::neighbors_of(
                adj,
                p,
                layer,
            ).len() implies small.contains(#[trigger] search::neighbors_of(adj, p, layer)[i]) by {
            let list = adj[p as int][layer as int];
            assert(list.contains(list[i]));
            assert(beams::lists(adj, layer, p, list[i]));
        }
    }
    assert forall|i: int| 0 <= i < entries.len() implies small.contains(#[trigger] entries[i]) by {
        assert(construction::present_on(adj, layer).contains(entries[i]));
    }
    search::law_layer_search(q, entries, small);
    invariants::law_search_finds_something(q, entries);
    construction::lemma_wire(pairs, config, adj, point, layer, found);
    let region = construction::present_on(adj, layer);
    construction::lemma_selected(pairs, config, point, layer, found, region);
    let bound = config.degree_bound(layer);
    let selected = heuristic::selection(pairs, point, found, bound, config.keep_pruned);
    assert(small.contains(found[0].id as u32));
    assert(found[0].id != point);
    invariants::law_selection_nonempty(pairs, point, found, bound, config.keep_pruned);
    let own = construction::with_list(adj, point, layer, selected);
    assert(construction::present_on(own, layer) =~= region);
    lemma_link_back_effect(pairs, config, own, layer, point, selected);
    let wired = construction::wire(pairs, config, adj, point, layer, found);
    assert forall|p: int, l: int|
        0 <= p < adj.len() && 0 <= l < adj[p].len() && l != layer implies (
    #[trigger] wired[p][l]) == adj[p][l] by {
        assert(own[p].len() == adj[p].len());
        assert(own[p][l] == adj[p][l]);
    }
    assert(own[point as int][layer as int] == selected);
    assert(wired[point as int][layer as int] == selected);
    if layer > 0 {
        let below = (layer - 1) as nat;
        let ids = construction::ids_of(found);
        assert(construction::present_on(wired, layer) =~= region);
        assert forall|i: int| 0 <= i < ids.len() implies construction::present_on(
            wired,
            layer,
        ).contains(#[trigger] ids[i]) by {}
        construction::lemma_present_below(wired, ids, layer, below);
        assert forall|i: int| 0 <= i < ids.len() implies construction::present_on(
            wired,
            below,
        ).contains(#[trigger] ids[i]) && seen.contains(ids[i]) by {
            assert(small.contains(found[i].id as u32));
        }
        assert forall|l: nat, a: u32, b: u32| #[trigger]
            beams::lists(wired, l, a, b) && l <= below implies seen.contains(b) by {
            assert(wired[a as int].len() == adj[a as int].len());
            assert(wired[a as int][l as int] == adj[a as int][l as int]);
            assert(beams::lists(adj, l, a, b));
        }
        lemma_connect_links(pairs, config, wired, point, below, ids, seen);
    }
}

/// An inserted point has a neighbor on every layer that it shares with the graph: on each
/// layer from the ground up to its own level or the graph's highest, whichever is lower. On
/// layers above the graph's highest its lists stay as they were.
pub proof fn law_insertion_links_on_every_shared_layer(
    pairs: spec_fn(u32, u32) -> OrderedF32,
    config: HnswConfig,
    g: GraphState,
    point: u32,
    seen: Set<u32>,
    l: int,
)
    requires
        construction::well_linked(config, g.adj),
        construction::entry_ok(g),
        point < g.adj.len(),
        g.entry matches Some(e) && seen.contains(e),
        config.ef_construction >= 1,
        config.m_max0 >= 1,
        config.m >= 1,
        !seen.contains(point),
        forall|l: nat, a: u32, b: u32| #[trigger]
            beams::lists(g.adj, l, a, b) ==> seen.contains(b),
        0 <= l < g.adj[point as int].len(),
    ensures
        l <= g.top ==> construction::inserted(pairs, config, g, point).adj[point as int][l].len()
            > 0,
        l > g.top ==> construction::inserted(pairs, config, g, point).adj[point as int][l]
            == g.adj[point as int][l],
{
    let level = construction::level_in(g.adj, point);
    let entry = g.entry->0;
    let dist = construction::distances_from(pairs, point);
    construction::lemma_descend(g.adj, dist, entry, g.top, level);
    lemma_descend_seen(g.adj, dist, entry, g.top, level, seen);
    let near = construction::descend(g.adj, dist, entry, g.top, level);
    let start = if level <= g.top {
        level
    } else {
        g.top
    };
    assert(construction::present_on(g.adj, start).contains(near));
    lemma_connect_links(pairs, config, g.adj, point, start, seq![near], seen);
    let next = construction::inserted(pairs, config, g, point).adj;
    assert(next == construction::connect(pairs, config, g.adj, point, start, seq![near]));
    assert(next[point as int][l].len() >= 0);
}

} // verus!
