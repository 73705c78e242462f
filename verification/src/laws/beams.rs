//! What a beam search of a graph layer finds.

use vstd::prelude::*;

use crate::index::hnsw::search;
use crate::index::hnsw::search::Adjacency;
use crate::index::hnsw::search::Beam;
use crate::index::hnsw::search::LayerQuery;
use crate::ranking;
use crate::ranking::Ranked;

verus! {

/// Whether a point lists another as its neighbor on a layer.
pub open spec fn lists(adj: Adjacency, layer: nat, from: u32, to: u32) -> bool {
    &&& from < adj.len()
    &&& layer < adj[from as int].len()
    &&& adj[from as int][layer as int].contains(to)
}

/// Whether a trail follows neighbor lists of a layer.
pub open spec fn is_trail(adj: Adjacency, layer: nat, trail: Seq<u32>) -> bool {
    forall|i: int| 0 <= i < trail.len() - 1 ==> lists(adj, layer, #[trigger] trail[i], trail[i + 1])
}

/// Whether a point can be reached from another along neighbor lists of a layer.
pub open spec fn reaches(adj: Adjacency, layer: nat, from: u32, to: u32) -> bool {
    exists|trail: Seq<u32>| #[trigger]
        is_trail(adj, layer, trail) && trail.len() > 0 && trail.first() == from && trail.last()
            == to
}

/// A point with its badness, as results list it.
pub open spec fn at_its_badness(q: LayerQuery, id: u32) -> Ranked {
    Ranked { badness: (q.dist)(id), id: id as u64 }
}

/// Whether an admitted point that the search met is accounted for: it is a result, or the
/// beam is full and no result is farther.
pub open spec fn accounted_for(q: LayerQuery, results: Seq<Ranked>, id: u32) -> bool {
    ||| results.contains(at_its_badness(q, id))
    ||| results.len() == q.ef && forall|i: int|
        0 <= i < results.len() ==> (#[trigger] results[i]).badness.key <= (q.dist)(id).key
}

/// Whether a point has been followed up: it still waits, or its neighbors were all met.
spec fn followed_up(q: LayerQuery, b: Beam, id: u32) -> bool {
    b.frontier.contains(at_its_badness(q, id)) || forall|n: u32| #[trigger]
        lists(q.adj, q.layer, id, n) ==> b.seen.contains(n)
}

/// What a search keeps while it runs, with one point possibly being expanded.
spec fn on_track(q: LayerQuery, b: Beam, region: Set<u32>, busy: Option<u32>) -> bool {
    &&& search::beam_ok(q, b, region)
    &&& b.seen.finite()
    &&& forall|id: u32| #[trigger]
        b.seen.contains(id) && (q.keeps)(id) ==> accounted_for(q, b.results, id)
    &&& forall|id: u32|
        b.results.contains(at_its_badness(q, id)) && busy != Some(id) ==> #[trigger] followed_up(
            q,
            b,
            id,
        )
    &&& forall|id: u32| #[trigger]
        b.seen.contains(id) && b.results.len() < q.ef && busy != Some(id) ==> followed_up(q, b, id)
}

/// Following a fresh point up keeps the search on track.
proof fn lemma_enqueue(q: LayerQuery, b: Beam, region: Set<u32>, busy: Option<u32>, id: u32)
    requires
        on_track(q, b, region, busy),
        region.contains(id),
        !b.seen.contains(id),
    ensures
        on_track(q, search::enqueue(q, b.marked(id), id), region, busy),
        search::enqueue(q, b.marked(id), id).seen == b.seen.insert(id),
{
    let e = search::enqueue(q, b.marked(id), id);
    let r = at_its_badness(q, id);
    search::lemma_enqueue_fresh(q, b, id, region);
    ranking::lemma_insert_sorted(b.frontier, r);
    ranking::lemma_insert_sorted(b.results, r);
    ranking::lemma_place_of(b.results, r);
    assert(e.frontier == ranking::insert_sorted(b.frontier, r));
    assert(e.frontier.contains(r)) by {
        let held = b.frontier.contains(r);
    }
    let grown = ranking::insert_sorted(b.results, r);
    let p = ranking::place_of(b.results, r);
    let n = b.results.len() as int;
    // No result is farther than the last of the grown list.
    assert forall|i: int| 0 <= i < grown.len() implies (#[trigger] grown[i]).badness.key
        <= grown.last().badness.key by {
        if i < grown.len() - 1 {
            assert(!grown[grown.len() - 1].before(grown[i]));
        }
    }
    assert forall|x: u32| #[trigger] e.seen.contains(x) && (q.keeps)(x) implies accounted_for(
        q,
        e.results,
        x,
    ) by {
        let y = at_its_badness(q, x);
        if (q.keeps)(id) {
            if x == id || b.results.contains(y) {
                assert(grown.contains(y)) by {
                    let held = b.results.contains(y);
                }
                let at = grown.index_of(y);
                if grown.len() > q.ef {
                    assert(e.results == grown.drop_last());
                    if at < grown.len() - 1 {
                        assert(e.results[at] == y);
                    } else {
                        assert forall|i: int| 0 <= i < e.results.len() implies (
                        #[trigger] e.results[i]).badness.key <= (q.dist)(x).key by {
                            assert(e.results[i] == grown[i]);
                        }
                    }
                } else {
                    assert(e.results[at] == y);
                }
            } else {
                assert(b.seen.contains(x));
                assert(accounted_for(q, b.results, x));
                assert(b.results.len() == q.ef);
                assert(e.results == grown.drop_last());
                assert forall|i: int| 0 <= i < e.results.len() implies (
                #[trigger] e.results[i]).badness.key <= (q.dist)(x).key by {
                    assert(e.results[i] == grown[i]);
                    if i < p {
                        assert(grown[i] == b.results[i]);
                    } else if i == p {
                        assert(grown[n] == b.results[n - 1]);
                        assert(grown[i].badness.key <= grown[n].badness.key);
                        assert(b.results[n - 1].badness.key <= (q.dist)(x).key);
                    } else {
                        assert(grown[i] == b.results[i - 1]);
                    }
                }
            }
        } else {
            assert(x != id);
            assert(b.seen.contains(x));
        }
    }
    assert forall|x: u32| followed_up(q, b, x) implies #[trigger] followed_up(q, e, x) by {
        if b.frontier.contains(at_its_badness(q, x)) {
            assert(e.frontier.contains(at_its_badness(q, x)));
        } else {
            assert forall|m: u32| #[trigger] lists(q.adj, q.layer, x, m) implies e.seen.contains(
                m,
            ) by {
                assert(b.seen.contains(m));
            }
        }
    }
    assert(followed_up(q, e, id));
    assert forall|x: u32|
        e.results.contains(at_its_badness(q, x)) && busy != Some(x) implies #[trigger] followed_up(
        q,
        e,
        x,
    ) by {
        let y = at_its_badness(q, x);
        let at = e.results.index_of(y);
        assert(e.results[at] == y);
        if x != id {
            if (q.keeps)(id) {
                assert(grown[at] == y);
                assert(grown.contains(y));
                assert(y != r);
                assert(b.results.contains(y));
            }
            assert(followed_up(q, b, x));
        }
    }
    assert(e.results.len() >= b.results.len());
    assert forall|x: u32| #[trigger]
        e.seen.contains(x) && e.results.len() < q.ef && busy != Some(x) implies followed_up(
        q,
        e,
        x,
    ) by {
        if x != id {
            assert(b.seen.contains(x));
            assert(followed_up(q, b, x));
        }
    }
}

/// Taking an entry point keeps the search on track.
proof fn lemma_seed(q: LayerQuery, b: Beam, region: Set<u32>, id: u32)
    requires
        on_track(q, b, region, None),
        region.contains(id),
    ensures
        on_track(q, search::seed(q, b, id), region, None),
        search::seed(q, b, id).seen == b.seen.insert(id),
{
    if b.seen.contains(id) {
        assert(b.seen.insert(id) =~= b.seen);
    } else {
        lemma_enqueue(q, b, region, None, id);
    }
}

/// Meeting a neighbor keeps the search on track.
proof fn lemma_meet(q: LayerQuery, b: Beam, region: Set<u32>, busy: Option<u32>, id: u32)
    requires
        on_track(q, b, region, busy),
        region.contains(id),
    ensures
        on_track(q, search::meet(q, b, id), region, busy),
        search::meet(q, b, id).seen == b.seen.insert(id),
{
    let e = search::meet(q, b, id);
    search::lemma_meet(q, b, id, region);
    if b.seen.contains(id) {
        assert(b.seen.insert(id) =~= b.seen);
    } else if search::worth_exploring(q, b, (q.dist)(id)) {
        lemma_enqueue(q, b, region, busy, id);
    } else {
        // The beam is full, and the point is no closer than its last result.
        assert(e == b.marked(id));
        let last = b.results.len() - 1;
        assert forall|i: int| 0 <= i < b.results.len() implies (
        #[trigger] b.results[i]).badness.key <= (q.dist)(id).key by {
            if i < last {
                assert(!b.results[last].before(b.results[i]));
            }
        }
        assert(accounted_for(q, e.results, id));
        assert forall|x: u32| #[trigger] e.seen.contains(x) && (q.keeps)(x) implies accounted_for(
            q,
            e.results,
            x,
        ) by {
            if x != id {
                assert(b.seen.contains(x));
            }
        }
        assert forall|x: u32| followed_up(q, b, x) implies #[trigger] followed_up(q, e, x) by {
            if !b.frontier.contains(at_its_badness(q, x)) {
                assert forall|m: u32| #[trigger] lists(
                    q.adj,
                    q.layer,
                    x,
                    m,
                ) implies e.seen.contains(m) by {
                    assert(b.seen.contains(m));
                }
            }
        }
        assert forall|x: u32|
            e.results.contains(at_its_badness(q, x)) && busy != Some(
                x,
            ) implies #[trigger] followed_up(q, e, x) by {
            assert(followed_up(q, b, x));
        }
    }
}

proof fn lemma_seed_all(q: LayerQuery, region: Set<u32>, entries: Seq<u32>)
    requires
        forall|i: int| 0 <= i < entries.len() ==> region.contains(#[trigger] entries[i]),
    ensures
        on_track(q, search::seed_all(q, Beam::start(), entries), region, None),
        forall|i: int|
            0 <= i < entries.len() ==> search::seed_all(q, Beam::start(), entries).seen.contains(
                #[trigger] entries[i],
            ),
    decreases entries.len(),
{
    if entries.len() == 0 {
        assert(on_track(q, Beam::start(), region, None));
    } else {
        let shorter = entries.drop_last();
        assert forall|i: int| 0 <= i < shorter.len() implies region.contains(
            #[trigger] shorter[i],
        ) by {
            assert(shorter[i] == entries[i]);
        }
        lemma_seed_all(q, region, shorter);
        assert(region.contains(entries[entries.len() - 1]));
        let before = search::seed_all(q, Beam::start(), shorter);
        lemma_seed(q, before, region, entries.last());
        assert forall|i: int| 0 <= i < entries.len() implies search::seed_all(
            q,
            Beam::start(),
            entries,
        ).seen.contains(#[trigger] entries[i]) by {
            if i < shorter.len() {
                assert(before.seen.contains(shorter[i]));
            }
        }
    }
}

proof fn lemma_meet_all(
    q: LayerQuery,
    b: Beam,
    region: Set<u32>,
    busy: Option<u32>,
    ids: Seq<u32>,
)
    requires
        on_track(q, b, region, busy),
        forall|i: int| 0 <= i < ids.len() ==> region.contains(#[trigger] ids[i]),
    ensures
        on_track(q, search::meet_all(q, b, ids), region, busy),
        b.seen.subset_of(search::meet_all(q, b, ids).seen),
        forall|i: int|
            0 <= i < ids.len() ==> search::meet_all(q, b, ids).seen.contains(#[trigger] ids[i]),
    decreases ids.len(),
{
    if ids.len() > 0 {
        let shorter = ids.drop_last();
        assert forall|i: int| 0 <= i < shorter.len() implies region.contains(
            #[trigger] shorter[i],
        ) by {
            assert(shorter[i] == ids[i]);
        }
        lemma_meet_all(q, b, region, busy, shorter);
        assert(region.contains(ids[ids.len() - 1]));
        let before = search::meet_all(q, b, shorter);
        lemma_meet(q, before, region, busy, ids.last());
        assert forall|i: int| 0 <= i < ids.len() implies search::meet_all(
            q,
            b,
            ids,
        ).seen.contains(#[trigger] ids[i]) by {
            if i < shorter.len() {
                assert(before.seen.contains(shorter[i]));
            }
        }
    }
}

/// An expansion keeps the search on track.
proof fn lemma_expand(q: LayerQuery, b: Beam, region: Set<u32>)
    requires
        on_track(q, b, region, None),
        b.frontier.len() > 0,
        search::closed_under(q.adj, q.layer, region),
    ensures
        on_track(q, search::expand(q, b), region, None),
        b.seen.subset_of(search::expand(q, b).seen),
{
    let c = b.frontier[0].id as u32;
    let popped = Beam { frontier: b.frontier.skip(1), ..b };
    search::lemma_pop(q, b, region);
    assert(search::entry_ok(q, b.seen, region, b.frontier[0]));
    assert forall|x: u32| followed_up(q, b, x) && x != c implies #[trigger] followed_up(
        q,
        popped,
        x,
    ) by {
        let y = at_its_badness(q, x);
        if b.frontier.contains(y) {
            let i = b.frontier.index_of(y);
            assert(i > 0);
            assert(popped.frontier[i - 1] == y);
        }
    }
    assert(on_track(q, popped, region, Some(c))) by {
        assert forall|x: u32|
            popped.results.contains(at_its_badness(q, x)) && Some(c) != Some(
                x,
            ) implies #[trigger] followed_up(q, popped, x) by {
            assert(followed_up(q, b, x));
        }
        assert forall|x: u32| #[trigger]
            popped.seen.contains(x) && popped.results.len() < q.ef && Some(c) != Some(
                x,
            ) implies followed_up(q, popped, x) by {
            assert(b.seen.contains(x));
            assert(followed_up(q, b, x));
        }
    }
    let ids = search::neighbors_of(q.adj, c, q.layer);
    assert forall|i: int| 0 <= i < ids.len() implies region.contains(#[trigger] ids[i]) by {}
    lemma_meet_all(q, popped, region, Some(c), ids);
    let e = search::expand(q, b);
    assert(followed_up(q, e, c)) by {
        assert forall|m: u32| #[trigger] lists(q.adj, q.layer, c, m) implies e.seen.contains(m) by {
            let list = q.adj[c as int][q.layer as int];
            assert(list[list.index_of(m)] == m);
            assert(ids[list.index_of(m)] == m);
        }
    }
}

/// What a finished search leaves behind.
spec fn settled(q: LayerQuery, results: Seq<Ranked>, seen: Set<u32>) -> bool {
    &&& forall|id: u32| #[trigger]
        seen.contains(id) && (q.keeps)(id) ==> accounted_for(q, results, id)
    &&& forall|id: u32, n: u32|
        results.contains(at_its_badness(q, id)) && #[trigger] lists(q.adj, q.layer, id, n)
            ==> seen.contains(n)
    &&& results.len() < q.ef ==> forall|id: u32, n: u32| #[trigger]
        seen.contains(id) && #[trigger] lists(q.adj, q.layer, id, n) ==> seen.contains(n)
}

proof fn lemma_run(q: LayerQuery, b: Beam, region: Set<u32>, budget: nat) -> (seen: Set<u32>)
    requires
        on_track(q, b, region, None),
        search::closed_under(q.adj, q.layer, region),
        region == search::ids_below(q.adj.len()),
        b.frontier.len() + q.adj.len() <= b.seen.len() + budget,
    ensures
        settled(q, search::run(q, b, budget), seen),
        b.seen.subset_of(seen),
    decreases budget,
{
    search::lemma_ids_below_len(b.seen, q.adj.len());
    if budget == 0 || search::finished(q, b) {
        assert forall|id: u32, n: u32|
            b.results.contains(at_its_badness(q, id)) && #[trigger] lists(
                q.adj,
                q.layer,
                id,
                n,
            ) implies b.seen.contains(n) by {
            let y = at_its_badness(q, id);
            assert(followed_up(q, b, id));
            if b.frontier.contains(y) {
                // The search stopped although the point waits: it is farther than the last
                // result, so it is none.
                let i = b.frontier.index_of(y);
                let j = b.results.index_of(y);
                let last = b.results.len() - 1;
                if i > 0 {
                    assert(!b.frontier[i].before(b.frontier[0]));
                }
                if j < last {
                    assert(!b.results[last].before(b.results[j]));
                }
                assert(false);
            }
        }
        if b.results.len() < q.ef {
            assert(b.frontier.len() == 0);
            assert forall|id: u32, n: u32| #[trigger]
                b.seen.contains(id) && #[trigger] lists(
                    q.adj,
                    q.layer,
                    id,
                    n,
                ) implies b.seen.contains(n) by {
                assert(followed_up(q, b, id));
            }
        }
        b.seen
    } else {
        lemma_expand(q, b, region);
        search::lemma_expand(q, b, region);
        lemma_run(q, search::expand(q, b), region, (budget - 1) as nat)
    }
}

proof fn lemma_search(q: LayerQuery, entries: Seq<u32>) -> (seen: Set<u32>)
    requires
        search::closed_under(q.adj, q.layer, search::ids_below(q.adj.len())),
        forall|i: int| 0 <= i < entries.len() ==> (#[trigger] entries[i]) < q.adj.len(),
    ensures
        settled(q, search::layer_search(q, entries), seen),
        forall|i: int| 0 <= i < entries.len() ==> seen.contains(#[trigger] entries[i]),
{
    let region = search::ids_below(q.adj.len());
    assert forall|i: int| 0 <= i < entries.len() implies region.contains(#[trigger] entries[i]) by {}
    lemma_seed_all(q, region, entries);
    assert(search::beam_ok(q, Beam::start(), region));
    search::lemma_seed_all(q, Beam::start(), entries, region);
    let b = search::seed_all(q, Beam::start(), entries);
    let seen = lemma_run(q, b, region, q.adj.len());
    assert forall|i: int| 0 <= i < entries.len() implies seen.contains(#[trigger] entries[i]) by {
        assert(b.seen.contains(entries[i]));
    }
    seen
}

/// Neighbor lists name existing points only.
pub open spec fn within(adj: Adjacency, layer: nat) -> bool {
    forall|p: u32, n: u32| #[trigger] lists(adj, layer, p, n) ==> n < adj.len()
}

proof fn lemma_within(adj: Adjacency, layer: nat)
    requires
        within(adj, layer),
    ensures
        search::closed_under(adj, layer, search::ids_below(adj.len())),
{
    let region = search::ids_below(adj.len());
    assert forall|p: u32, i: int|
        region.contains(p) && 0 <= i < search::neighbors_of(
            adj,
            p,
            layer,
        ).len() implies region.contains(#[trigger] search::neighbors_of(adj, p, layer)[i]) by {
        let list = adj[p as int][layer as int];
        assert(list.contains(list[i]));
        assert(lists(adj, layer, p, list[i]));
    }
}

/// Every admitted entry point of a search is a result, unless the beam is full of points
/// that are no farther.
pub proof fn law_beam_accounts_for_entries(q: LayerQuery, entries: Seq<u32>, i: int)
    requires
        within(q.adj, q.layer),
        forall|j: int| 0 <= j < entries.len() ==> (#[trigger] entries[j]) < q.adj.len(),
        0 <= i < entries.len(),
        (q.keeps)(entries[i]),
    ensures
        accounted_for(q, search::layer_search(q, entries), entries[i]),
{
    lemma_within(q.adj, q.layer);
    let seen = lemma_search(q, entries);
    assert(seen.contains(entries[i]));
}

/// A beam search ends at a local best: every admitted neighbor of a result is a result too,
/// unless the beam is full of points that are no farther.
pub proof fn law_beam_is_locally_best(q: LayerQuery, entries: Seq<u32>, id: u32, neighbor: u32)
    requires
        within(q.adj, q.layer),
        forall|j: int| 0 <= j < entries.len() ==> (#[trigger] entries[j]) < q.adj.len(),
        search::layer_search(q, entries).contains(at_its_badness(q, id)),
        lists(q.adj, q.layer, id, neighbor),
        (q.keeps)(neighbor),
    ensures
        accounted_for(q, search::layer_search(q, entries), neighbor),
{
    lemma_within(q.adj, q.layer);
    let seen = lemma_search(q, entries);
    assert(seen.contains(neighbor));
}

/// A beam that is not full has found everything: every admitted point that can be reached
/// from an entry point, through admitted and rejected points alike, is a result.
pub proof fn law_unfilled_beam_found_everything(
    q: LayerQuery,
    entries: Seq<u32>,
    entry: u32,
    id: u32,
)
    requires
        within(q.adj, q.layer),
        forall|j: int| 0 <= j < entries.len() ==> (#[trigger] entries[j]) < q.adj.len(),
        search::layer_search(q, entries).len() < q.ef,
        entries.contains(entry),
        reaches(q.adj, q.layer, entry, id),
        (q.keeps)(id),
    ensures
        search::layer_search(q, entries).contains(at_its_badness(q, id)),
{
    lemma_within(q.adj, q.layer);
    let seen = lemma_search(q, entries);
    let trail = choose|trail: Seq<u32>| #[trigger]
        is_trail(q.adj, q.layer, trail) && trail.len() > 0 && trail.first() == entry
            && trail.last() == id;
    assert(entries[entries.index_of(entry)] == entry);
    lemma_trail_is_seen(q, trail, seen, trail.len() - 1);
}

proof fn lemma_trail_is_seen(q: LayerQuery, trail: Seq<u32>, seen: Set<u32>, n: int)
    requires
        is_trail(q.adj, q.layer, trail),
        0 <= n < trail.len(),
        seen.contains(trail[0]),
        forall|id: u32, n: u32| #[trigger]
            seen.contains(id) && #[trigger] lists(q.adj, q.layer, id, n) ==> seen.contains(n),
    ensures
        seen.contains(trail[n]),
    decreases n,
{
    if n > 0 {
        lemma_trail_is_seen(q, trail, seen, n - 1);
        assert(lists(q.adj, q.layer, trail[n - 1], trail[n - 1 + 1]));
    }
}

/// The admitted points of a graph.
pub open spec fn admitted_points(n: nat, keeps: spec_fn(u32) -> bool) -> Set<u32> {
    Set::new(|id: u32| id < n && keeps(id))
}

/// A set of points is finite.
pub proof fn lemma_admitted_finite(n: nat, keeps: spec_fn(u32) -> bool)
    ensures
        admitted_points(n, keeps).finite(),
        admitted_points(n, keeps).len() <= n,
{
    let points = admitted_points(n, keeps);
    let all = vstd::set_lib::set_int_range(0, 0x1_0000_0000);
    vstd::set_lib::lemma_int_range(0, 0x1_0000_0000);
    let narrow = |i: int| i as u32;
    all.lemma_map_finite(narrow);
    assert(points.subset_of(all.map(narrow))) by {
        assert forall|id: u32| points.contains(id) implies all.map(narrow).contains(id) by {
            assert(all.contains(id as int) && narrow(id as int) == id);
        }
    }
    vstd::set_lib::lemma_set_subset_finite(all.map(narrow), points);
    search::lemma_ids_below_len(points, n);
}

/// The results of a search name distinct admitted points, so they are no more than there
/// are, and if they are as many they are all of them.
proof fn lemma_results_are_admitted(q: LayerQuery, results: Seq<Ranked>)
    requires
        search::results_ok(q, results, search::ids_below(q.adj.len())),
    ensures
        results.len() <= admitted_points(q.adj.len(), q.keeps).len(),
        results.len() == admitted_points(q.adj.len(), q.keeps).len() ==> forall|id: u32|
            id < q.adj.len() && #[trigger] (q.keeps)(id) ==> results.contains(
                at_its_badness(q, id),
            ),
{
    let points = admitted_points(q.adj.len(), q.keeps);
    lemma_admitted_finite(q.adj.len(), q.keeps);
    let ids = Seq::new(results.len(), |i: int| results[i].id as u32);
    assert(ids.no_duplicates()) by {
        assert forall|i: int, j: int|
            0 <= i < ids.len() && 0 <= j < ids.len() && i != j implies ids[i] != ids[j] by {
            if i < j {
                assert(results[i].id != results[j].id);
            } else {
                assert(results[j].id != results[i].id);
            }
        }
    }
    ids.unique_seq_to_set();
    assert(ids.to_set().subset_of(points)) by {
        assert forall|x: u32| ids.to_set().contains(x) implies points.contains(x) by {
            let i = ids.index_of(x);
            assert(results[i].id == x);
        }
    }
    vstd::set_lib::lemma_len_subset(ids.to_set(), points);
    if results.len() == points.len() {
        vstd::set_lib::lemma_subset_equality(ids.to_set(), points);
        assert forall|id: u32| id < q.adj.len() && #[trigger] (q.keeps)(id) implies results.contains(
            at_its_badness(q, id),
        ) by {
            assert(points.contains(id));
            assert(ids.to_set().contains(id));
            let i = ids.index_of(id);
            assert(results[i] == at_its_badness(q, id));
        }
    }
}

/// A beam at least as wide as there are admitted points finds all of those that can be
/// reached from an entry point.
pub proof fn law_wide_beam_finds_everything(
    q: LayerQuery,
    entries: Seq<u32>,
    entry: u32,
    id: u32,
)
    requires
        within(q.adj, q.layer),
        forall|j: int| 0 <= j < entries.len() ==> (#[trigger] entries[j]) < q.adj.len(),
        admitted_points(q.adj.len(), q.keeps).len() <= q.ef,
        entries.contains(entry),
        id < q.adj.len(),
        reaches(q.adj, q.layer, entry, id),
        (q.keeps)(id),
    ensures
        search::layer_search(q, entries).contains(at_its_badness(q, id)),
{
    let region = search::ids_below(q.adj.len());
    lemma_within(q.adj, q.layer);
    assert forall|i: int| 0 <= i < entries.len() implies region.contains(#[trigger] entries[i]) by {}
    search::law_layer_search(q, entries, region);
    let results = search::layer_search(q, entries);
    lemma_results_are_admitted(q, results);
    if results.len() < q.ef {
        law_unfilled_beam_found_everything(q, entries, entry, id);
    }
}

/// A full beam takes only points that are closer than its worst: any other point that is met
/// is remembered as met and changes nothing else. A closer one that is admitted takes the
/// place of the worst, and one that is not admitted is only followed up.
pub proof fn law_full_beam_takes_only_closer_points(q: LayerQuery, b: Beam, id: u32)
    requires
        ranking::sorted(b.results),
        ranking::sorted(b.frontier),
        b.results.len() >= q.ef,
        b.results.len() > 0,
        !b.seen.contains(id),
    ensures
        ({
            let after = search::meet(q, b, id);
            let worst = b.results.last();
            let d = (q.dist)(id);
            &&& after.seen == b.seen.insert(id)
            &&& d.key >= worst.badness.key ==> after.results == b.results && after.frontier
                == b.frontier
            &&& d.key < worst.badness.key ==> after.frontier.len() == b.frontier.len() + 1
            &&& d.key < worst.badness.key && !(q.keeps)(id) ==> after.results == b.results
            &&& d.key < worst.badness.key && (q.keeps)(id) ==> {
                &&& after.results.len() == b.results.len()
                &&& after.results.contains(at_its_badness(q, id))
                &&& after.results.to_multiset() == b.results.to_multiset().insert(
                    at_its_badness(q, id),
                ).remove(worst)
            }
        }),
{
    let after = search::meet(q, b, id);
    let worst = b.results.last();
    let r = at_its_badness(q, id);
    let last = b.results.len() - 1;
    if (q.dist)(id).key < worst.badness.key {
        ranking::lemma_insert_sorted(b.frontier, r);
        ranking::lemma_insert_sorted(b.results, r);
        let longer = ranking::insert_sorted(b.results, r);
        assert(longer.contains(r)) by {
            longer.to_multiset_ensures();
            assert(longer.to_multiset().count(r) > 0);
        }
        assert(longer.contains(worst)) by {
            assert(b.results.contains(worst)) by {
                assert(b.results[last] == worst);
            }
        }
        let i = longer.index_of(worst);
        let j = longer.index_of(r);
        let end = longer.last();
        assert(end == longer[longer.len() - 1]);
        assert(end == worst) by {
            assert(longer.contains(end));
            if i < longer.len() - 1 {
                assert(!longer[longer.len() - 1].before(longer[i]));
            }
            if end == r {
                assert(!end.before(worst));
            } else {
                assert(b.results.contains(end));
                let e = b.results.index_of(end);
                if e < last {
                    assert(!b.results[last].before(b.results[e]));
                }
            }
        }
        if (q.keeps)(id) {
            assert(longer.drop_last().push(end) =~= longer);
            longer.drop_last().to_multiset_ensures();
            assert(after.results == longer.drop_last());
            assert(after.results.to_multiset().insert(end) == b.results.to_multiset().insert(r));
            assert(after.results.to_multiset() =~= b.results.to_multiset().insert(r).remove(worst));
            assert(r != end);
            assert(after.results[j] == r);
        }
    }
}

/// A search goes on exactly as long as a point to be followed up could still improve the
/// beam: as long as one is left that is no farther than the beam's worst, or the beam is not
/// full.
pub proof fn law_search_ends_when_nothing_can_improve(q: LayerQuery, b: Beam)
    requires
        ranking::sorted(b.frontier),
    ensures
        search::finished(q, b) <==> {
            forall|i: int|
                0 <= i < b.frontier.len() ==> b.results.len() > 0 && b.results.len() >= q.ef && (
                #[trigger] b.frontier[i]).badness.key > b.results.last().badness.key
        },
{
    if search::finished(q, b) {
        assert forall|i: int| 0 <= i < b.frontier.len() implies b.results.len() > 0
            && b.results.len() >= q.ef && (#[trigger] b.frontier[i]).badness.key
            > b.results.last().badness.key by {
            if i > 0 {
                assert(!b.frontier[i].before(b.frontier[0]));
            }
        }
    } else {
        let first = b.frontier[0];
        assert(!(b.results.len() > 0 && b.results.len() >= q.ef && first.badness.key
            > b.results.last().badness.key));
        assert(!(forall|i: int|
            0 <= i < b.frontier.len() ==> b.results.len() > 0 && b.results.len() >= q.ef && (
            #[trigger] b.frontier[i]).badness.key > b.results.last().badness.key)) by {
            assert(b.frontier[0] == first);
        }
    }
}

} // verus!
