//! The layer search routine, shared by graph construction and query.
//!
//! [`search_layer`] is the heart of HNSW: a best-first beam search of width `ef` over a
//! single layer. It works over any [`Graph`] (the mutable builder during construction,
//! the sealed graph at query time), with a [`Distance`] to the query and an
//! [`Admission`] predicate (so deleted or filtered points are traversed for connectivity
//! but not collected).
//!
//! What it computes is [`layer_search`]: seed the beam with the entry points, then keep
//! expanding the closest frontier node until the frontier is exhausted or cannot improve
//! a full beam.

use vstd::prelude::*;

use crate::index::hnsw::visited::VisitedList;
use crate::ordered::OrderedF32;
use crate::ranking;
use crate::ranking::Ranked;

verus! {

/// Neighbor ids by point and layer.
pub type Adjacency = Seq<Seq<Seq<u32>>>;

/// The neighbors of `point` on `layer`: none if the point is not on that layer.
pub open spec fn neighbors_of(adj: Adjacency, point: u32, layer: nat) -> Seq<u32> {
    if point < adj.len() && layer < adj[point as int].len() {
        adj[point as int][layer as int]
    } else {
        Seq::empty()
    }
}

/// A read view of an HNSW graph's adjacency.
pub trait Graph {
    /// The graph is internally consistent.
    spec fn graph_ok(&self) -> bool;

    /// The graph's adjacency.
    spec fn adjacency(&self) -> Adjacency;

    /// Neighbors of `point` on `layer` (empty if the point isn't on that layer).
    fn neighbors(&self, point: u32, layer: usize) -> (ids: &[u32])
        requires
            self.graph_ok(),
            point < self.adjacency().len(),
        ensures
            ids@ == neighbors_of(self.adjacency(), point, layer as nat),
    ;
}

/// A badness (smaller = closer) of every point relative to a fixed query.
pub trait Distance {
    /// The badness of each point.
    spec fn badness_fn(&self) -> spec_fn(u32) -> OrderedF32;

    /// Whether `id` can be measured.
    spec fn measures(&self, id: u32) -> bool;

    /// The badness of `id`.
    fn badness(&self, id: u32) -> (b: OrderedF32)
        requires
            self.measures(id),
        ensures
            b == self.badness_fn()(id),
    ;
}

/// Which points may enter a result set.
pub trait Admission {
    /// Whether each point may enter the results.
    spec fn keeps_fn(&self) -> spec_fn(u32) -> bool;

    /// Whether `id` may enter the results.
    fn keeps(&self, id: u32) -> (r: bool)
        ensures
            r == self.keeps_fn()(id),
    ;
}

/// Every point may enter the results.
pub open spec fn keeps_all() -> spec_fn(u32) -> bool {
    |id: u32| true
}

/// Admits every point.
pub struct KeepAll;

impl Admission for KeepAll {
    open spec fn keeps_fn(&self) -> spec_fn(u32) -> bool {
        keeps_all()
    }

    fn keeps(&self, id: u32) -> (r: bool) {
        true
    }
}

/// What a layer search is asked.
pub ghost struct LayerQuery {
    /// The graph.
    pub adj: Adjacency,
    /// The layer searched.
    pub layer: nat,
    /// The beam width.
    pub ef: nat,
    /// The badness of each point.
    pub dist: spec_fn(u32) -> OrderedF32,
    /// Which points may enter the results.
    pub keeps: spec_fn(u32) -> bool,
}

/// The state of a beam search.
pub ghost struct Beam {
    /// The points met so far.
    pub seen: Set<u32>,
    /// The points still to expand, closest first.
    pub frontier: Seq<Ranked>,
    /// The best admitted points so far, closest first.
    pub results: Seq<Ranked>,
}

impl Beam {
    /// Nothing met yet.
    pub open spec fn start() -> Beam {
        Beam { seen: Set::empty(), frontier: Seq::empty(), results: Seq::empty() }
    }

    /// With `id` met.
    pub open spec fn marked(self, id: u32) -> Beam {
        Beam { seen: self.seen.insert(id), ..self }
    }
}

/// Drops the worst entry of a beam that has outgrown its width.
pub open spec fn capped(s: Seq<Ranked>, ef: nat) -> Seq<Ranked> {
    if s.len() > ef {
        s.drop_last()
    } else {
        s
    }
}

/// A point with its badness.
pub open spec fn measured(q: LayerQuery, id: u32) -> Ranked {
    Ranked { badness: (q.dist)(id), id: id as u64 }
}

/// Puts a point on the frontier and, if admitted, in the results.
pub open spec fn enqueue(q: LayerQuery, b: Beam, id: u32) -> Beam {
    let r = measured(q, id);
    Beam {
        seen: b.seen,
        frontier: ranking::insert_sorted(b.frontier, r),
        results: if (q.keeps)(id) {
            capped(ranking::insert_sorted(b.results, r), q.ef)
        } else {
            b.results
        },
    }
}

/// Takes an entry point, unless it was met before.
pub open spec fn seed(q: LayerQuery, b: Beam, id: u32) -> Beam {
    if b.seen.contains(id) {
        b
    } else {
        enqueue(q, b.marked(id), id)
    }
}

/// Takes the entry points in order.
pub open spec fn seed_all(q: LayerQuery, b: Beam, ids: Seq<u32>) -> Beam
    decreases ids.len(),
{
    if ids.len() == 0 {
        b
    } else {
        seed(q, seed_all(q, b, ids.drop_last()), ids.last())
    }
}

/// Whether a point at badness `d` could still improve the beam.
pub open spec fn worth_exploring(q: LayerQuery, b: Beam, d: OrderedF32) -> bool {
    b.results.len() == 0 || b.results.len() < q.ef || d.key < b.results.last().badness.key
}

/// Meets a neighbor: marks it, and follows it up if it could improve the beam.
pub open spec fn meet(q: LayerQuery, b: Beam, id: u32) -> Beam {
    if b.seen.contains(id) {
        b
    } else if worth_exploring(q, b, (q.dist)(id)) {
        enqueue(q, b.marked(id), id)
    } else {
        b.marked(id)
    }
}

/// Meets the neighbors in order.
pub open spec fn meet_all(q: LayerQuery, b: Beam, ids: Seq<u32>) -> Beam
    decreases ids.len(),
{
    if ids.len() == 0 {
        b
    } else {
        meet(q, meet_all(q, b, ids.drop_last()), ids.last())
    }
}

/// Whether the search is over: nothing is left to expand, or the beam is full and the
/// closest frontier point is farther than its worst entry.
pub open spec fn finished(q: LayerQuery, b: Beam) -> bool {
    b.frontier.len() == 0 || (b.results.len() > 0 && b.results.len() >= q.ef
        && b.frontier[0].badness.key > b.results.last().badness.key)
}

/// Takes the closest frontier point off and meets its neighbors.
pub open spec fn expand(q: LayerQuery, b: Beam) -> Beam {
    meet_all(
        q,
        Beam { frontier: b.frontier.skip(1), ..b },
        neighbors_of(q.adj, b.frontier[0].id as u32, q.layer),
    )
}

/// Expands until the search is over, at most `budget` times.
pub open spec fn run(q: LayerQuery, b: Beam, budget: nat) -> Seq<Ranked>
    decreases budget,
{
    if budget == 0 || finished(q, b) {
        b.results
    } else {
        run(q, expand(q, b), (budget - 1) as nat)
    }
}

/// Best-first search of one layer from the given entry points: the admitted points found,
/// closest first. No point enters the frontier twice, so as many expansions as there are
/// points are enough.
pub open spec fn layer_search(q: LayerQuery, entries: Seq<u32>) -> Seq<Ranked> {
    run(q, seed_all(q, Beam::start(), entries), q.adj.len())
}

/// Every neighbor, on this layer, of a point in the region is in the region.
pub open spec fn closed_under(adj: Adjacency, layer: nat, region: Set<u32>) -> bool {
    forall|p: u32, i: int|
        region.contains(p) && 0 <= i < neighbors_of(adj, p, layer).len() ==> region.contains(
            #[trigger] neighbors_of(adj, p, layer)[i],
        )
}

/// A ranked entry stands for a point of the region, met, at its true badness.
pub open spec fn entry_ok(q: LayerQuery, seen: Set<u32>, region: Set<u32>, r: Ranked) -> bool {
    &&& r.id <= u32::MAX
    &&& seen.contains(r.id as u32)
    &&& region.contains(r.id as u32)
    &&& r.badness == (q.dist)(r.id as u32)
}

/// What every step of a search within a region keeps.
pub open spec fn beam_ok(q: LayerQuery, b: Beam, region: Set<u32>) -> bool {
    &&& ranking::sorted(b.frontier)
    &&& ranking::sorted(b.results)
    &&& b.results.len() <= q.ef
    &&& b.seen.subset_of(region)
    &&& forall|i: int| 0 <= i < b.frontier.len() ==> entry_ok(q, b.seen, region, #[trigger] b.frontier[i])
    &&& forall|i: int|
        0 <= i < b.results.len() ==> entry_ok(q, b.seen, region, #[trigger] b.results[i]) && (q.keeps)(
            b.results[i].id as u32,
        )
    &&& forall|i: int, j: int|
        0 <= i < j < b.results.len() ==> (#[trigger] b.results[i]).id != (#[trigger] b.results[j]).id
}

/// Following up a point met for the first time keeps the invariant.
pub proof fn lemma_enqueue_fresh(q: LayerQuery, b: Beam, id: u32, region: Set<u32>)
    requires
        beam_ok(q, b, region),
        !b.seen.contains(id),
        region.contains(id),
    ensures
        beam_ok(q, b.marked(id), region),
        beam_ok(q, enqueue(q, b.marked(id), id), region),
        enqueue(q, b.marked(id), id).frontier.len() == b.frontier.len() + 1,
        enqueue(q, b.marked(id), id).seen == b.seen.insert(id),
{
    let m = b.marked(id);
    let e = enqueue(q, m, id);
    let r = measured(q, id);
    assert(beam_ok(q, m, region));
    ranking::lemma_insert_sorted(b.frontier, r);
    ranking::lemma_insert_sorted(b.results, r);
    ranking::lemma_place_of(b.results, r);
    assert forall|i: int| 0 <= i < e.frontier.len() implies entry_ok(
        q,
        e.seen,
        region,
        #[trigger] e.frontier[i],
    ) by {
        assert(e.frontier.contains(e.frontier[i]));
        if e.frontier[i] != r {
            assert(b.frontier.contains(e.frontier[i]));
            let j = b.frontier.index_of(e.frontier[i]);
            assert(entry_ok(q, b.seen, region, b.frontier[j]));
        }
    }
    if (q.keeps)(id) {
        let grown = ranking::insert_sorted(b.results, r);
        let p = ranking::place_of(b.results, r);
        assert forall|i: int| 0 <= i < grown.len() implies entry_ok(
            q,
            e.seen,
            region,
            #[trigger] grown[i],
        ) && (q.keeps)(grown[i].id as u32) by {
            if i < p {
                assert(grown[i] == b.results[i]);
            } else if i > p {
                assert(grown[i] == b.results[i - 1]);
            } else {
                assert(grown[i] == r);
            }
        }
        assert forall|i: int| 0 <= i < b.results.len() implies (#[trigger] b.results[i]).id != r.id by {
            assert(entry_ok(q, b.seen, region, b.results[i]));
        }
        assert forall|i: int, j: int| 0 <= i < j < grown.len() implies (#[trigger] grown[i]).id != (
        #[trigger] grown[j]).id by {
            if i == p {
                assert(grown[j] == b.results[j - 1]);
            } else if j == p {
                assert(grown[i] == b.results[i]);
            } else {
                let a = if i < p {
                    i
                } else {
                    i - 1
                };
                let c = if j < p {
                    j
                } else {
                    j - 1
                };
                assert(grown[i] == b.results[a]);
                assert(grown[j] == b.results[c]);
                assert(a < c);
            }
        }
        if grown.len() > q.ef {
            let cut = grown.drop_last();
            assert forall|i: int, j: int| 0 <= i < j < cut.len() implies !(#[trigger] cut[j]).before(
                #[trigger] cut[i],
            ) by {
                assert(!grown[j].before(grown[i]));
            }
            assert forall|i: int| 0 <= i < cut.len() implies entry_ok(
                q,
                e.seen,
                region,
                #[trigger] cut[i],
            ) && (q.keeps)(cut[i].id as u32) by {
                assert(cut[i] == grown[i]);
            }
            assert forall|i: int, j: int| 0 <= i < j < cut.len() implies (#[trigger] cut[i]).id != (
            #[trigger] cut[j]).id by {
                assert(grown[i].id != grown[j].id);
            }
        }
    }
}

/// Seeding keeps the invariant; the frontier grows no faster than the met points.
pub proof fn lemma_seed(q: LayerQuery, b: Beam, id: u32, region: Set<u32>)
    requires
        beam_ok(q, b, region),
        b.seen.finite(),
        region.contains(id),
    ensures
        beam_ok(q, seed(q, b, id), region),
        seed(q, b, id).seen == b.seen.insert(id),
        seed(q, b, id).seen.finite(),
        seed(q, b, id).frontier.len() + b.seen.len() == b.frontier.len() + seed(q, b, id).seen.len(),
{
    if !b.seen.contains(id) {
        lemma_enqueue_fresh(q, b, id, region);
    } else {
        assert(b.seen.insert(id) =~= b.seen);
    }
}

/// Meeting a neighbor keeps the invariant; the frontier grows no faster than the met
/// points.
pub proof fn lemma_meet(q: LayerQuery, b: Beam, id: u32, region: Set<u32>)
    requires
        beam_ok(q, b, region),
        b.seen.finite(),
        region.contains(id),
    ensures
        beam_ok(q, meet(q, b, id), region),
        meet(q, b, id).seen == b.seen.insert(id),
        meet(q, b, id).seen.finite(),
        meet(q, b, id).frontier.len() + b.seen.len() <= b.frontier.len() + meet(q, b, id).seen.len(),
{
    if !b.seen.contains(id) {
        lemma_enqueue_fresh(q, b, id, region);
    } else {
        assert(b.seen.insert(id) =~= b.seen);
    }
}

/// Whether a point that was offered to the beam is accounted for: it is among the results,
/// or they are full and all rank before it.
pub open spec fn placed(q: LayerQuery, results: Seq<Ranked>, id: u32) -> bool {
    ||| results.contains(measured(q, id))
    ||| results.len() == q.ef && forall|i: int|
        0 <= i < results.len() ==> (#[trigger] results[i]).before(measured(q, id))
}

/// Offering a fresh point to the beam accounts for it, and for every point that was
/// accounted for before.
pub proof fn lemma_enqueue_places(q: LayerQuery, b: Beam, id: u32, region: Set<u32>, other: u32)
    requires
        beam_ok(q, b, region),
        !b.seen.contains(id),
        region.contains(id),
        (q.keeps)(id),
        other == id || placed(q, b.results, other),
    ensures
        placed(q, enqueue(q, b.marked(id), id).results, other),
{
    let s = b.results;
    let r = measured(q, id);
    let x = measured(q, other);
    let p = ranking::place_of(s, r);
    let grown = ranking::insert_sorted(s, r);
    let next = enqueue(q, b.marked(id), id).results;
    ranking::lemma_place_of(s, r);
    assert(grown == s.insert(p, r));
    assert forall|i: int| 0 <= i < s.len() implies (#[trigger] s[i]).id != r.id by {
        assert(entry_ok(q, b.seen, region, s[i]));
    }
    // Where everything comes after the insertion.
    assert forall|i: int| 0 <= i < s.len() implies #[trigger] s[i] == grown[if i < p {
        i
    } else {
        i + 1
    }] by {}
    assert(grown[p] == r);
    if grown.len() <= q.ef {
        if other == id {
            assert(next[p] == x);
        } else if s.contains(x) {
            let i = s.index_of(x);
            assert(next[if i < p {
                i
            } else {
                i + 1
            }] == x);
        }
    } else {
        let n = s.len() as int;
        assert(next == grown.drop_last());
        if other == id || s.contains(x) {
            let at = if other == id {
                p
            } else if s.index_of(x) < p {
                s.index_of(x)
            } else {
                s.index_of(x) + 1
            };
            assert(grown[at] == x);
            if at < n {
                assert(next[at] == x);
            } else {
                ranking::lemma_insert_sorted(s, r);
                assert forall|i: int| 0 <= i < next.len() implies (#[trigger] next[i]).before(x) by {
                    assert(next[i] == grown[i]);
                    assert(!grown[n].before(grown[i]));
                    if p == n {
                        assert(grown[i] == s[i]);
                    } else if i == p {
                        assert(grown[n] == s[n - 1]);
                    } else {
                        let j = if i < p {
                            i
                        } else {
                            i - 1
                        };
                        assert(grown[i] == s[j]);
                        assert(grown[n] == s[n - 1]);
                        assert(s[j].id != s[n - 1].id);
                    }
                }
            }
        } else {
            assert forall|i: int| 0 <= i < next.len() implies (#[trigger] next[i]).before(x) by {
                assert(next[i] == grown[i]);
                if i < p {
                    assert(grown[i] == s[i]);
                } else if i == p {
                    assert(r.before(s[p]));
                    assert(s[p].before(x));
                } else {
                    assert(grown[i] == s[i - 1]);
                }
            }
        }
    }
}

/// Seeding accounts for the entry point, and for every point accounted for before.
pub proof fn lemma_seed_places(q: LayerQuery, b: Beam, id: u32, region: Set<u32>, other: u32)
    requires
        beam_ok(q, b, region),
        region.contains(id),
        (q.keeps)(id),
        b.seen.contains(other) ==> placed(q, b.results, other),
        b.seen.contains(other) || other == id,
    ensures
        placed(q, seed(q, b, id).results, other),
{
    if !b.seen.contains(id) {
        lemma_enqueue_places(q, b, id, region, other);
    }
}

/// Meeting a neighbor forgets no point that was accounted for.
pub proof fn lemma_meet_places(q: LayerQuery, b: Beam, id: u32, region: Set<u32>, other: u32)
    requires
        beam_ok(q, b, region),
        region.contains(id),
        (q.keeps)(id),
        placed(q, b.results, other),
    ensures
        placed(q, meet(q, b, id).results, other),
{
    if !b.seen.contains(id) {
        lemma_enqueue_places(q, b, id, region, other);
    }
}

/// Seeding from entry points of the region keeps the invariant.
pub proof fn lemma_seed_all(q: LayerQuery, b: Beam, ids: Seq<u32>, region: Set<u32>)
    requires
        beam_ok(q, b, region),
        b.seen.finite(),
        forall|i: int| 0 <= i < ids.len() ==> region.contains(#[trigger] ids[i]),
    ensures
        beam_ok(q, seed_all(q, b, ids), region),
        seed_all(q, b, ids).seen.finite(),
        seed_all(q, b, ids).frontier.len() + b.seen.len() == b.frontier.len() + seed_all(
            q,
            b,
            ids,
        ).seen.len(),
    decreases ids.len(),
{
    if ids.len() > 0 {
        lemma_seed_all(q, b, ids.drop_last(), region);
        assert(region.contains(ids[ids.len() - 1]));
        lemma_seed(q, seed_all(q, b, ids.drop_last()), ids.last(), region);
    }
}

/// Meeting neighbors of the region keeps the invariant.
pub proof fn lemma_meet_all(q: LayerQuery, b: Beam, ids: Seq<u32>, region: Set<u32>)
    requires
        beam_ok(q, b, region),
        b.seen.finite(),
        forall|i: int| 0 <= i < ids.len() ==> region.contains(#[trigger] ids[i]),
    ensures
        beam_ok(q, meet_all(q, b, ids), region),
        meet_all(q, b, ids).seen.finite(),
        meet_all(q, b, ids).frontier.len() + b.seen.len() <= b.frontier.len() + meet_all(
            q,
            b,
            ids,
        ).seen.len(),
    decreases ids.len(),
{
    if ids.len() > 0 {
        lemma_meet_all(q, b, ids.drop_last(), region);
        assert(region.contains(ids[ids.len() - 1]));
        lemma_meet(q, meet_all(q, b, ids.drop_last()), ids.last(), region);
    }
}

/// Taking the closest frontier point off keeps the invariant.
pub proof fn lemma_pop(q: LayerQuery, b: Beam, region: Set<u32>)
    requires
        beam_ok(q, b, region),
        b.frontier.len() > 0,
    ensures
        beam_ok(q, Beam { frontier: b.frontier.skip(1), ..b }, region),
{
    let rest = b.frontier.skip(1);
    assert forall|i: int, j: int| 0 <= i < j < rest.len() implies !(#[trigger] rest[j]).before(
        #[trigger] rest[i],
    ) by {
        assert(!b.frontier[j + 1].before(b.frontier[i + 1]));
    }
    assert forall|i: int| 0 <= i < rest.len() implies entry_ok(q, b.seen, region, #[trigger] rest[i]) by {
        assert(rest[i] == b.frontier[i + 1]);
    }
}

/// One expansion keeps the invariant within a closed region.
pub proof fn lemma_expand(q: LayerQuery, b: Beam, region: Set<u32>)
    requires
        beam_ok(q, b, region),
        b.seen.finite(),
        b.frontier.len() > 0,
        closed_under(q.adj, q.layer, region),
    ensures
        beam_ok(q, expand(q, b), region),
        expand(q, b).seen.finite(),
        expand(q, b).frontier.len() + b.seen.len() + 1 <= b.frontier.len() + expand(q, b).seen.len(),
{
    lemma_pop(q, b, region);
    let c = b.frontier[0].id as u32;
    assert(entry_ok(q, b.seen, region, b.frontier[0]));
    lemma_meet_all(
        q,
        Beam { frontier: b.frontier.skip(1), ..b },
        neighbors_of(q.adj, c, q.layer),
        region,
    );
}

proof fn lemma_run(q: LayerQuery, b: Beam, budget: nat, region: Set<u32>)
    requires
        beam_ok(q, b, region),
        b.seen.finite(),
        closed_under(q.adj, q.layer, region),
    ensures
        results_ok(q, run(q, b, budget), region),
    decreases budget,
{
    if budget > 0 && !finished(q, b) {
        lemma_expand(q, b, region);
        lemma_run(q, expand(q, b), (budget - 1) as nat, region);
    }
}

/// What the results of a search within a region look like: best first, no more than the
/// beam width, no point twice, every one admitted and at its true badness.
pub open spec fn results_ok(q: LayerQuery, results: Seq<Ranked>, region: Set<u32>) -> bool {
    &&& ranking::sorted(results)
    &&& results.len() <= q.ef
    &&& forall|i: int|
        0 <= i < results.len() ==> {
            &&& (#[trigger] results[i]).id <= u32::MAX
            &&& region.contains(results[i].id as u32)
            &&& (q.keeps)(results[i].id as u32)
            &&& results[i].badness == (q.dist)(results[i].id as u32)
        }
    &&& forall|i: int, j: int|
        0 <= i < j < results.len() ==> (#[trigger] results[i]).id != (#[trigger] results[j]).id
}

/// A layer search that starts in a closed region stays in it, and returns admitted
/// points only: sorted, distinct, at their true badness, and no more than the beam width.
pub proof fn law_layer_search(q: LayerQuery, entries: Seq<u32>, region: Set<u32>)
    requires
        closed_under(q.adj, q.layer, region),
        forall|i: int| 0 <= i < entries.len() ==> region.contains(#[trigger] entries[i]),
    ensures
        results_ok(q, layer_search(q, entries), region),
{
    assert(beam_ok(q, Beam::start(), region));
    lemma_seed_all(q, Beam::start(), entries, region);
    lemma_run(q, seed_all(q, Beam::start(), entries), q.adj.len(), region);
}

/// The ids below `n`.
pub open spec fn ids_below(n: nat) -> Set<u32> {
    Set::new(|i: u32| i < n)
}

/// A set of ids below `n` has at most `n` members.
pub proof fn lemma_ids_below_len(s: Set<u32>, n: nat)
    requires
        s.finite(),
        s.subset_of(ids_below(n)),
    ensures
        s.len() <= n,
    decreases n,
{
    if n == 0 {
        assert(s =~= Set::<u32>::empty());
    } else if n > 0x1_0000_0000 {
        assert(s.subset_of(ids_below((n - 1) as nat)));
        lemma_ids_below_len(s, (n - 1) as nat);
    } else {
        let last = (n - 1) as u32;
        assert(s.remove(last).subset_of(ids_below((n - 1) as nat)));
        lemma_ids_below_len(s.remove(last), (n - 1) as nat);
    }
}

/// Puts `x` in its place in a vector kept worst-first.
fn insert_reversed(v: &mut Vec<Ranked>, x: Ranked)
    requires
        ranking::sorted(old(v)@.reverse()),
    ensures
        final(v)@.reverse() == ranking::insert_sorted(old(v)@.reverse(), x),
{
    let ghost s = v@.reverse();
    let n: usize = v.len();
    let mut lo: usize = 0;
    let mut hi: usize = n;
    while lo < hi
        invariant
            n == v@.len(),
            s == v@.reverse(),
            ranking::sorted(s),
            lo <= hi <= n,
            forall|i: int| 0 <= i < lo ==> !x.before(#[trigger] s[i]),
            forall|i: int| hi <= i < n ==> x.before(#[trigger] s[i]),
        decreases hi - lo,
    {
        let mid: usize = lo + (hi - lo) / 2;
        assert(s[mid as int] == v@[n - 1 - mid]);
        if x.is_before(&v[n - 1 - mid]) {
            assert forall|i: int| mid <= i < n implies x.before(#[trigger] s[i]) by {
                if i > mid {
                    assert(!s[i].before(s[mid as int]));
                }
            }
            hi = mid;
        } else {
            assert forall|i: int| 0 <= i < mid + 1 implies !x.before(#[trigger] s[i]) by {
                if i < mid {
                    assert(!s[mid as int].before(s[i]));
                }
            }
            lo = mid + 1;
        }
    }
    proof {
        ranking::lemma_insert_at(s, lo as int, x);
        assert(v@.insert(n - lo, x).reverse() =~= s.insert(lo as int, x));
    }
    v.insert(n - lo, x);
}

/// Inserts an admitted point into the beam, evicting the worst entry beyond the width.
pub fn insert_capped(results: &mut Vec<Ranked>, r: Ranked, ef: usize)
    requires
        ranking::sorted(old(results)@),
    ensures
        final(results)@ == capped(ranking::insert_sorted(old(results)@, r), ef as nat),
{
    ranking::insert_ranked(results, r);
    if results.len() > ef {
        let _ = results.pop();
    }
}

/// The frontier and the results of a beam search in progress.
pub struct BeamSearch {
    /// The points still to expand, kept worst-first so the closest is popped off the end.
    pub frontier: Vec<Ranked>,
    /// The best admitted points so far, best-first.
    pub results: Vec<Ranked>,
}

impl BeamSearch {
    /// The state of the search, given the points met.
    pub open spec fn beam(&self, seen: Set<u32>) -> Beam {
        Beam { seen, frontier: self.frontier@.reverse(), results: self.results@ }
    }

    /// A search that has met nothing.
    pub fn new() -> (b: BeamSearch)
        ensures
            b.beam(Set::empty()) == Beam::start(),
    {
        let b = BeamSearch { frontier: Vec::new(), results: Vec::new() };
        assert(b.frontier@.reverse() =~= Seq::<Ranked>::empty());
        b
    }

    /// Puts a point on the frontier and, if admitted, in the results.
    fn enqueue<A: Admission>(&mut self, Ghost(q): Ghost<LayerQuery>, r: Ranked, ef: usize, admission: &A)
        requires
            q.ef == ef,
            q.keeps == admission.keeps_fn(),
            r.id <= u32::MAX,
            r == measured(q, r.id as u32),
            ranking::sorted(old(self).frontier@.reverse()),
            ranking::sorted(old(self).results@),
        ensures
            forall|seen: Set<u32>| #[trigger]
                final(self).beam(seen) == enqueue(q, old(self).beam(seen), r.id as u32),
    {
        insert_reversed(&mut self.frontier, r);
        if admission.keeps(r.id as u32) {
            insert_capped(&mut self.results, r, ef);
        }
    }

    /// Takes an entry point, unless it was met before.
    pub fn seed<D: Distance, A: Admission>(
        &mut self,
        Ghost(q): Ghost<LayerQuery>,
        Ghost(region): Ghost<Set<u32>>,
        id: u32,
        ef: usize,
        dist: &D,
        admission: &A,
        visited: &mut VisitedList,
    )
        requires
            q.ef == ef,
            q.dist == dist.badness_fn(),
            q.keeps == admission.keeps_fn(),
            dist.measures(id),
            old(visited).wf(),
            id < old(visited).capacity(),
            beam_ok(q, old(self).beam(old(visited).seen()), region),
        ensures
            final(visited).wf(),
            final(visited).capacity() == old(visited).capacity(),
            final(self).beam(final(visited).seen()) == seed(
                q,
                old(self).beam(old(visited).seen()),
                id,
            ),
    {
        if visited.visit(id) {
            let r = Ranked { badness: dist.badness(id), id: id as u64 };
            self.enqueue(Ghost(q), r, ef, admission);
        } else {
            assert(visited.seen() =~= old(visited).seen());
        }
    }

    /// Meets a neighbor: marks it, and follows it up if it could improve the beam.
    pub fn meet<D: Distance, A: Admission>(
        &mut self,
        Ghost(q): Ghost<LayerQuery>,
        Ghost(region): Ghost<Set<u32>>,
        id: u32,
        ef: usize,
        dist: &D,
        admission: &A,
        visited: &mut VisitedList,
    )
        requires
            q.ef == ef,
            q.dist == dist.badness_fn(),
            q.keeps == admission.keeps_fn(),
            dist.measures(id),
            old(visited).wf(),
            id < old(visited).capacity(),
            beam_ok(q, old(self).beam(old(visited).seen()), region),
        ensures
            final(visited).wf(),
            final(visited).capacity() == old(visited).capacity(),
            final(self).beam(final(visited).seen()) == meet(
                q,
                old(self).beam(old(visited).seen()),
                id,
            ),
    {
        if visited.visit(id) {
            let r = Ranked { badness: dist.badness(id), id: id as u64 };
            let n: usize = self.results.len();
            if n == 0 || n < ef || r.badness.key < self.results[n - 1].badness.key {
                self.enqueue(Ghost(q), r, ef, admission);
            }
        } else {
            assert(visited.seen() =~= old(visited).seen());
        }
    }

    /// Takes the closest frontier point off, unless the search is over.
    pub fn next(&mut self, Ghost(q): Ghost<LayerQuery>, Ghost(seen): Ghost<Set<u32>>, ef: usize) -> (c:
        Option<u32>)
        requires
            q.ef == ef,
        ensures
            c is None <==> finished(q, old(self).beam(seen)),
            c is None ==> final(self).results@ == old(self).results@,
            c matches Some(c) ==> {
                &&& c == old(self).beam(seen).frontier[0].id as u32
                &&& final(self).beam(seen) == (Beam {
                    frontier: old(self).beam(seen).frontier.skip(1),
                    ..old(self).beam(seen)
                })
            },
    {
        let left: usize = self.frontier.len();
        if left == 0 {
            return None;
        }
        let candidate = self.frontier[left - 1];
        assert(self.beam(seen).frontier[0] == candidate);
        let n: usize = self.results.len();
        if n > 0 && n >= ef && candidate.badness.key > self.results[n - 1].badness.key {
            return None;
        }
        let _ = self.frontier.pop();
        assert(self.frontier@.reverse() =~= old(self).frontier@.reverse().skip(1));
        Some(candidate.id as u32)
    }
}

/// Best-first search of one `layer`, returning the admitted results closest to the query,
/// best first.
pub fn search_layer<G: Graph, D: Distance, A: Admission>(
    graph: &G,
    layer: usize,
    entry_points: &[u32],
    ef: usize,
    dist: &D,
    admission: &A,
    visited: &mut VisitedList,
) -> (found: Vec<Ranked>)
    requires
        graph.graph_ok(),
        closed_under(graph.adjacency(), layer as nat, ids_below(graph.adjacency().len())),
        forall|i: int|
            0 <= i < entry_points@.len() ==> (#[trigger] entry_points@[i])
                < graph.adjacency().len(),
        forall|id: u32| id < graph.adjacency().len() ==> dist.measures(id),
        old(visited).wf(),
        old(visited).capacity() >= graph.adjacency().len(),
    ensures
        final(visited).wf(),
        final(visited).capacity() == old(visited).capacity(),
        found@ == layer_search(
            LayerQuery {
                adj: graph.adjacency(),
                layer: layer as nat,
                ef: ef as nat,
                dist: dist.badness_fn(),
                keeps: admission.keeps_fn(),
            },
            entry_points@,
        ),
{
    let ghost q = LayerQuery {
        adj: graph.adjacency(),
        layer: layer as nat,
        ef: ef as nat,
        dist: dist.badness_fn(),
        keeps: admission.keeps_fn(),
    };
    let ghost region = ids_below(graph.adjacency().len());
    visited.clear();
    let mut search = BeamSearch::new();
    proof {
        assert(beam_ok(q, Beam::start(), region));
        assert(seed_all(q, Beam::start(), entry_points@.take(0)) == Beam::start());
    }
    for i in 0..entry_points.len()
        invariant
            q.adj == graph.adjacency(),
            q.ef == ef,
            q.dist == dist.badness_fn(),
            q.keeps == admission.keeps_fn(),
            region == ids_below(q.adj.len()),
            forall|i: int|
                0 <= i < entry_points@.len() ==> (#[trigger] entry_points@[i]) < q.adj.len(),
            forall|id: u32| id < q.adj.len() ==> dist.measures(id),
            visited.wf(),
            visited.capacity() == old(visited).capacity(),
            visited.capacity() >= q.adj.len(),
            search.beam(visited.seen()) == seed_all(
                q,
                Beam::start(),
                entry_points@.take(i as int),
            ),
            beam_ok(q, search.beam(visited.seen()), region),
            visited.seen().finite(),
            search.frontier@.len() == visited.seen().len(),
    {
        proof {
            assert(entry_points@.take(i + 1).drop_last() =~= entry_points@.take(i as int));
            lemma_seed(q, search.beam(visited.seen()), entry_points@[i as int], region);
        }
        search.seed(Ghost(q), Ghost(region), entry_points[i], ef, dist, admission, visited);
    }
    proof {
        assert(entry_points@.take(entry_points@.len() as int) =~= entry_points@);
        lemma_ids_below_len(visited.seen(), q.adj.len());
    }
    let ghost mut budget: nat = q.adj.len();
    let mut done = false;
    while !done
        invariant
            graph.graph_ok(),
            q.adj == graph.adjacency(),
            q.layer == layer,
            q.ef == ef,
            q.dist == dist.badness_fn(),
            q.keeps == admission.keeps_fn(),
            region == ids_below(q.adj.len()),
            closed_under(q.adj, q.layer, region),
            forall|id: u32| id < q.adj.len() ==> dist.measures(id),
            visited.wf(),
            visited.capacity() == old(visited).capacity(),
            visited.capacity() >= q.adj.len(),
            !done ==> beam_ok(q, search.beam(visited.seen()), region),
            !done ==> visited.seen().finite(),
            !done ==> visited.seen().len() <= q.adj.len(),
            !done ==> search.frontier@.len() + q.adj.len() <= visited.seen().len() + budget,
            !done ==> run(q, search.beam(visited.seen()), budget) == layer_search(q, entry_points@),
            done ==> search.results@ == layer_search(q, entry_points@),
        decreases budget + (if done { 0int } else { 1int }),
    {
        let ghost before = search.beam(visited.seen());
        match search.next(Ghost(q), Ghost(visited.seen()), ef) {
            None => {
                done = true;
            },
            Some(c) => {
                let ghost popped = search.beam(visited.seen());
                proof {
                    assert(entry_ok(q, before.seen, region, before.frontier[0]));
                    lemma_pop(q, before, region);
                    lemma_expand(q, before, region);
                }
                let ids = graph.neighbors(c, layer);
                assert(meet_all(q, popped, ids@.take(0)) == popped);
                for j in 0..ids.len()
                    invariant
                        q.ef == ef,
                        q.layer == layer,
                        q.dist == dist.badness_fn(),
                        q.keeps == admission.keeps_fn(),
                        region == ids_below(q.adj.len()),
                        closed_under(q.adj, q.layer, region),
                        region.contains(c),
                        ids@ == neighbors_of(q.adj, c, q.layer),
                        forall|id: u32| id < q.adj.len() ==> dist.measures(id),
                        visited.wf(),
                        visited.capacity() == old(visited).capacity(),
                        visited.capacity() >= q.adj.len(),
                        search.beam(visited.seen()) == meet_all(q, popped, ids@.take(j as int)),
                        beam_ok(q, search.beam(visited.seen()), region),
                        visited.seen().finite(),
                {
                    proof {
                        assert(ids@.take(j + 1).drop_last() =~= ids@.take(j as int));
                        assert(region.contains(neighbors_of(q.adj, c, q.layer)[j as int]));
                        lemma_meet(q, search.beam(visited.seen()), ids@[j as int], region);
                    }
                    search.meet(Ghost(q), Ghost(region), ids[j], ef, dist, admission, visited);
                }
                proof {
                    assert(ids@.take(ids@.len() as int) =~= ids@);
                    assert(search.beam(visited.seen()) == expand(q, before));
                    lemma_ids_below_len(visited.seen(), q.adj.len());
                    budget = (budget - 1) as nat;
                }
            },
        }
    }
    search.results
}

} // verus!
