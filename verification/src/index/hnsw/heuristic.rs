//! Neighbor selection (Malkov & Yashunin, Algorithm 4).
//!
//! When wiring a point to its candidates, naively taking the closest ones produces
//! clustered, poorly-navigable graphs. The heuristic instead prefers a *diverse* set: a
//! candidate is kept only if it is not closer to an already-selected neighbor than to the
//! base point. With `keep_pruned` the discarded candidates top the selection up to the
//! degree target.
//!
//! Candidates are taken in `(badness, id)` order, so selection is deterministic.

use vstd::prelude::*;

use crate::distance;
use crate::distance::Kernel;
use crate::id::PointId;
use crate::ordered::OrderedF32;
use crate::ranking;
use crate::ranking::Ranked;
use crate::vector::VectorStorage;

verus! {

/// A badness (smaller = closer) between any two stored points.
pub trait PairDistance {
    /// The badness of each pair.
    spec fn pair_fn(&self) -> spec_fn(u32, u32) -> OrderedF32;

    /// Whether `id` can be measured.
    spec fn covers(&self, id: u32) -> bool;

    /// The badness between `a` and `b`.
    fn between(&self, a: u32, b: u32) -> (d: OrderedF32)
        requires
            self.covers(a),
            self.covers(b),
        ensures
            d == self.pair_fn()(a, b),
    ;
}

/// The exact badness between stored rows.
pub open spec fn row_pairs<K: Kernel>(kernel: K, rows: Seq<Seq<K::Elem>>) -> spec_fn(
    u32,
    u32,
) -> OrderedF32 {
    |a: u32, b: u32|
        distance::badness_of(
            kernel.spec_score(rows[a as int], rows[b as int]),
            kernel.spec_metric().prefers_higher(),
        )
}

/// The exact badness between stored rows.
pub struct RowPairs<'a, K: Kernel> {
    /// The rows.
    pub vectors: &'a VectorStorage<K>,
    /// The kernel.
    pub kernel: K,
}

impl<'a, K: Kernel> RowPairs<'a, K> {
    /// The kernel works on the stored rows.
    pub open spec fn wf(&self) -> bool {
        self.vectors.wf() && self.vectors.kernel.spec_dim() == self.kernel.spec_dim()
    }
}

impl<'a, K: Kernel> PairDistance for RowPairs<'a, K> {
    open spec fn pair_fn(&self) -> spec_fn(u32, u32) -> OrderedF32 {
        row_pairs(self.kernel, self.vectors.rows())
    }

    open spec fn covers(&self, id: u32) -> bool {
        self.wf() && id < self.vectors.rows().len()
    }

    fn between(&self, a: u32, b: u32) -> (d: OrderedF32) {
        let score = self.kernel.score(
            self.vectors.get(PointId::new(a)),
            self.vectors.get(PointId::new(b)),
        );
        distance::badness(score, self.kernel.metric().higher_is_better())
    }
}

/// The candidates other than `base`.
pub open spec fn without(candidates: Seq<Ranked>, base: u32) -> Seq<Ranked>
    decreases candidates.len(),
{
    if candidates.len() == 0 {
        Seq::empty()
    } else {
        let rest = without(candidates.drop_last(), base);
        if candidates.last().id == base {
            rest
        } else {
            rest.push(candidates.last())
        }
    }
}

/// Whether no chosen neighbor is closer to the candidate than the base is.
pub open spec fn diverse(
    pairs: spec_fn(u32, u32) -> OrderedF32,
    chosen: Seq<u32>,
    r: Ranked,
) -> bool {
    forall|i: int|
        0 <= i < chosen.len() ==> !(pairs(r.id as u32, #[trigger] chosen[i]).numerically_below(
            r.badness,
        ))
}

/// The neighbors chosen so far, and the candidates passed over.
pub ghost struct Picks {
    /// The chosen neighbors.
    pub chosen: Seq<u32>,
    /// The candidates passed over for lack of diversity.
    pub pruned: Seq<u32>,
}

/// Considers one candidate.
pub open spec fn pick(
    pairs: spec_fn(u32, u32) -> OrderedF32,
    p: Picks,
    r: Ranked,
    m: nat,
) -> Picks {
    if p.chosen.len() >= m {
        p
    } else if diverse(pairs, p.chosen, r) {
        Picks { chosen: p.chosen.push(r.id as u32), ..p }
    } else {
        Picks { pruned: p.pruned.push(r.id as u32), ..p }
    }
}

/// Considers the candidates in order.
pub open spec fn pick_all(
    pairs: spec_fn(u32, u32) -> OrderedF32,
    candidates: Seq<Ranked>,
    m: nat,
) -> Picks
    decreases candidates.len(),
{
    if candidates.len() == 0 {
        Picks { chosen: Seq::empty(), pruned: Seq::empty() }
    } else {
        pick(pairs, pick_all(pairs, candidates.drop_last(), m), candidates.last(), m)
    }
}

/// The first `n` ids, or all of them when there are fewer.
pub open spec fn at_most(s: Seq<u32>, n: int) -> Seq<u32> {
    if s.len() <= n {
        s
    } else {
        s.take(n)
    }
}

/// The neighbors that Algorithm 4 selects for `base`.
pub open spec fn selection(
    pairs: spec_fn(u32, u32) -> OrderedF32,
    base: u32,
    candidates: Seq<Ranked>,
    m: nat,
    keep_pruned: bool,
) -> Seq<u32> {
    let p = pick_all(pairs, ranking::sort_ranked(without(candidates, base)), m);
    if keep_pruned {
        p.chosen + at_most(p.pruned, m - p.chosen.len())
    } else {
        p.chosen
    }
}

/// No id occurs twice.
pub open spec fn distinct_ids(s: Seq<Ranked>) -> bool {
    forall|i: int, j: int| 0 <= i < j < s.len() ==> (#[trigger] s[i]).id != (#[trigger] s[j]).id
}

/// An id occurs among the entries.
pub open spec fn has_id(s: Seq<Ranked>, id: u32) -> bool {
    exists|i: int| 0 <= i < s.len() && (#[trigger] s[i]).id == id
}

/// What is left without `base`: the entries under any other id.
pub proof fn lemma_without(candidates: Seq<Ranked>, base: u32)
    ensures
        without(candidates, base).len() <= candidates.len(),
        forall|r: Ranked|
            #![trigger without(candidates, base).contains(r)]
            without(candidates, base).contains(r) <==> candidates.contains(r) && r.id != base,
        distinct_ids(candidates) ==> distinct_ids(without(candidates, base)),
        (forall|i: int| 0 <= i < candidates.len() ==> (#[trigger] candidates[i]).id != base)
            ==> without(candidates, base) == candidates,
    decreases candidates.len(),
{
    if candidates.len() > 0 {
        let shorter = candidates.drop_last();
        lemma_without(shorter, base);
        let rest = without(shorter, base);
        let w = without(candidates, base);
        assert forall|r: Ranked| #![trigger w.contains(r)]
            w.contains(r) <==> candidates.contains(r) && r.id != base by {
            if candidates.contains(r) {
                let i = candidates.index_of(r);
                if i < shorter.len() {
                    assert(shorter[i] == r);
                }
            }
            if rest.contains(r) {
                assert(w[rest.index_of(r)] == r);
                assert(shorter.contains(r));
                assert(candidates[shorter.index_of(r)] == r);
            }
            if r == candidates.last() && r.id != base {
                assert(w[w.len() - 1] == r);
                assert(candidates[candidates.len() - 1] == r);
            }
            if w.contains(r) {
                let i = w.index_of(r);
                if i < rest.len() {
                    assert(rest[i] == r);
                    assert(rest.contains(r));
                }
            }
        }
        if distinct_ids(candidates) {
            assert(distinct_ids(shorter)) by {
                assert forall|i: int, j: int| 0 <= i < j < shorter.len() implies (#[trigger] shorter[i]).id
                    != (#[trigger] shorter[j]).id by {
                    assert(candidates[i].id != candidates[j].id);
                }
            }
            assert forall|i: int, j: int| 0 <= i < j < w.len() implies (#[trigger] w[i]).id != (
            #[trigger] w[j]).id by {
                if j == rest.len() {
                    assert(rest.contains(rest[i]));
                    assert(shorter.contains(rest[i]));
                    let k = shorter.index_of(rest[i]);
                    assert(candidates[k].id != candidates[candidates.len() - 1].id);
                } else {
                    assert(rest[i].id != rest[j].id);
                }
            }
        }
        if forall|i: int| 0 <= i < candidates.len() ==> (#[trigger] candidates[i]).id != base {
            assert forall|i: int| 0 <= i < shorter.len() implies (#[trigger] shorter[i]).id != base by {
                assert(candidates[i].id != base);
            }
            assert(candidates[candidates.len() - 1].id != base);
            assert(w =~= candidates);
        }
    } else {
        assert(without(candidates, base) =~= candidates);
    }
}

/// Ranking keeps ids distinct.
pub proof fn lemma_sort_distinct(pool: Seq<Ranked>)
    requires
        distinct_ids(pool),
    ensures
        distinct_ids(ranking::sort_ranked(pool)),
    decreases pool.len(),
{
    if pool.len() > 0 {
        let t = pool.drop_last();
        let x = pool.last();
        assert(distinct_ids(t)) by {
            assert forall|i: int, j: int| 0 <= i < j < t.len() implies (#[trigger] t[i]).id != (
            #[trigger] t[j]).id by {
                assert(pool[i].id != pool[j].id);
            }
        }
        lemma_sort_distinct(t);
        ranking::law_sort_ranked(t);
        let s = ranking::sort_ranked(t);
        ranking::lemma_place_of(s, x);
        let p = ranking::place_of(s, x);
        let r = ranking::sort_ranked(pool);
        assert forall|i: int| 0 <= i < s.len() implies (#[trigger] s[i]).id != x.id by {
            assert(s.contains(s[i]));
            assert(t.contains(s[i]));
            let k = t.index_of(s[i]);
            assert(pool[k].id != pool[pool.len() - 1].id);
        }
        assert forall|i: int, j: int| 0 <= i < j < r.len() implies (#[trigger] r[i]).id != (
        #[trigger] r[j]).id by {
            if i == p {
                assert(r[j] == s[j - 1]);
            } else if j == p {
                assert(r[i] == s[i]);
            } else {
                let a = if i < p {
                    i
                } else {
                    i - 1
                };
                let b = if j < p {
                    j
                } else {
                    j - 1
                };
                assert(r[i] == s[a]);
                assert(r[j] == s[b]);
                assert(s[a].id != s[b].id);
            }
        }
    }
}

/// What choosing among distinct candidates keeps: everything considered is chosen or
/// passed over, at most once, until the target is met.
proof fn lemma_pick_all(pairs: spec_fn(u32, u32) -> OrderedF32, candidates: Seq<Ranked>, m: nat)
    requires
        forall|i: int| 0 <= i < candidates.len() ==> (#[trigger] candidates[i]).id <= u32::MAX,
    ensures
        ({
            let p = pick_all(pairs, candidates, m);
            let all = p.chosen + p.pruned;
            &&& p.chosen.len() <= m
            &&& p.chosen.len() + p.pruned.len() <= candidates.len()
            &&& p.chosen.len() < m ==> p.chosen.len() + p.pruned.len() == candidates.len()
            &&& forall|i: int| 0 <= i < all.len() ==> has_id(candidates, #[trigger] all[i])
            &&& distinct_ids(candidates) ==> all.no_duplicates()
        }),
    decreases candidates.len(),
{
    if candidates.len() > 0 {
        let shorter = candidates.drop_last();
        let r = candidates.last();
        assert(r == candidates[candidates.len() - 1]);
        assert forall|i: int| 0 <= i < shorter.len() implies (#[trigger] shorter[i]).id <= u32::MAX by {
            assert(candidates[i].id <= u32::MAX);
        }
        lemma_pick_all(pairs, shorter, m);
        let before = pick_all(pairs, shorter, m);
        let old_all = before.chosen + before.pruned;
        let p = pick_all(pairs, candidates, m);
        let all = p.chosen + p.pruned;
        assert forall|id: u32| has_id(shorter, id) implies has_id(candidates, id) by {
            let i = choose|i: int| 0 <= i < shorter.len() && (#[trigger] shorter[i]).id == id;
            assert(candidates[i].id == id);
        }
        assert forall|i: int| 0 <= i < all.len() implies has_id(candidates, #[trigger] all[i]) by {
            if p == before {
                assert(has_id(shorter, old_all[i]));
            } else if p.chosen.len() > before.chosen.len() {
                let n = before.chosen.len();
                if i < n {
                    assert(all[i] == old_all[i]);
                } else if i == n {
                    assert(all[i] == r.id as u32);
                    assert(candidates[candidates.len() - 1].id == all[i]);
                } else {
                    assert(all[i] == old_all[i - 1]);
                }
            } else {
                if i < old_all.len() {
                    assert(all[i] == old_all[i]);
                } else {
                    assert(all[i] == r.id as u32);
                    assert(candidates[candidates.len() - 1].id == all[i]);
                }
            }
        }
        if distinct_ids(candidates) {
            assert(distinct_ids(shorter)) by {
                assert forall|i: int, j: int| 0 <= i < j < shorter.len() implies (#[trigger] shorter[i]).id
                    != (#[trigger] shorter[j]).id by {
                    assert(candidates[i].id != candidates[j].id);
                }
            }
            assert forall|i: int| 0 <= i < old_all.len() implies #[trigger] old_all[i] != r.id as u32 by {
                assert(has_id(shorter, old_all[i]));
                let k = choose|k: int| 0 <= k < shorter.len() && (#[trigger] shorter[k]).id == old_all[i];
                assert(candidates[k].id != candidates[candidates.len() - 1].id);
            }
            if p != before {
                let n = if p.chosen.len() > before.chosen.len() {
                    before.chosen.len() as int
                } else {
                    old_all.len() as int
                };
                assert(all =~= old_all.insert(n, r.id as u32));
                assert forall|i: int, j: int| 0 <= i < all.len() && 0 <= j < all.len() && i != j implies all[i]
                    != all[j] by {
                    let a = if i < n {
                        i
                    } else {
                        i - 1
                    };
                    let b = if j < n {
                        j
                    } else {
                        j - 1
                    };
                    if i != n && j != n {
                        assert(all[i] == old_all[a]);
                        assert(all[j] == old_all[b]);
                    } else if i == n {
                        assert(all[j] == old_all[b]);
                    } else {
                        assert(all[i] == old_all[a]);
                    }
                }
            }
        }
    }
}

/// Selection never exceeds the degree target, never selects the base, selects only
/// candidates, and selects none twice if no candidate occurs twice. With pruned
/// candidates kept, it meets the target whenever there are enough candidates.
pub proof fn law_selection(
    pairs: spec_fn(u32, u32) -> OrderedF32,
    base: u32,
    candidates: Seq<Ranked>,
    m: nat,
    keep_pruned: bool,
)
    requires
        forall|i: int| 0 <= i < candidates.len() ==> (#[trigger] candidates[i]).id <= u32::MAX,
    ensures
        ({
            let chosen = selection(pairs, base, candidates, m, keep_pruned);
            &&& chosen.len() <= m
            &&& forall|i: int|
                0 <= i < chosen.len() ==> has_id(candidates, #[trigger] chosen[i]) && chosen[i]
                    != base
            &&& distinct_ids(candidates) ==> chosen.no_duplicates()
            &&& keep_pruned ==> chosen.len() == if without(candidates, base).len() <= m {
                without(candidates, base).len()
            } else {
                m
            }
        }),
{
    let w = without(candidates, base);
    let s = ranking::sort_ranked(w);
    lemma_without(candidates, base);
    ranking::law_sort_ranked(w);
    assert forall|i: int| 0 <= i < s.len() implies (#[trigger] s[i]).id <= u32::MAX && s[i].id != base
        && has_id(candidates, s[i].id as u32) by {
        assert(s.contains(s[i]));
        assert(w.contains(s[i]));
        let k = candidates.index_of(s[i]);
        assert(candidates[k] == s[i]);
        assert(candidates[k].id <= u32::MAX);
    }
    if distinct_ids(candidates) {
        lemma_sort_distinct(w);
    }
    lemma_pick_all(pairs, s, m);
    let p = pick_all(pairs, s, m);
    let all = p.chosen + p.pruned;
    let chosen = selection(pairs, base, candidates, m, keep_pruned);
    assert forall|i: int| 0 <= i < chosen.len() implies chosen[i] == all[i] by {}
    assert forall|i: int| 0 <= i < chosen.len() implies has_id(candidates, #[trigger] chosen[i])
        && chosen[i] != base by {
        assert(chosen[i] == all[i]);
        assert(has_id(s, all[i]));
        let k = choose|k: int| 0 <= k < s.len() && (#[trigger] s[k]).id == all[i];
        assert(has_id(candidates, s[k].id as u32));
    }
    if distinct_ids(candidates) {
        assert forall|i: int, j: int| 0 <= i < chosen.len() && 0 <= j < chosen.len() && i != j implies chosen[i]
            != chosen[j] by {
            assert(chosen[i] == all[i]);
            assert(chosen[j] == all[j]);
        }
    }
}

/// Points with their badness to `base`, in the order listed.
pub open spec fn ranked_to(
    pairs: spec_fn(u32, u32) -> OrderedF32,
    base: u32,
    ids: Seq<u32>,
) -> Seq<Ranked> {
    Seq::new(ids.len(), |i: int| Ranked { badness: pairs(base, ids[i]), id: ids[i] as u64 })
}

/// Builds a candidate list for `ids` relative to `base`.
pub fn candidates_to<P: PairDistance>(pairs: &P, base: u32, ids: &[u32]) -> (candidates: Vec<
    Ranked,
>)
    requires
        pairs.covers(base),
        forall|i: int| 0 <= i < ids@.len() ==> pairs.covers(#[trigger] ids@[i]),
    ensures
        candidates@ == ranked_to(pairs.pair_fn(), base, ids@),
{
    let mut candidates: Vec<Ranked> = Vec::with_capacity(ids.len());
    for i in 0..ids.len()
        invariant
            pairs.covers(base),
            forall|i: int| 0 <= i < ids@.len() ==> pairs.covers(#[trigger] ids@[i]),
            candidates@ == ranked_to(pairs.pair_fn(), base, ids@).take(i as int),
    {
        let id: u32 = ids[i];
        candidates.push(Ranked { badness: pairs.between(base, id), id: id as u64 });
        assert(candidates@ =~= ranked_to(pairs.pair_fn(), base, ids@).take(i + 1));
    }
    assert(candidates@ =~= ranked_to(pairs.pair_fn(), base, ids@));
    candidates
}

fn is_diverse<P: PairDistance>(pairs: &P, chosen: &Vec<u32>, r: &Ranked) -> (ok: bool)
    requires
        pairs.covers(r.id as u32),
        r.id <= u32::MAX,
        forall|i: int| 0 <= i < chosen@.len() ==> pairs.covers(#[trigger] chosen@[i]),
    ensures
        ok == diverse(pairs.pair_fn(), chosen@, *r),
{
    let e: u32 = r.id as u32;
    for i in 0..chosen.len()
        invariant
            e == r.id as u32,
            pairs.covers(e),
            forall|i: int| 0 <= i < chosen@.len() ==> pairs.covers(#[trigger] chosen@[i]),
            forall|j: int|
                0 <= j < i ==> !(pairs.pair_fn()(e, #[trigger] chosen@[j]).numerically_below(
                    r.badness,
                )),
    {
        // Closer to an already-selected neighbor than to the base: prune.
        if pairs.between(e, chosen[i]).below(r.badness) {
            return false;
        }
    }
    true
}

/// Selects up to `m` neighbors for `base` from `candidates` using Algorithm 4.
pub fn select_neighbors<P: PairDistance>(
    pairs: &P,
    base: u32,
    candidates: &Vec<Ranked>,
    m: usize,
    keep_pruned: bool,
) -> (selected: Vec<u32>)
    requires
        forall|i: int|
            0 <= i < candidates@.len() ==> (#[trigger] candidates@[i]).id <= u32::MAX
                && pairs.covers(candidates@[i].id as u32),
    ensures
        selected@ == selection(pairs.pair_fn(), base, candidates@, m as nat, keep_pruned),
{
    let mut others: Vec<Ranked> = Vec::new();
    for i in 0..candidates.len()
        invariant
            others@ == without(candidates@.take(i as int), base),
    {
        assert(candidates@.take(i + 1).drop_last() =~= candidates@.take(i as int));
        if candidates[i].id != base as u64 {
            others.push(candidates[i]);
        }
    }
    assert(candidates@.take(candidates@.len() as int) =~= candidates@);
    let sorted = ranking::sort(&others);
    let ghost target = pick_all(pairs.pair_fn(), sorted@, m as nat);
    proof {
        lemma_without(candidates@, base);
        ranking::law_sort_ranked(others@);
        assert forall|i: int| 0 <= i < sorted@.len() implies (#[trigger] sorted@[i]).id <= u32::MAX
            && pairs.covers(sorted@[i].id as u32) by {
            assert(sorted@.contains(sorted@[i]));
            assert(others@.contains(sorted@[i]));
            let k = candidates@.index_of(sorted@[i]);
            assert(candidates@[k] == sorted@[i]);
        }
    }
    let mut result: Vec<u32> = Vec::new();
    let mut discarded: Vec<u32> = Vec::new();
    for i in 0..sorted.len()
        invariant
            forall|i: int|
                0 <= i < sorted@.len() ==> (#[trigger] sorted@[i]).id <= u32::MAX && pairs.covers(
                    sorted@[i].id as u32,
                ),
            forall|j: int| 0 <= j < result@.len() ==> pairs.covers(#[trigger] result@[j]),
            pick_all(pairs.pair_fn(), sorted@.take(i as int), m as nat) == (Picks {
                chosen: result@,
                pruned: discarded@,
            }),
    {
        proof {
            assert(sorted@.take(i + 1).drop_last() =~= sorted@.take(i as int));
        }
        if result.len() < m {
            let r = sorted[i];
            if is_diverse(pairs, &result, &r) {
                result.push(r.id as u32);
            } else {
                discarded.push(r.id as u32);
            }
        }
    }
    assert(sorted@.take(sorted@.len() as int) =~= sorted@);
    if keep_pruned {
        let ghost chosen = result@;
        let mut i: usize = 0;
        proof {
            lemma_pick_all(pairs.pair_fn(), sorted@, m as nat);
            assert(chosen =~= chosen + discarded@.take(0));
        }
        while i < discarded.len() && result.len() < m
            invariant
                i <= discarded@.len(),
                chosen.len() <= m,
                result@ == chosen + discarded@.take(i as int),
                result@.len() <= m,
            decreases discarded@.len() - i,
        {
            result.push(discarded[i]);
            i = i + 1;
            assert(result@ =~= chosen + discarded@.take(i as int));
        }
        assert(result@ =~= chosen + at_most(discarded@, m - chosen.len()));
    }
    result
}

} // verus!
