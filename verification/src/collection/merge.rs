//! Merging the results of several segments.

use std::collections::HashSet;
use std::sync::Arc;

use vstd::prelude::*;
use vstd::std_specs::hash::*;

use crate::distance::Kernel;
use crate::id::GlobalId;
use crate::ordered::OrderedF32;
use crate::ranking;
use crate::ranking::BoundedTopK;
use crate::ranking::Ranked;
use crate::ranking::Scored;
use crate::segment::SealedSegment;

verus! {

broadcast use vstd::std_specs::hash::group_hash_axioms;

/// A scored result keyed by collection-global id (the output of collection search).
#[derive(Debug, Clone, Copy, PartialEq, Eq, Structural)]
pub struct ScoredGlobal {
    /// The collection-global point id.
    pub id: GlobalId,
    /// The raw metric score.
    pub score: OrderedF32,
}

/// Segment results as ranking entries.
pub open spec fn ranks_of(found: Seq<(GlobalId, OrderedF32)>, higher: bool) -> Seq<Ranked> {
    Seq::new(found.len(), |i: int| ranking::rank_of(found[i].1, found[i].0.0, higher))
}

/// What sealed segments find, one after the other.
pub open spec fn offered<K: Kernel>(
    segments: Seq<Arc<SealedSegment<K>>>,
    query: Seq<K::Elem>,
    k: nat,
    keeps: spec_fn(u64) -> bool,
    higher: bool,
) -> Seq<Ranked>
    decreases segments.len(),
{
    if segments.len() == 0 {
        Seq::empty()
    } else {
        offered(segments.drop_last(), query, k, keeps, higher) + ranks_of(
            segments.last().results(query, k, keeps),
            higher,
        )
    }
}

/// Whether an id occurs among results.
pub open spec fn holds_id(results: Seq<ScoredGlobal>, id: u64) -> bool {
    exists|i: int| 0 <= i < results.len() && (#[trigger] results[i]).id.0 == id
}

/// The first entry of each id.
pub open spec fn first_of_each(scored: Seq<Scored>) -> Seq<ScoredGlobal>
    decreases scored.len(),
{
    if scored.len() == 0 {
        Seq::empty()
    } else {
        let rest = first_of_each(scored.drop_last());
        if holds_id(rest, scored.last().id) {
            rest
        } else {
            rest.push(ScoredGlobal { id: GlobalId(scored.last().id), score: scored.last().score })
        }
    }
}

/// The best `k` of a pool, without repeated ids.
pub open spec fn merged(pool: Seq<Ranked>, k: nat, higher: bool) -> Seq<ScoredGlobal> {
    first_of_each(ranking::all_scored(ranking::top_k(pool, k), higher))
}

/// Best-first order of results: by score, ties by ascending id.
pub open spec fn best_first(results: Seq<ScoredGlobal>, higher: bool) -> bool {
    forall|i: int, j: int|
        0 <= i < j < results.len() ==> ranking::rank_of(
            (#[trigger] results[i]).score,
            results[i].id.0,
            higher,
        ).before(ranking::rank_of((#[trigger] results[j]).score, results[j].id.0, higher))
}

/// Offers segment results to a collector. If what it keeps are the `k` best of a pool,
/// then afterwards it is the `k` best of the pool with the results added.
pub(crate) fn offer_all(merger: &mut BoundedTopK, found: &Vec<(GlobalId, OrderedF32)>)
    requires
        old(merger).wf(),
    ensures
        final(merger).wf(),
        final(merger).k == old(merger).k,
        final(merger).higher_is_better == old(merger).higher_is_better,
        forall|pool: Seq<Ranked>|
            old(merger).kept@ == #[trigger] ranking::top_k(pool, old(merger).k as nat) ==> final(merger).kept@
                == ranking::top_k(
                pool + ranks_of(found@, old(merger).higher_is_better),
                old(merger).k as nat,
            ),
{
    let ghost start = *merger;
    let ghost ranks = ranks_of(found@, merger.higher_is_better);
    assert forall|pool: Seq<Ranked>| pool + ranks.take(0) == pool by {
        assert(pool + ranks.take(0) =~= pool);
    }
    for i in 0..found.len()
        invariant
            merger.wf(),
            merger.k == start.k,
            merger.higher_is_better == start.higher_is_better,
            ranks == ranks_of(found@, start.higher_is_better),
            forall|pool: Seq<Ranked>|
                start.kept@ == #[trigger] ranking::top_k(pool, start.k as nat) ==> merger.kept@
                    == ranking::top_k(pool + ranks.take(i as int), start.k as nat),
    {
        let ghost before = *merger;
        let (id, score) = found[i];
        merger.offer(id.get(), score);
        proof {
            assert forall|pool: Seq<Ranked>|
                start.kept@ == #[trigger] ranking::top_k(pool, start.k as nat) implies merger.kept@
                == ranking::top_k(pool + ranks.take(i + 1), start.k as nat) by {
                let longer = pool + ranks.take(i as int);
                assert(before.kept@ == ranking::top_k(longer, before.k as nat));
                assert(longer.push(ranks[i as int]) =~= pool + ranks.take(i + 1));
            }
        }
    }
    assert(ranks.take(ranks.len() as int) =~= ranks);
}

/// Drains a collector into results without repeated ids.
pub(crate) fn finalize(merger: BoundedTopK) -> (results: Vec<ScoredGlobal>)
    ensures
        results@ == first_of_each(ranking::all_scored(merger.kept@, merger.higher_is_better)),
{
    let scored = merger.into_sorted();
    let mut seen: HashSet<u64> = HashSet::new();
    let mut results: Vec<ScoredGlobal> = Vec::new();
    assert(first_of_each(scored@.take(0)) =~= Seq::<ScoredGlobal>::empty());
    for i in 0..scored.len()
        invariant
            results@ == first_of_each(scored@.take(i as int)),
            forall|id: u64| #[trigger] seen@.contains(id) <==> holds_id(results@, id),
    {
        let s = scored[i];
        let ghost before = results@;
        let fresh = seen.insert(s.id);
        proof {
            assert(scored@.take(i + 1).drop_last() =~= scored@.take(i as int));
        }
        if fresh {
            results.push(ScoredGlobal { id: GlobalId::new(s.id), score: s.score });
        }
        proof {
            assert forall|id: u64| #[trigger] seen@.contains(id) <==> holds_id(results@, id) by {
                if holds_id(before, id) {
                    let j = choose|j: int| 0 <= j < before.len() && (#[trigger] before[j]).id.0 == id;
                    assert(results@[j].id.0 == id);
                }
                if holds_id(results@, id) {
                    let j = choose|j: int|
                        0 <= j < results@.len() && (#[trigger] results@[j]).id.0 == id;
                    if j < before.len() {
                        assert(before[j].id.0 == id);
                    }
                }
                if fresh && id == s.id {
                    assert(results@[results@.len() - 1].id.0 == id);
                }
            }
        }
    }
    assert(scored@.take(scored@.len() as int) =~= scored@);
    results
}

/// Whether a result is a scored entry.
pub open spec fn is_entry(s: Scored, r: ScoredGlobal) -> bool {
    s.id == r.id.0 && s.score == r.score
}

/// Whether one result comes before another among the scored entries.
pub open spec fn in_order(scored: Seq<Scored>, a: ScoredGlobal, b: ScoredGlobal) -> bool {
    exists|p: int, r: int|
        0 <= p < r < scored.len() && is_entry(#[trigger] scored[p], a) && is_entry(
            #[trigger] scored[r],
            b,
        )
}

/// Entries without repeated ids come from the scored entries, in their order, and every id
/// among the entries is kept.
pub proof fn lemma_first_of_each(scored: Seq<Scored>)
    ensures
        first_of_each(scored).len() <= scored.len(),
        forall|i: int, j: int|
            0 <= i < j < first_of_each(scored).len() ==> (#[trigger] first_of_each(scored)[i]).id
                != (#[trigger] first_of_each(scored)[j]).id,
        forall|i: int|
            0 <= i < first_of_each(scored).len() ==> exists|p: int|
                0 <= p < scored.len() && (#[trigger] scored[p]).id == (
                #[trigger] first_of_each(scored)[i]).id.0 && scored[p].score == first_of_each(
                    scored,
                )[i].score,
        forall|p: int|
            0 <= p < scored.len() ==> holds_id(first_of_each(scored), (#[trigger] scored[p]).id),
        forall|i: int, j: int|
            0 <= i < j < first_of_each(scored).len() ==> in_order(
                scored,
                #[trigger] first_of_each(scored)[i],
                #[trigger] first_of_each(scored)[j],
            ),
    decreases scored.len(),
{
    if scored.len() > 0 {
        let shorter = scored.drop_last();
        lemma_first_of_each(shorter);
        let rest = first_of_each(shorter);
        let all = first_of_each(scored);
        assert forall|i: int| 0 <= i < all.len() implies exists|p: int|
            0 <= p < scored.len() && (#[trigger] scored[p]).id == (#[trigger] all[i]).id.0
                && scored[p].score == all[i].score by {
            if i < rest.len() {
                assert(rest[i] == all[i]);
                let p = choose|p: int|
                    0 <= p < shorter.len() && (#[trigger] shorter[p]).id == rest[i].id.0
                        && shorter[p].score == rest[i].score;
                assert(scored[p] == shorter[p]);
            } else {
                assert(scored[scored.len() - 1].id == all[i].id.0);
            }
        }
        assert forall|i: int, j: int| 0 <= i < j < all.len() implies (#[trigger] all[i]).id != (
        #[trigger] all[j]).id by {
            assert(rest[i] == all[i]);
            if j < rest.len() {
                assert(rest[j] == all[j]);
            } else {
                assert(!holds_id(rest, scored.last().id));
                assert(rest[i].id.0 != scored.last().id);
            }
        }
        assert forall|i: int, j: int| 0 <= i < j < all.len() implies in_order(
            scored,
            #[trigger] all[i],
            #[trigger] all[j],
        ) by {
            assert(rest[i] == all[i]);
            if j < rest.len() {
                assert(rest[j] == all[j]);
                let (p, r) = choose|p: int, r: int|
                    0 <= p < r < shorter.len() && is_entry(#[trigger] shorter[p], rest[i])
                        && is_entry(#[trigger] shorter[r], rest[j]);
                assert(scored[p] == shorter[p] && scored[r] == shorter[r]);
            } else {
                let p = choose|p: int|
                    0 <= p < shorter.len() && (#[trigger] shorter[p]).id == rest[i].id.0
                        && shorter[p].score == rest[i].score;
                assert(scored[p] == shorter[p]);
                assert(is_entry(scored[p], all[i]));
                assert(is_entry(scored[scored.len() - 1], all[j]));
            }
        }
        assert forall|p: int| 0 <= p < scored.len() implies holds_id(all, (#[trigger] scored[p]).id) by {
            if p < shorter.len() {
                assert(shorter[p] == scored[p]);
                let i = choose|i: int|
                    0 <= i < rest.len() && (#[trigger] rest[i]).id.0 == shorter[p].id;
                assert(all[i].id.0 == scored[p].id);
            } else if holds_id(rest, scored.last().id) {
                let i = choose|i: int|
                    0 <= i < rest.len() && (#[trigger] rest[i]).id.0 == scored.last().id;
                assert(all[i].id.0 == scored[p].id);
            } else {
                assert(all[all.len() - 1].id.0 == scored[p].id);
            }
        }
    }
}

/// Merged results number at most `k`, come best first, name no point twice, and each comes
/// from the pool at the score it was offered with.
pub proof fn law_merged(pool: Seq<Ranked>, k: nat, higher: bool)
    ensures
        merged(pool, k, higher).len() <= k,
        forall|i: int, j: int|
            0 <= i < j < merged(pool, k, higher).len() ==> (#[trigger] merged(
                pool,
                k,
                higher,
            )[i]).id != (#[trigger] merged(pool, k, higher)[j]).id,
        forall|i: int|
            0 <= i < merged(pool, k, higher).len() ==> {
                let r = #[trigger] merged(pool, k, higher)[i];
                pool.contains(ranking::rank_of(r.score, r.id.0, higher))
            },
        best_first(merged(pool, k, higher), higher),
{
    let best = ranking::top_k(pool, k);
    let scored = ranking::all_scored(best, higher);
    ranking::law_top_k(pool, k);
    lemma_first_of_each(scored);
    let results = merged(pool, k, higher);
    assert forall|i: int| 0 <= i < results.len() implies pool.contains(
        ranking::rank_of((#[trigger] results[i]).score, results[i].id.0, higher),
    ) by {
        let p = choose|p: int|
            0 <= p < scored.len() && (#[trigger] scored[p]).id == results[i].id.0
                && scored[p].score == results[i].score;
        assert(scored[p] == ranking::scored_of(best[p], higher));
        crate::ordered::law_negation_reverses_order(best[p].badness, best[p].badness);
        assert(ranking::rank_of(results[i].score, results[i].id.0, higher) == best[p]);
        assert(best.contains(best[p]));
    }
    assert forall|i: int, j: int| 0 <= i < j < results.len() implies ranking::rank_of(
        (#[trigger] results[i]).score,
        results[i].id.0,
        higher,
    ).before(ranking::rank_of((#[trigger] results[j]).score, results[j].id.0, higher)) by {
        assert(in_order(scored, results[i], results[j]));
        let (p, r) = choose|p: int, r: int|
            0 <= p < r < scored.len() && is_entry(#[trigger] scored[p], results[i]) && is_entry(
                #[trigger] scored[r],
                results[j],
            );
        assert(scored[p] == ranking::scored_of(best[p], higher));
        assert(scored[r] == ranking::scored_of(best[r], higher));
        crate::ordered::law_negation_reverses_order(best[p].badness, best[p].badness);
        crate::ordered::law_negation_reverses_order(best[r].badness, best[r].badness);
        assert(ranking::rank_of(results[i].score, results[i].id.0, higher) == best[p]);
        assert(ranking::rank_of(results[j].score, results[j].id.0, higher) == best[r]);
        assert(!best[r].before(best[p]));
        assert(results[i].id != results[j].id);
    }
}

} // verus!
