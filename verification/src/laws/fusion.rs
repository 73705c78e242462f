//! What fusing ranked lists, and ordering scores, gives.

use vstd::prelude::*;

use crate::query;
use crate::ranking;
use crate::ranking::Ranked;
use crate::ranking::Scored;
use crate::sorting;

verus! {

/// The ranks of an id in a list are the places, counted from one, at which it stands, in
/// order.
pub proof fn law_ranks_are_places(list: Seq<u64>, id: u64)
    ensures
        list.len() <= u64::MAX ==> {
            let ranks = query::ranks_in_list(list, id, list.len());
            &&& forall|i: int|
                0 <= i < ranks.len() ==> 1 <= (#[trigger] ranks[i]) <= list.len() && list[ranks[i]
                    - 1] == id
            &&& forall|i: int, j: int|
                0 <= i < j < ranks.len() ==> (#[trigger] ranks[i]) < (#[trigger] ranks[j])
            &&& forall|p: int|
                0 <= p < list.len() && (#[trigger] list[p]) == id ==> ranks.contains((p + 1) as u64)
        },
{
    if list.len() <= u64::MAX {
        lemma_ranks(list, id, list.len());
    }
}

proof fn lemma_ranks(list: Seq<u64>, id: u64, n: nat)
    requires
        n <= list.len(),
        n <= u64::MAX,
    ensures
        ({
            let ranks = query::ranks_in_list(list, id, n);
            &&& forall|i: int|
                0 <= i < ranks.len() ==> 1 <= (#[trigger] ranks[i]) <= n && list[ranks[i] - 1] == id
            &&& forall|i: int, j: int|
                0 <= i < j < ranks.len() ==> (#[trigger] ranks[i]) < (#[trigger] ranks[j])
            &&& forall|p: int|
                0 <= p < n && (#[trigger] list[p]) == id ==> ranks.contains((p + 1) as u64)
        }),
    decreases n,
{
    if n > 0 {
        let m = (n - 1) as nat;
        lemma_ranks(list, id, m);
        let before = query::ranks_in_list(list, id, m);
        let ranks = query::ranks_in_list(list, id, n);
        assert forall|p: int| 0 <= p < n && (#[trigger] list[p]) == id implies ranks.contains(
            (p + 1) as u64,
        ) by {
            if p < m {
                let i = before.index_of((p + 1) as u64);
                assert(ranks[i] == (p + 1) as u64);
            } else {
                assert(ranks[before.len() as int] == n as u64);
            }
        }
    }
}

/// The ranks over several lists are those in each, list by list.
pub proof fn law_ranks_add_up_over_lists(lists: Seq<Seq<u64>>, list: Seq<u64>, id: u64)
    ensures
        query::ranks_in(Seq::empty(), id).len() == 0,
        query::ranks_in(lists.push(list), id) == query::ranks_in(lists, id)
            + query::ranks_in_list(list, id, list.len()),
{
    assert(lists.push(list).drop_last() =~= lists);
}

/// Fusing returns the highest scores first, between equal scores the smaller id, as many as
/// asked for or all there are; nothing that is left out is higher than what is returned.
pub proof fn law_fusion_returns_the_highest(scored: Seq<Scored>, top: nat)
    ensures
        ({
            let out = ranking::all_scored(
                ranking::top_k(query::fused_ranks(scored), top),
                true,
            );
            &&& out.len() == if scored.len() <= top {
                scored.len()
            } else {
                top
            }
            &&& forall|i: int| 0 <= i < out.len() ==> scored.contains(#[trigger] out[i])
            &&& forall|i: int, j: int|
                0 <= i < j < out.len() ==> (#[trigger] out[i]).score.key > (
                #[trigger] out[j]).score.key || (out[i].score.key == out[j].score.key && out[i].id
                    <= out[j].id)
            &&& forall|s: Scored, i: int|
                #[trigger] scored.contains(s) && !out.contains(s) && 0 <= i < out.len() ==> (
                #[trigger] out[i]).score.key > s.score.key || (out[i].score.key == s.score.key
                    && out[i].id <= s.id)
        }),
{
    let pool = query::fused_ranks(scored);
    let best = ranking::top_k(pool, top);
    let out = ranking::all_scored(best, true);
    ranking::law_top_k(pool, top);
    assert forall|i: int| 0 <= i < out.len() implies scored.contains(#[trigger] out[i]) by {
        assert(best.contains(best[i]));
        assert(pool.contains(best[i]));
        let p = pool.index_of(best[i]);
        assert(pool[p] == best[i]);
        assert(scored[p] == out[i]);
    }
    assert forall|i: int, j: int| 0 <= i < j < out.len() implies (#[trigger] out[i]).score.key > (
    #[trigger] out[j]).score.key || (out[i].score.key == out[j].score.key && out[i].id
        <= out[j].id) by {
        assert(!best[j].before(best[i]));
    }
    assert forall|s: Scored, i: int|
        #[trigger] scored.contains(s) && !out.contains(s) && 0 <= i < out.len() implies (
    #[trigger] out[i]).score.key > s.score.key || (out[i].score.key == s.score.key && out[i].id
        <= s.id) by {
        let p = scored.index_of(s);
        let y = pool[p];
        assert(pool.contains(y));
        if best.contains(y) {
            let q = best.index_of(y);
            assert(out[q] == s);
        }
        assert(!y.before(best[i]));
    }
}

/// Ranking a pool loses nothing and adds nothing: the ranked list has the same entries, as
/// often, best first; and its first `k` are the best of them.
pub proof fn law_ranking_is_a_permutation(pool: Seq<Ranked>, k: nat)
    ensures
        ({
            let all = ranking::sort_ranked(pool);
            let best = ranking::top_k(pool, k);
            &&& all.to_multiset() == pool.to_multiset()
            &&& forall|i: int, j: int|
                0 <= i < j < all.len() ==> (#[trigger] all[i]).badness.key < (
                #[trigger] all[j]).badness.key || (all[i].badness.key == all[j].badness.key
                    && all[i].id <= all[j].id)
            &&& best.len() == if pool.len() <= k {
                pool.len()
            } else {
                k
            }
            &&& best == all.take(best.len() as int)
        }),
{
    let all = ranking::sort_ranked(pool);
    let best = ranking::top_k(pool, k);
    ranking::law_sort_ranked(pool);
    ranking::law_top_k(pool, k);
    assert(best =~= all.take(best.len() as int));
    assert forall|i: int, j: int| 0 <= i < j < all.len() implies (#[trigger] all[i]).badness.key < (
    #[trigger] all[j]).badness.key || (all[i].badness.key == all[j].badness.key && all[i].id
        <= all[j].id) by {
        assert(!all[j].before(all[i]));
    }
}

/// A score becomes a ranking key and comes back as it was.
pub proof fn law_scores_survive_ranking(s: Scored, higher: bool)
    ensures
        ranking::scored_of(ranking::rank_of(s.score, s.id, higher), higher) == s,
{
}

/// Ordering by id visits every place once, in ascending order of id, and places with the same
/// id in the order in which they came.
pub proof fn law_order_is_by_id_then_place(ids: Seq<u64>, order: Seq<usize>)
    requires
        sorting::stable_order(ids, order),
    ensures
        order.len() == ids.len(),
        order.no_duplicates(),
        forall|p: usize| p < ids.len() ==> #[trigger] order.contains(p),
        forall|i: int, j: int|
            0 <= i < j < order.len() ==> ids[(#[trigger] order[i]) as int] <= ids[(
            #[trigger] order[j]) as int],
        forall|i: int, j: int|
            0 <= i < j < order.len() && ids[(#[trigger] order[i]) as int] == ids[(
            #[trigger] order[j]) as int] ==> order[i] < order[j],
{
    sorting::law_stable_order_is_permutation(ids, order);
}

} // verus!
