//! Result fusion for multi-stage / hybrid queries.
//!
//! Reciprocal Rank Fusion combines several ranked result lists into one by summing
//! `1 / (k + rank)` across lists. It uses ranks, not raw scores, so lists with
//! incomparable score scales fuse cleanly. [`collect_ranks`] finds the ranks to sum over,
//! and [`fuse`] orders the sums.

use std::collections::HashMap;

use vstd::prelude::*;
use vstd::std_specs::hash::*;

use crate::ranking;
use crate::ranking::BoundedTopK;
use crate::ranking::Ranked;
use crate::ranking::Scored;

verus! {

broadcast use vstd::std_specs::hash::group_hash_axioms;

/// An id and the ranks it has, counted from 1, list by list.
#[derive(Debug)]
pub struct IdRanks {
    /// The id.
    pub id: u64,
    /// The ranks.
    pub ranks: Vec<u64>,
}

/// The ranks of an id among the first `n` entries of a list.
pub open spec fn ranks_in_list(list: Seq<u64>, id: u64, n: nat) -> Seq<u64>
    decreases n,
{
    if n == 0 {
        Seq::empty()
    } else {
        let rest = ranks_in_list(list, id, (n - 1) as nat);
        if list[n - 1] == id {
            rest.push(n as u64)
        } else {
            rest
        }
    }
}

/// The ranks of an id over several lists, list by list.
pub open spec fn ranks_in(lists: Seq<Seq<u64>>, id: u64) -> Seq<u64>
    decreases lists.len(),
{
    if lists.len() == 0 {
        Seq::empty()
    } else {
        ranks_in(lists.drop_last(), id) + ranks_in_list(lists.last(), id, lists.last().len())
    }
}

/// The contents of lists.
pub open spec fn contents(lists: Seq<Vec<u64>>) -> Seq<Seq<u64>> {
    Seq::new(lists.len(), |i: int| lists[i]@)
}

/// Whether entries give, for each id once, the ranks that `ranks` says, and leave out only
/// ids without ranks.
pub open spec fn tabulates(entries: Seq<IdRanks>, ranks: spec_fn(u64) -> Seq<u64>) -> bool {
    &&& forall|i: int, j: int|
        0 <= i < j < entries.len() ==> (#[trigger] entries[i]).id != (#[trigger] entries[j]).id
    &&& forall|i: int|
        0 <= i < entries.len() ==> (#[trigger] entries[i]).ranks@ == ranks(entries[i].id)
            && entries[i].ranks@.len() > 0
    &&& forall|id: u64|
        (forall|i: int| 0 <= i < entries.len() ==> (#[trigger] entries[i]).id != id)
            ==> #[trigger] ranks(id).len() == 0
}

/// Whether a table of places leads from each id to its entry.
pub open spec fn places(table: Map<u64, usize>, entries: Seq<IdRanks>) -> bool {
    &&& forall|id: u64| #[trigger]
        table.contains_key(id) ==> table[id] < entries.len() && entries[table[id] as int].id == id
    &&& forall|i: int|
        0 <= i < entries.len() ==> table.contains_key((#[trigger] entries[i]).id)
            && table[entries[i].id] == i
}

/// Adds a rank to an id.
fn add_rank(entries: &mut Vec<IdRanks>, table: &mut HashMap<u64, usize>, id: u64, rank: u64)
    requires
        places(old(table)@, old(entries)@),
    ensures
        places(final(table)@, final(entries)@),
        forall|ranks: spec_fn(u64) -> Seq<u64>, more: spec_fn(u64) -> Seq<u64>|
            #![trigger tabulates(old(entries)@, ranks), tabulates(final(entries)@, more)]
            tabulates(old(entries)@, ranks) && more(id) == ranks(id).push(rank) && (forall|other: u64|
                other != id ==> #[trigger] more(other) == ranks(other)) ==> tabulates(
                final(entries)@,
                more,
            ),
{
    let ghost before = entries@;
    let known: Option<usize> = match table.get(&id) {
        Some(slot) => Some(*slot),
        None => None,
    };
    match known {
        Some(slot) => {
            let ghost list = entries@[slot as int].ranks@;
            entries[slot].ranks.push(rank);
            proof {
                assert(entries@.len() == before.len());
                assert(entries@[slot as int].ranks@ == list.push(rank));
                assert forall|i: int| 0 <= i < entries@.len() implies (#[trigger] entries@[i]).id
                    == before[i].id && (i != slot ==> entries@[i] == before[i]) by {}
                assert forall|ranks: spec_fn(u64) -> Seq<u64>, more: spec_fn(u64) -> Seq<u64>|
                    #![trigger tabulates(before, ranks), tabulates(entries@, more)]
                    tabulates(before, ranks) && more(id) == ranks(id).push(rank) && (forall|
                        other: u64,
                    |
                        other != id ==> #[trigger] more(other) == ranks(other)) implies tabulates(
                    entries@,
                    more,
                ) by {
                    assert forall|i: int| 0 <= i < entries@.len() implies (
                    #[trigger] entries@[i]).ranks@ == more(entries@[i].id)
                        && entries@[i].ranks@.len() > 0 by {
                        assert(before[i].ranks@ == ranks(before[i].id));
                        if i != slot {
                            assert(before[i].id != before[slot as int].id);
                        }
                    }
                    assert forall|other: u64|
                        (forall|i: int|
                            0 <= i < entries@.len() ==> (#[trigger] entries@[i]).id != other)
                            implies #[trigger] more(other).len() == 0 by {
                        assert(entries@[slot as int].id == id);
                        assert forall|i: int| 0 <= i < before.len() implies (
                        #[trigger] before[i]).id != other by {
                            assert(entries@[i].id != other);
                        }
                        assert(ranks(other).len() == 0);
                    }
                    assert forall|i: int, j: int| 0 <= i < j < entries@.len() implies (
                    #[trigger] entries@[i]).id != (#[trigger] entries@[j]).id by {
                        assert(before[i].id != before[j].id);
                    }
                }
            }
        },
        None => {
            let mut list: Vec<u64> = Vec::new();
            list.push(rank);
            let _ = table.insert(id, entries.len());
            entries.push(IdRanks { id, ranks: list });
            proof {
                assert forall|i: int| 0 <= i < before.len() implies entries@[i] == before[i] by {}
                assert forall|i: int| 0 <= i < before.len() implies (#[trigger] before[i]).id != id by {}
                assert forall|ranks: spec_fn(u64) -> Seq<u64>, more: spec_fn(u64) -> Seq<u64>|
                    #![trigger tabulates(before, ranks), tabulates(entries@, more)]
                    tabulates(before, ranks) && more(id) == ranks(id).push(rank) && (forall|
                        other: u64,
                    |
                        other != id ==> #[trigger] more(other) == ranks(other)) implies tabulates(
                    entries@,
                    more,
                ) by {
                    assert(ranks(id).len() == 0);
                    assert(list@ =~= more(id));
                    assert forall|i: int| 0 <= i < entries@.len() implies (
                    #[trigger] entries@[i]).ranks@ == more(entries@[i].id)
                        && entries@[i].ranks@.len() > 0 by {
                        if i < before.len() {
                            assert(before[i].ranks@ == ranks(before[i].id));
                        }
                    }
                    assert forall|other: u64|
                        (forall|i: int|
                            0 <= i < entries@.len() ==> (#[trigger] entries@[i]).id != other)
                            implies #[trigger] more(other).len() == 0 by {
                        assert(entries@[before.len() as int].id == id);
                        assert forall|i: int| 0 <= i < before.len() implies (
                        #[trigger] before[i]).id != other by {
                            assert(entries@[i].id != other);
                        }
                        assert(ranks(other).len() == 0);
                    }
                    assert forall|i: int, j: int| 0 <= i < j < entries@.len() implies (
                    #[trigger] entries@[i]).id != (#[trigger] entries@[j]).id by {
                        if j < before.len() {
                            assert(before[i].id != before[j].id);
                        }
                    }
                }
            }
        },
    }
}

/// Finds, for every id in the lists, the ranks to sum over.
pub fn collect_ranks(lists: &Vec<Vec<u64>>) -> (entries: Vec<IdRanks>)
    ensures
        tabulates(entries@, |id: u64| ranks_in(contents(lists@), id)),
{
    let mut entries: Vec<IdRanks> = Vec::new();
    let mut table: HashMap<u64, usize> = HashMap::new();
    let ghost all = contents(lists@);
    for i in 0..lists.len()
        invariant
            all == contents(lists@),
            places(table@, entries@),
            tabulates(entries@, |id: u64| ranks_in(all.take(i as int), id)),
    {
        let list = &lists[i];
        let n: usize = list.len();
        let ghost done = all.take(i as int);
        proof {
            let a = |id: u64| ranks_in(done, id);
            let b = |id: u64| ranks_in(done, id) + ranks_in_list(list@, id, 0);
            assert forall|id: u64| #[trigger] a(id) == b(id) by {
                assert(a(id) =~= b(id));
            }
            assert(a =~= b);
        }
        for j in 0..n
            invariant
                n == list@.len(),
                places(table@, entries@),
                tabulates(
                    entries@,
                    |id: u64| ranks_in(done, id) + ranks_in_list(list@, id, j as nat),
                ),
        {
            let id: u64 = list[j];
            let ghost before = entries@;
            add_rank(&mut entries, &mut table, id, j as u64 + 1);
            proof {
                let ranks = |id: u64| ranks_in(done, id) + ranks_in_list(list@, id, j as nat);
                let more = |id: u64| ranks_in(done, id) + ranks_in_list(list@, id, (j + 1) as nat);
                assert(tabulates(before, ranks));
                assert(more(id) =~= ranks(id).push((j + 1) as u64));
                assert forall|other: u64| other != id implies #[trigger] more(other) == ranks(other) by {}
                assert(tabulates(entries@, more));
            }
        }
        proof {
            let longer = all.take(i + 1);
            assert(longer.drop_last() =~= done);
            assert(longer.last() == list@);
            let a = |id: u64| ranks_in(done, id) + ranks_in_list(list@, id, n as nat);
            let b = |id: u64| ranks_in(longer, id);
            assert forall|id: u64| #[trigger] a(id) == b(id) by {}
            assert(a =~= b);
        }
    }
    assert(all.take(all.len() as int) =~= all);
    entries
}

/// Scored ids as ranking entries, a higher score being better.
pub open spec fn fused_ranks(scored: Seq<Scored>) -> Seq<Ranked> {
    Seq::new(scored.len(), |i: int| ranking::rank_of(scored[i].score, scored[i].id, true))
}

/// Orders fused scores: the `top` highest, best first, ties broken by ascending id.
pub fn fuse(scored: &Vec<Scored>, top: usize) -> (out: Vec<Scored>)
    ensures
        out@ == ranking::all_scored(ranking::top_k(fused_ranks(scored@), top as nat), true),
{
    let mut best = BoundedTopK::new(top, true);
    let ghost ranks = fused_ranks(scored@);
    assert(ranks.take(0) =~= Seq::<Ranked>::empty());
    for i in 0..scored.len()
        invariant
            ranks == fused_ranks(scored@),
            best.wf(),
            best.k == top,
            best.higher_is_better,
            best.kept@ == ranking::top_k(ranks.take(i as int), top as nat),
    {
        let s = scored[i];
        best.offer(s.id, s.score);
        assert(ranks.take(i + 1) =~= ranks.take(i as int).push(ranks[i as int]));
    }
    assert(ranks.take(ranks.len() as int) =~= ranks);
    best.into_sorted()
}

} // verus!
