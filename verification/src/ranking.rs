//! Ranking of scored ids.
//!
//! A *ranked* id pairs a badness (smaller is closer, whatever the metric) with the id.
//! Pairs are ordered by badness and then by id, so every ranking is deterministic: two
//! different ids never tie. Everything that ranks (flat scans, the graph beam search,
//! neighbor selection, merging across segments) goes through this order.

use vstd::prelude::*;

use crate::distance;
use crate::index::hnsw::heuristic;
use crate::ordered::OrderedF32;

verus! {

/// An id with its badness.
#[derive(Clone, Copy, PartialEq, Eq, Debug, Structural)]
pub struct Ranked {
    /// The badness: smaller is closer.
    pub badness: OrderedF32,
    /// The id; breaks ties.
    pub id: u64,
}

impl Ranked {
    /// Whether `self` ranks strictly better than `other`.
    pub open spec fn before(self, other: Ranked) -> bool {
        self.badness.key < other.badness.key || (self.badness.key == other.badness.key && self.id
            < other.id)
    }

    /// Whether `self` ranks strictly better than `other`.
    pub fn is_before(&self, other: &Ranked) -> (r: bool)
        ensures
            r == self.before(*other),
    {
        self.badness.key < other.badness.key || (self.badness.key == other.badness.key && self.id
            < other.id)
    }
}

/// Best-first order: no later entry ranks before an earlier one.
pub open spec fn sorted(s: Seq<Ranked>) -> bool {
    forall|i: int, j: int| 0 <= i < j < s.len() ==> !(#[trigger] s[j]).before(#[trigger] s[i])
}

/// `s` with `x` put in its place.
pub open spec fn insert_sorted(s: Seq<Ranked>, x: Ranked) -> Seq<Ranked>
    decreases s.len(),
{
    if s.len() == 0 {
        seq![x]
    } else if x.before(s.last()) {
        insert_sorted(s.drop_last(), x).push(s.last())
    } else {
        s.push(x)
    }
}

/// The entries of `pool`, best first.
pub open spec fn sort_ranked(pool: Seq<Ranked>) -> Seq<Ranked>
    decreases pool.len(),
{
    if pool.len() == 0 {
        Seq::empty()
    } else {
        insert_sorted(sort_ranked(pool.drop_last()), pool.last())
    }
}

/// The first `k` entries, or all of them when there are fewer.
pub open spec fn first_k(s: Seq<Ranked>, k: nat) -> Seq<Ranked> {
    if s.len() <= k {
        s
    } else {
        s.take(k as int)
    }
}

/// The `k` best entries of `pool`, best first.
pub open spec fn top_k(pool: Seq<Ranked>, k: nat) -> Seq<Ranked> {
    first_k(sort_ranked(pool), k)
}

/// Where `x` goes is decided by the entries that rank after it.
pub proof fn lemma_insert_at(s: Seq<Ranked>, p: int, x: Ranked)
    requires
        0 <= p <= s.len(),
        forall|i: int| 0 <= i < p ==> !x.before(#[trigger] s[i]),
        forall|i: int| p <= i < s.len() ==> x.before(#[trigger] s[i]),
    ensures
        insert_sorted(s, x) == s.insert(p, x),
    decreases s.len(),
{
    if s.len() == 0 {
        assert(s.insert(p, x) =~= seq![x]);
    } else if p == s.len() {
        assert(!x.before(s[s.len() - 1]));
        assert(s.insert(p, x) =~= s.push(x));
    } else {
        assert(x.before(s[s.len() - 1]));
        lemma_insert_at(s.drop_last(), p, x);
        assert(s.drop_last().insert(p, x).push(s.last()) =~= s.insert(p, x));
    }
}

/// The place of `x` in a sorted sequence.
pub open spec fn place_of(s: Seq<Ranked>, x: Ranked) -> int
    decreases s.len(),
{
    if s.len() == 0 {
        0
    } else if x.before(s.last()) {
        place_of(s.drop_last(), x)
    } else {
        s.len() as int
    }
}

/// The place splits a sorted sequence into what `x` follows and what it precedes.
pub proof fn lemma_place_of(s: Seq<Ranked>, x: Ranked)
    requires
        sorted(s),
    ensures
        0 <= place_of(s, x) <= s.len(),
        forall|i: int| 0 <= i < place_of(s, x) ==> !x.before(#[trigger] s[i]),
        forall|i: int| place_of(s, x) <= i < s.len() ==> x.before(#[trigger] s[i]),
        insert_sorted(s, x) == s.insert(place_of(s, x), x),
    decreases s.len(),
{
    if s.len() > 0 {
        if x.before(s.last()) {
            let t = s.drop_last();
            lemma_place_of(t, x);
            assert forall|i: int| 0 <= i < place_of(s, x) implies !x.before(#[trigger] s[i]) by {
                assert(t[i] == s[i]);
            }
            assert forall|i: int| place_of(s, x) <= i < s.len() implies x.before(#[trigger] s[i]) by {
                if i < s.len() - 1 {
                    assert(t[i] == s[i]);
                }
            }
        } else {
            assert forall|i: int| 0 <= i < s.len() implies !x.before(#[trigger] s[i]) by {
                if i < s.len() - 1 {
                    assert(!s[s.len() - 1].before(s[i]));
                }
            }
        }
    }
    lemma_insert_at(s, place_of(s, x), x);
}

/// Putting an entry in its place keeps the order and adds exactly that entry.
pub proof fn lemma_insert_sorted(s: Seq<Ranked>, x: Ranked)
    requires
        sorted(s),
    ensures
        sorted(insert_sorted(s, x)),
        insert_sorted(s, x).len() == s.len() + 1,
        insert_sorted(s, x).to_multiset() == s.to_multiset().insert(x),
        forall|y: Ranked| insert_sorted(s, x).contains(y) <==> s.contains(y) || y == x,
{
    let p = place_of(s, x);
    lemma_place_of(s, x);
    let r = s.insert(p, x);
    assert forall|i: int, j: int| 0 <= i < j < r.len() implies !(#[trigger] r[j]).before(
        #[trigger] r[i],
    ) by {
        if i < p && j > p {
            assert(!s[j - 1].before(s[i]));
        } else if i < p && j < p {
            assert(!s[j].before(s[i]));
        } else if i > p {
            assert(!s[j - 1].before(s[i - 1]));
        } else if i == p {
            assert(x.before(s[j - 1]));
        } else {
            assert(!x.before(s[i]));
        }
    }
    r.to_multiset_ensures();
    assert(r.remove(p) =~= s);
    assert(r[p] == x);
    assert(r.contains(x));
    assert(r.to_multiset() =~= s.to_multiset().insert(x));
    assert forall|y: Ranked| r.contains(y) <==> s.contains(y) || y == x by {
        if s.contains(y) {
            let i = s.index_of(y);
            if i < p {
                assert(r[i] == y);
            } else {
                assert(r[i + 1] == y);
            }
        }
        if y == x {
            assert(r[p] == y);
        }
        if r.contains(y) {
            let i = r.index_of(y);
            if i < p {
                assert(s[i] == y);
            } else if i > p {
                assert(s[i - 1] == y);
            }
        }
    }
}

/// A ranking is a best-first permutation of what it ranks.
pub proof fn law_sort_ranked(pool: Seq<Ranked>)
    ensures
        sorted(sort_ranked(pool)),
        sort_ranked(pool).len() == pool.len(),
        sort_ranked(pool).to_multiset() == pool.to_multiset(),
        forall|y: Ranked| sort_ranked(pool).contains(y) <==> pool.contains(y),
    decreases pool.len(),
{
    if pool.len() > 0 {
        let t = pool.drop_last();
        law_sort_ranked(t);
        lemma_insert_sorted(sort_ranked(t), pool.last());
        assert(pool =~= t.push(pool.last()));
        pool.to_multiset_ensures();
        t.to_multiset_ensures();
        assert(pool.to_multiset() =~= t.to_multiset().insert(pool.last()));
        assert forall|y: Ranked| sort_ranked(pool).contains(y) <==> pool.contains(y) by {
            if pool.contains(y) {
                let i = pool.index_of(y);
                if i < pool.len() - 1 {
                    assert(t[i] == y);
                }
            }
            if t.contains(y) {
                let i = t.index_of(y);
                assert(pool[i] == y);
            }
            if y == pool.last() {
                assert(pool[pool.len() - 1] == y);
            }
        }
    } else {
        assert(sort_ranked(pool) =~= pool);
    }
}

/// Two lists in strict ranking order with the same entries are the same list.
proof fn lemma_strict_order_unique(s: Seq<Ranked>, t: Seq<Ranked>)
    requires
        forall|i: int, j: int| 0 <= i < j < s.len() ==> (#[trigger] s[i]).before(#[trigger] s[j]),
        forall|i: int, j: int| 0 <= i < j < t.len() ==> (#[trigger] t[i]).before(#[trigger] t[j]),
        forall|r: Ranked| #[trigger] s.contains(r) <==> t.contains(r),
    ensures
        s == t,
    decreases s.len(),
{
    if s.len() == 0 {
        if t.len() > 0 {
            assert(t.contains(t[0]));
            assert(s.contains(t[0]));
        }
        assert(s =~= t);
    } else {
        assert(s.contains(s[0]));
        assert(t.contains(s[0]));
        let x = s.last();
        let y = t.last();
        assert(s.contains(s[s.len() - 1]));
        assert(t.contains(t[t.len() - 1]));
        assert(t.contains(x));
        assert(s.contains(y));
        let i = t.index_of(x);
        let j = s.index_of(y);
        if i < t.len() - 1 {
            assert(t[i].before(t[t.len() - 1]));
            if j < s.len() - 1 {
                assert(s[j].before(s[s.len() - 1]));
            }
            assert(false);
        }
        assert(x == y);
        let a = s.drop_last();
        let b = t.drop_last();
        assert forall|r: Ranked| #[trigger] a.contains(r) <==> b.contains(r) by {
            if a.contains(r) {
                let p = a.index_of(r);
                assert(s[p] == r);
                assert(s[p].before(s[s.len() - 1]));
                assert(s.contains(r));
                let q = t.index_of(r);
                assert(b[q] == r);
            }
            if b.contains(r) {
                let p = b.index_of(r);
                assert(t[p] == r);
                assert(t[p].before(t[t.len() - 1]));
                assert(t.contains(r));
                assert(s.contains(r));
                let q = s.index_of(r);
                assert(a[q] == r);
            }
        }
        assert forall|i: int, j: int| 0 <= i < j < a.len() implies (#[trigger] a[i]).before(
            #[trigger] a[j],
        ) by {
            assert(s[i].before(s[j]));
        }
        assert forall|i: int, j: int| 0 <= i < j < b.len() implies (#[trigger] b[i]).before(
            #[trigger] b[j],
        ) by {
            assert(t[i].before(t[j]));
        }
        lemma_strict_order_unique(a, b);
        assert(s =~= a.push(x));
        assert(t =~= b.push(y));
    }
}

/// The ranking of a pool does not depend on the order in which its entries are listed:
/// pools with the same entries, none of which share an id, rank alike.
pub proof fn law_ranking_ignores_order(a: Seq<Ranked>, b: Seq<Ranked>)
    requires
        forall|i: int, j: int| 0 <= i < j < a.len() ==> (#[trigger] a[i]).id != (#[trigger] a[j]).id,
        forall|i: int, j: int| 0 <= i < j < b.len() ==> (#[trigger] b[i]).id != (#[trigger] b[j]).id,
        forall|r: Ranked| #[trigger] a.contains(r) <==> b.contains(r),
    ensures
        sort_ranked(a) == sort_ranked(b),
{
    law_sort_ranked(a);
    law_sort_ranked(b);
    lemma_sort_strict(a);
    lemma_sort_strict(b);
    assert forall|r: Ranked| #[trigger] sort_ranked(a).contains(r) <==> sort_ranked(b).contains(
        r,
    ) by {
        assert(a.contains(r) <==> b.contains(r));
    }
    lemma_strict_order_unique(sort_ranked(a), sort_ranked(b));
}

/// Entries that share no id are in strict order once ranked.
proof fn lemma_sort_strict(pool: Seq<Ranked>)
    requires
        forall|i: int, j: int|
            0 <= i < j < pool.len() ==> (#[trigger] pool[i]).id != (#[trigger] pool[j]).id,
    ensures
        forall|i: int, j: int|
            0 <= i < j < pool.len() ==> (#[trigger] sort_ranked(pool)[i]).before(
                #[trigger] sort_ranked(pool)[j],
            ),
{
    law_sort_ranked(pool);
    heuristic::lemma_sort_distinct(pool);
    let s = sort_ranked(pool);
    assert forall|i: int, j: int| 0 <= i < j < pool.len() implies (#[trigger] s[i]).before(
        #[trigger] s[j],
    ) by {
        assert(!s[j].before(s[i]));
        assert(s[i].id != s[j].id);
    }
}

/// Keeping only the `k` best entries loses nothing that a later entry could bring back:
/// the `k` best of everything are the `k` best of the kept ones and the new one.
pub proof fn lemma_first_k_insert(s: Seq<Ranked>, x: Ranked, k: nat)
    requires
        sorted(s),
    ensures
        first_k(insert_sorted(s, x), k) == first_k(insert_sorted(first_k(s, k), x), k),
        sorted(first_k(s, k)),
{
    if s.len() > k {
        let t = s.take(k as int);
        assert(sorted(t)) by {
            assert forall|i: int, j: int| 0 <= i < j < t.len() implies !(#[trigger] t[j]).before(
                #[trigger] t[i],
            ) by {
                assert(!s[j].before(s[i]));
            }
        }
        let p = place_of(s, x);
        lemma_place_of(s, x);
        if p <= k {
            assert forall|i: int| 0 <= i < p implies !x.before(#[trigger] t[i]) by {
                assert(!x.before(s[i]));
            }
            assert forall|i: int| p <= i < t.len() implies x.before(#[trigger] t[i]) by {
                assert(x.before(s[i]));
            }
            lemma_insert_at(t, p, x);
        } else {
            assert forall|i: int| 0 <= i < t.len() implies !x.before(#[trigger] t[i]) by {
                assert(!x.before(s[i]));
            }
            lemma_insert_at(t, k as int, x);
        }
        assert(first_k(insert_sorted(s, x), k) =~= first_k(insert_sorted(t, x), k));
    }
}

/// The `k` best of a grown pool, from the `k` best of the pool and the new entry.
pub proof fn law_top_k_push(pool: Seq<Ranked>, x: Ranked, k: nat)
    ensures
        top_k(pool.push(x), k) == first_k(insert_sorted(top_k(pool, k), x), k),
{
    assert(pool.push(x).drop_last() =~= pool);
    law_sort_ranked(pool);
    lemma_first_k_insert(sort_ranked(pool), x, k);
}

/// The `k` best entries are best-first, come from the pool, number `k` unless the pool
/// is smaller, and nothing left out ranks before anything kept.
pub proof fn law_top_k(pool: Seq<Ranked>, k: nat)
    ensures
        sorted(top_k(pool, k)),
        top_k(pool, k).len() == if pool.len() <= k {
            pool.len()
        } else {
            k
        },
        top_k(pool, k).to_multiset().subset_of(pool.to_multiset()),
        forall|y: Ranked| top_k(pool, k).contains(y) ==> pool.contains(y),
        forall|y: Ranked, i: int|
            pool.contains(y) && !top_k(pool, k).contains(y) && 0 <= i < top_k(pool, k).len()
                ==> !(#[trigger] y.before(top_k(pool, k)[i])),
{
    law_sort_ranked(pool);
    let s = sort_ranked(pool);
    let t = top_k(pool, k);
    if s.len() > k {
        lemma_first_k_insert(s, arbitrary(), k);
        let rest = s.skip(k as int);
        assert(s =~= t + rest);
        vstd::seq_lib::lemma_multiset_commutative(t, rest);
        assert forall|y: Ranked| t.contains(y) implies pool.contains(y) by {
            assert(s[t.index_of(y)] == y);
            assert(s.contains(y));
        }
        assert forall|y: Ranked, i: int|
            pool.contains(y) && !t.contains(y) && 0 <= i < t.len() implies !(#[trigger] y.before(
            t[i],
        )) by {
            assert(s.contains(y));
            let j = s.index_of(y);
            if j < k {
                assert(t[j] == y);
                assert(t.contains(y));
            }
            assert(!s[j].before(s[i]));
        }
    }
}

/// Finds the place of `x` in a sorted vector by bisection.
fn find_place(v: &Vec<Ranked>, x: &Ranked) -> (p: usize)
    requires
        sorted(v@),
    ensures
        p <= v@.len(),
        forall|i: int| 0 <= i < p ==> !x.before(#[trigger] v@[i]),
        forall|i: int| p <= i < v@.len() ==> x.before(#[trigger] v@[i]),
{
    let mut lo: usize = 0;
    let mut hi: usize = v.len();
    while lo < hi
        invariant
            sorted(v@),
            lo <= hi <= v@.len(),
            forall|i: int| 0 <= i < lo ==> !x.before(#[trigger] v@[i]),
            forall|i: int| hi <= i < v@.len() ==> x.before(#[trigger] v@[i]),
        decreases hi - lo,
    {
        let mid: usize = lo + (hi - lo) / 2;
        if x.is_before(&v[mid]) {
            assert forall|i: int| mid <= i < v@.len() implies x.before(#[trigger] v@[i]) by {
                if i > mid {
                    assert(!v@[i].before(v@[mid as int]));
                }
            }
            hi = mid;
        } else {
            assert forall|i: int| 0 <= i < mid + 1 implies !x.before(#[trigger] v@[i]) by {
                if i < mid {
                    assert(!v@[mid as int].before(v@[i]));
                }
            }
            lo = mid + 1;
        }
    }
    lo
}

/// Puts `x` in its place.
pub fn insert_ranked(v: &mut Vec<Ranked>, x: Ranked)
    requires
        sorted(old(v)@),
    ensures
        final(v)@ == insert_sorted(old(v)@, x),
        sorted(final(v)@),
        final(v)@.len() == old(v)@.len() + 1,
{
    let p: usize = find_place(v, &x);
    proof {
        lemma_insert_at(v@, p as int, x);
        lemma_insert_sorted(v@, x);
    }
    v.insert(p, x);
}

/// Sorts ranked entries best-first.
pub fn sort(pool: &Vec<Ranked>) -> (out: Vec<Ranked>)
    ensures
        out@ == sort_ranked(pool@),
{
    let mut out: Vec<Ranked> = Vec::with_capacity(pool.len());
    for i in 0..pool.len()
        invariant
            out@ == sort_ranked(pool@.take(i as int)),
            sorted(out@),
    {
        proof {
            assert(pool@.take(i + 1).drop_last() =~= pool@.take(i as int));
            law_sort_ranked(pool@.take(i + 1));
        }
        insert_ranked(&mut out, pool[i]);
    }
    assert(pool@.take(pool@.len() as int) =~= pool@);
    out
}

/// Ranking key of a raw score.
pub open spec fn rank_of(score: OrderedF32, id: u64, higher_is_better: bool) -> Ranked {
    Ranked { badness: distance::badness_of(score, higher_is_better), id }
}

/// Ranking key of a raw score: a smaller key is a better result.
pub fn rank_key(score: OrderedF32, id: u64, higher_is_better: bool) -> (key: Ranked)
    ensures
        key == rank_of(score, id, higher_is_better),
{
    Ranked { badness: distance::badness(score, higher_is_better), id }
}

/// An id with its raw score.
#[derive(Clone, Copy, PartialEq, Eq, Debug, Structural)]
pub struct Scored {
    /// The id.
    pub id: u64,
    /// The raw metric score.
    pub score: OrderedF32,
}

/// A ranked entry with its badness turned back into the raw score.
pub open spec fn scored_of(r: Ranked, higher_is_better: bool) -> Scored {
    Scored { id: r.id, score: distance::badness_of(r.badness, higher_is_better) }
}

/// Ranked entries turned back into scored ids.
pub open spec fn all_scored(s: Seq<Ranked>, higher_is_better: bool) -> Seq<Scored> {
    Seq::new(s.len(), |i: int| scored_of(s[i], higher_is_better))
}

/// A bounded top-k collector: keeps the `k` best entries offered so far, best first.
pub struct BoundedTopK {
    /// How many entries are kept.
    pub k: usize,
    /// The polarity of the offered scores.
    pub higher_is_better: bool,
    /// The kept entries, best first.
    pub kept: Vec<Ranked>,
}

impl BoundedTopK {
    /// The kept entries are in order and within the bound.
    pub open spec fn wf(&self) -> bool {
        sorted(self.kept@) && self.kept@.len() <= self.k
    }

    /// Creates a collector that has been offered nothing.
    pub fn new(k: usize, higher_is_better: bool) -> (top: BoundedTopK)
        ensures
            top.wf(),
            top.k == k,
            top.higher_is_better == higher_is_better,
            top.kept@ == top_k(Seq::empty(), k as nat),
    {
        BoundedTopK { k, higher_is_better, kept: Vec::new() }
    }

    /// Offers an entry. If what is kept are the `k` best of a pool, then afterwards it
    /// is the `k` best of the pool with the entry added.
    pub fn offer(&mut self, id: u64, score: OrderedF32)
        requires
            old(self).wf(),
        ensures
            final(self).wf(),
            final(self).k == old(self).k,
            final(self).higher_is_better == old(self).higher_is_better,
            final(self).kept@ == first_k(
                insert_sorted(old(self).kept@, rank_of(score, id, old(self).higher_is_better)),
                old(self).k as nat,
            ),
            forall|pool: Seq<Ranked>|
                old(self).kept@ == #[trigger] top_k(pool, old(self).k as nat) ==> final(self).kept@
                    == top_k(
                    pool.push(rank_of(score, id, old(self).higher_is_better)),
                    old(self).k as nat,
                ),
    {
        let ghost before = self.kept@;
        let key = rank_key(score, id, self.higher_is_better);
        proof {
            lemma_insert_sorted(before, key);
            lemma_place_of(before, key);
            assert forall|pool: Seq<Ranked>|
                before == #[trigger] top_k(pool, self.k as nat) implies first_k(
                insert_sorted(before, key),
                self.k as nat,
            ) == top_k(pool.push(key), self.k as nat) by {
                law_top_k_push(pool, key, self.k as nat);
            }
        }
        if self.k == 0 {
            assert(first_k(insert_sorted(before, key), 0) =~= before);
            return ;
        }
        if self.kept.len() < self.k {
            insert_ranked(&mut self.kept, key);
        } else {
            let worst: usize = self.kept.len() - 1;
            if key.is_before(&self.kept[worst]) {
                self.kept.truncate(worst);
                proof {
                    assert(self.kept@ =~= before.drop_last());
                    assert(sorted(self.kept@)) by {
                        assert forall|i: int, j: int| 0 <= i < j < self.kept@.len() implies !(
                        #[trigger] self.kept@[j]).before(#[trigger] self.kept@[i]) by {
                            assert(!before[j].before(before[i]));
                        }
                    }
                }
                insert_ranked(&mut self.kept, key);
                assert(first_k(insert_sorted(before, key), self.k as nat) =~= self.kept@);
            } else {
                assert(first_k(insert_sorted(before, key), self.k as nat) =~= before);
            }
        }
    }

    /// Drains into a best-first vector.
    pub fn into_sorted(self) -> (out: Vec<Scored>)
        ensures
            out@ == all_scored(self.kept@, self.higher_is_better),
    {
        scored_from(&self.kept, self.higher_is_better)
    }
}

/// Turns ranked entries back into scored ids.
pub fn scored_from(ranked: &Vec<Ranked>, higher_is_better: bool) -> (out: Vec<Scored>)
    ensures
        out@ == all_scored(ranked@, higher_is_better),
{
    let mut out: Vec<Scored> = Vec::with_capacity(ranked.len());
    for i in 0..ranked.len()
        invariant
            out@ == all_scored(ranked@, higher_is_better).take(i as int),
    {
        let r = ranked[i];
        out.push(Scored { id: r.id, score: distance::badness(r.badness, higher_is_better) });
        assert(out@ =~= all_scored(ranked@, higher_is_better).take(i + 1));
    }
    assert(out@ =~= all_scored(ranked@, higher_is_better));
    out
}

} // verus!
