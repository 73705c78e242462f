//! Stable sorting of rows by id.

use vstd::prelude::*;
use vstd::set_lib::*;

verus! {

/// A row's id and its place in the list being sorted.
#[derive(Debug, Clone, Copy, PartialEq, Eq, Structural)]
pub struct Keyed {
    /// The id to sort by.
    pub id: u64,
    /// The place, which decides between equal ids.
    pub place: usize,
}

impl Keyed {
    /// Whether this entry comes first: by id, then by place.
    pub open spec fn precedes(self, other: Keyed) -> bool {
        self.id < other.id || (self.id == other.id && self.place < other.place)
    }

    fn is_first(&self, other: &Keyed) -> (r: bool)
        ensures
            r == self.precedes(*other),
    {
        self.id < other.id || (self.id == other.id && self.place < other.place)
    }
}

/// Each entry comes before every later one.
pub open spec fn in_order(s: Seq<Keyed>) -> bool {
    forall|i: int, j: int| 0 <= i < j < s.len() ==> (#[trigger] s[i]).precedes(#[trigger] s[j])
}

/// The places of a list of ids, sorted by id; equal ids keep the order they had.
pub open spec fn stable_order(ids: Seq<u64>, order: Seq<usize>) -> bool {
    &&& order.len() == ids.len()
    &&& forall|i: int| 0 <= i < order.len() ==> (#[trigger] order[i]) < ids.len()
    &&& forall|i: int, j: int|
        0 <= i < j < order.len() ==> ids[(#[trigger] order[i]) as int] < ids[(
        #[trigger] order[j]) as int] || (ids[order[i] as int] == ids[order[j] as int] && order[i]
            < order[j])
}

/// Merges two sorted lists.
fn merge(a: &Vec<Keyed>, b: &Vec<Keyed>) -> (out: Vec<Keyed>)
    requires
        in_order(a@),
        in_order(b@),
        a@.len() + b@.len() <= usize::MAX,
        forall|i: int, j: int|
            0 <= i < a@.len() && 0 <= j < b@.len() ==> (#[trigger] a@[i]).place != (
            #[trigger] b@[j]).place,
    ensures
        in_order(out@),
        out@.len() == a@.len() + b@.len(),
        forall|x: Keyed| #[trigger] out@.contains(x) ==> a@.contains(x) || b@.contains(x),
{
    let mut out: Vec<Keyed> = Vec::with_capacity(a.len() + b.len());
    let mut i: usize = 0;
    let mut j: usize = 0;
    while i < a.len() || j < b.len()
        invariant
            i <= a@.len(),
            j <= b@.len(),
            in_order(a@),
            in_order(b@),
            forall|i: int, j: int|
                0 <= i < a@.len() && 0 <= j < b@.len() ==> (#[trigger] a@[i]).place != (
                #[trigger] b@[j]).place,
            out@.len() == i + j,
            in_order(out@),
            forall|m: int, n: int|
                0 <= m < out@.len() && i <= n < a@.len() ==> (#[trigger] out@[m]).precedes(
                    #[trigger] a@[n],
                ),
            forall|m: int, n: int|
                0 <= m < out@.len() && j <= n < b@.len() ==> (#[trigger] out@[m]).precedes(
                    #[trigger] b@[n],
                ),
            forall|x: Keyed| #[trigger] out@.contains(x) ==> a@.contains(x) || b@.contains(x),
        decreases a@.len() - i + b@.len() - j,
    {
        let ghost before = out@;
        let from_a = j >= b.len() || (i < a.len() && a[i].is_first(&b[j]));
        let next: Keyed = if from_a {
            a[i]
        } else {
            b[j]
        };
        out.push(next);
        proof {
            assert forall|x: Keyed| #[trigger] out@.contains(x) implies a@.contains(x)
                || b@.contains(x) by {
                let m = out@.index_of(x);
                if m < before.len() {
                    assert(before[m] == x);
                    assert(before.contains(x));
                }
            }
        }
        if from_a {
            i = i + 1;
        } else {
            j = j + 1;
        }
    }
    out
}

/// Sorts the entries at `from..to`.
fn sort_range(v: &Vec<Keyed>, from: usize, to: usize) -> (out: Vec<Keyed>)
    requires
        from <= to <= v@.len(),
        forall|i: int| 0 <= i < v@.len() ==> (#[trigger] v@[i]).place == i,
    ensures
        in_order(out@),
        out@.len() == to - from,
        forall|i: int|
            0 <= i < out@.len() ==> from <= (#[trigger] out@[i]).place < to && out@[i]
                == v@[out@[i].place as int],
    decreases to - from,
{
    let n: usize = v.len();
    if to - from <= 1 {
        let mut out: Vec<Keyed> = Vec::new();
        if from < to {
            out.push(v[from]);
        }
        return out;
    }
    let middle: usize = from + (to - from) / 2;
    let left = sort_range(v, from, middle);
    let right = sort_range(v, middle, to);
    assert forall|i: int, j: int| 0 <= i < left@.len() && 0 <= j < right@.len() implies (
    #[trigger] left@[i]).place != (#[trigger] right@[j]).place by {}
    let out = merge(&left, &right);
    proof {
        assert forall|i: int| 0 <= i < out@.len() implies from <= (#[trigger] out@[i]).place < to
            && out@[i] == v@[out@[i].place as int] by {
            let x = out@[i];
            assert(out@.contains(x));
            if left@.contains(x) {
                assert(left@[left@.index_of(x)] == x);
            } else {
                assert(right@[right@.index_of(x)] == x);
            }
        }
    }
    out
}

/// The stable order of a list of ids.
pub fn order_by_id(ids: &Vec<u64>) -> (order: Vec<usize>)
    ensures
        stable_order(ids@, order@),
{
    let n: usize = ids.len();
    let mut keyed: Vec<Keyed> = Vec::with_capacity(n);
    for i in 0..n
        invariant
            n == ids@.len(),
            keyed@.len() == i,
            forall|j: int|
                0 <= j < i ==> (#[trigger] keyed@[j]).place == j && keyed@[j].id == ids@[j],
    {
        keyed.push(Keyed { id: ids[i], place: i });
    }
    let sorted = sort_range(&keyed, 0, n);
    let mut order: Vec<usize> = Vec::with_capacity(n);
    for i in 0..n
        invariant
            n == sorted@.len(),
            order@.len() == i,
            forall|j: int| 0 <= j < i ==> (#[trigger] order@[j]) == sorted@[j].place,
    {
        order.push(sorted[i].place);
    }
    proof {
        assert forall|i: int, j: int| 0 <= i < j < order@.len() implies ids@[(
        #[trigger] order@[i]) as int] < ids@[(#[trigger] order@[j]) as int] || (
        ids@[order@[i] as int] == ids@[order@[j] as int] && order@[i] < order@[j]) by {
            assert(sorted@[i].precedes(sorted@[j]));
        }
    }
    order
}

/// A stable order visits every place exactly once.
pub proof fn law_stable_order_is_permutation(ids: Seq<u64>, order: Seq<usize>)
    requires
        stable_order(ids, order),
    ensures
        order.no_duplicates(),
        forall|p: usize| p < ids.len() ==> #[trigger] order.contains(p),
{
    assert(order.no_duplicates()) by {
        assert forall|i: int, j: int| 0 <= i < order.len() && 0 <= j < order.len() && i != j implies order[i]
            != order[j] by {
            if i < j {
                assert(order[i] != order[j]);
            } else {
                assert(order[j] != order[i]);
            }
        }
    }
    let n = ids.len() as int;
    let places = Seq::new(order.len(), |i: int| order[i] as int);
    assert(places.no_duplicates());
    places.unique_seq_to_set();
    let all = set_int_range(0, n);
    lemma_int_range(0, n);
    assert(places.to_set().subset_of(all)) by {
        assert forall|x: int| places.to_set().contains(x) implies all.contains(x) by {
            let i = places.index_of(x);
            assert(order[i] < ids.len());
        }
    }
    lemma_subset_equality(places.to_set(), all);
    assert forall|p: usize| p < ids.len() implies #[trigger] order.contains(p) by {
        assert(all.contains(p as int));
        assert(places.contains(p as int));
        let i = places.index_of(p as int);
        assert(order[i] == p);
    }
}

/// There is only one stable order of a list of ids.
pub proof fn law_stable_order_unique(ids: Seq<u64>, a: Seq<usize>, b: Seq<usize>)
    requires
        stable_order(ids, a),
        stable_order(ids, b),
    ensures
        a == b,
{
    lemma_orders_agree(ids, a, b, ids.len());
    assert(a =~= b);
}

/// The first `n` entries of two stable orders agree.
proof fn lemma_orders_agree(ids: Seq<u64>, a: Seq<usize>, b: Seq<usize>, n: nat)
    requires
        stable_order(ids, a),
        stable_order(ids, b),
        n <= ids.len(),
    ensures
        forall|i: int| 0 <= i < n ==> a[i] == b[i],
    decreases n,
{
    if n > 0 {
        lemma_orders_agree(ids, a, b, (n - 1) as nat);
        law_stable_order_is_permutation(ids, a);
        law_stable_order_is_permutation(ids, b);
        let i = n - 1;
        assert(b.contains(a[i]));
        assert(a.contains(b[i]));
        let j = b.index_of(a[i]);
        let k = a.index_of(b[i]);
        if a[i] != b[i] {
            if j < i {
                assert(a[j] == b[j]);
            }
            if k < i {
                assert(a[k] == b[k]);
            }
            assert(b[i] != b[j]);
        }
    }
}

} // verus!
