//! Ascending lists of distinct `u64` ids, used as sets.

use vstd::prelude::*;

verus! {

/// Strictly ascending order.
pub open spec fn ascending(s: Seq<u64>) -> bool {
    forall|i: int, j: int| 0 <= i < j < s.len() ==> (#[trigger] s[i]) < (#[trigger] s[j])
}

/// An ascending list is determined by its members.
pub proof fn law_ascending_unique(a: Seq<u64>, b: Seq<u64>)
    requires
        ascending(a),
        ascending(b),
        forall|x: u64| a.contains(x) <==> b.contains(x),
    ensures
        a == b,
    decreases a.len(),
{
    if a.len() == 0 {
        if b.len() > 0 {
            assert(b.contains(b[0]));
        }
        assert(a =~= b);
    } else {
        assert(a.contains(a[a.len() - 1]));
        let j = b.index_of(a[a.len() - 1]);
        assert(b.contains(b[b.len() - 1]));
        let i = a.index_of(b[b.len() - 1]);
        assert(a.last() == b.last()) by {
            if j < b.len() - 1 {
                assert(b[j] < b[b.len() - 1]);
            }
            if i < a.len() - 1 {
                assert(a[i] < a[a.len() - 1]);
            }
        }
        let a1 = a.drop_last();
        let b1 = b.drop_last();
        assert forall|x: u64| a1.contains(x) <==> b1.contains(x) by {
            if a1.contains(x) {
                let p = a1.index_of(x);
                assert(a[p] == x);
                assert(a[p] < a[a.len() - 1]);
                assert(b.contains(x));
                let q = b.index_of(x);
                assert(b1[q] == x);
            }
            if b1.contains(x) {
                let p = b1.index_of(x);
                assert(b[p] == x);
                assert(b[p] < b[b.len() - 1]);
                assert(a.contains(x));
                let q = a.index_of(x);
                assert(a1[q] == x);
            }
        }
        assert(ascending(a1)) by {
            assert forall|i: int, j: int| 0 <= i < j < a1.len() implies (#[trigger] a1[i]) < (
            #[trigger] a1[j]) by {
                assert(a[i] < a[j]);
            }
        }
        assert(ascending(b1)) by {
            assert forall|i: int, j: int| 0 <= i < j < b1.len() implies (#[trigger] b1[i]) < (
            #[trigger] b1[j]) by {
                assert(b[i] < b[j]);
            }
        }
        law_ascending_unique(a1, b1);
        assert(a =~= a1.push(a.last()));
        assert(b =~= b1.push(b.last()));
    }
}

/// The first position whose id is at least `id`.
fn lower_bound(v: &Vec<u64>, id: u64) -> (p: usize)
    requires
        ascending(v@),
    ensures
        p <= v@.len(),
        forall|i: int| 0 <= i < p ==> (#[trigger] v@[i]) < id,
        forall|i: int| p <= i < v@.len() ==> (#[trigger] v@[i]) >= id,
{
    let mut lo: usize = 0;
    let mut hi: usize = v.len();
    while lo < hi
        invariant
            ascending(v@),
            lo <= hi <= v@.len(),
            forall|i: int| 0 <= i < lo ==> (#[trigger] v@[i]) < id,
            forall|i: int| hi <= i < v@.len() ==> (#[trigger] v@[i]) >= id,
        decreases hi - lo,
    {
        let mid: usize = lo + (hi - lo) / 2;
        if v[mid] < id {
            assert forall|i: int| 0 <= i < mid + 1 implies (#[trigger] v@[i]) < id by {
                if i < mid {
                    assert(v@[i] < v@[mid as int]);
                }
            }
            lo = mid + 1;
        } else {
            assert forall|i: int| mid <= i < v@.len() implies (#[trigger] v@[i]) >= id by {
                if i > mid {
                    assert(v@[mid as int] < v@[i]);
                }
            }
            hi = mid;
        }
    }
    lo
}

/// Whether an ascending list holds `id`.
pub fn holds(v: &Vec<u64>, id: u64) -> (r: bool)
    requires
        ascending(v@),
    ensures
        r == v@.contains(id),
{
    let p: usize = lower_bound(v, id);
    if p < v.len() && v[p] == id {
        assert(v@[p as int] == id);
        true
    } else {
        assert forall|i: int| 0 <= i < v@.len() implies v@[i] != id by {
            if i > p {
                assert(v@[p as int] < v@[i]);
            }
        }
        false
    }
}

/// Adds `id` to an ascending list, unless it is there.
pub fn include_id(v: &mut Vec<u64>, id: u64)
    requires
        ascending(old(v)@),
    ensures
        ascending(final(v)@),
        forall|x: u64| #[trigger] final(v)@.contains(x) <==> old(v)@.contains(x) || x == id,
{
    let p: usize = lower_bound(v, id);
    let ghost before = v@;
    if p < v.len() && v[p] == id {
        assert(v@[p as int] == id);
        return ;
    }
    v.insert(p, id);
    proof {
        let after = v@;
        assert(after == before.insert(p as int, id));
        assert forall|i: int, j: int| 0 <= i < j < after.len() implies (#[trigger] after[i]) < (
        #[trigger] after[j]) by {
            if i < p && j > p {
                assert(before[i] < before[j - 1]);
            } else if j < p {
                assert(before[i] < before[j]);
            } else if i > p {
                assert(before[i - 1] < before[j - 1]);
            } else if i == p {
                assert(before[j - 1] >= id);
                if before[j - 1] == id {
                    if j - 1 > p {
                        assert(before[p as int] < before[j - 1]);
                    }
                }
            } else {
                assert(before[i] < id);
            }
        }
        assert forall|x: u64| #[trigger] after.contains(x) <==> before.contains(x) || x == id by {
            if before.contains(x) {
                let i = before.index_of(x);
                if i < p {
                    assert(after[i] == x);
                } else {
                    assert(after[i + 1] == x);
                }
            }
            if x == id {
                assert(after[p as int] == x);
            }
            if after.contains(x) {
                let i = after.index_of(x);
                if i < p {
                    assert(before[i] == x);
                } else if i > p {
                    assert(before[i - 1] == x);
                }
            }
        }
    }
}

/// Adds every listed id.
pub fn include_all(v: &mut Vec<u64>, ids: &Vec<u64>)
    requires
        ascending(old(v)@),
    ensures
        ascending(final(v)@),
        forall|x: u64| #[trigger]
            final(v)@.contains(x) <==> old(v)@.contains(x) || ids@.contains(x),
{
    let ghost before = v@;
    for i in 0..ids.len()
        invariant
            ascending(v@),
            forall|x: u64| #[trigger]
                v@.contains(x) <==> before.contains(x) || ids@.take(i as int).contains(x),
    {
        let ghost middle = v@;
        include_id(v, ids[i]);
        proof {
            let prefix = ids@.take(i as int);
            let longer = ids@.take(i + 1);
            assert forall|x: u64| #[trigger] v@.contains(x) <==> before.contains(x)
                || longer.contains(x) by {
                assert(middle.contains(x) <==> before.contains(x) || prefix.contains(x));
                if prefix.contains(x) {
                    assert(longer[prefix.index_of(x)] == x);
                }
                if x == ids@[i as int] {
                    assert(longer[i as int] == x);
                }
                if longer.contains(x) {
                    let j = longer.index_of(x);
                    if j < i {
                        assert(prefix[j] == x);
                    }
                }
            }
        }
    }
    assert(ids@.take(ids@.len() as int) =~= ids@);
}

/// The members of an ascending list that another does not hold, ascending.
pub fn minus(a: &Vec<u64>, b: &Vec<u64>) -> (rest: Vec<u64>)
    requires
        ascending(a@),
        ascending(b@),
    ensures
        ascending(rest@),
        forall|x: u64| #[trigger] rest@.contains(x) <==> a@.contains(x) && !b@.contains(x),
{
    let mut rest: Vec<u64> = Vec::new();
    for i in 0..a.len()
        invariant
            ascending(a@),
            ascending(b@),
            ascending(rest@),
            forall|x: u64| #[trigger]
                rest@.contains(x) <==> a@.take(i as int).contains(x) && !b@.contains(x),
    {
        let ghost before = rest@;
        let x: u64 = a[i];
        if !holds(b, x) {
            rest.push(x);
            proof {
                assert forall|p: int, q: int| 0 <= p < q < rest@.len() implies (#[trigger] rest@[p]) < (
                #[trigger] rest@[q]) by {
                    if q == before.len() {
                        assert(before.contains(before[p]));
                        let prefix = a@.take(i as int);
                        let k = prefix.index_of(before[p]);
                        assert(a@[k] < a@[i as int]);
                    } else {
                        assert(before[p] < before[q]);
                    }
                }
            }
        }
        proof {
            let prefix = a@.take(i as int);
            let longer = a@.take(i + 1);
            assert forall|y: u64| #[trigger] rest@.contains(y) <==> longer.contains(y)
                && !b@.contains(y) by {
                assert(before.contains(y) <==> prefix.contains(y) && !b@.contains(y));
                if before.contains(y) {
                    assert(rest@[before.index_of(y)] == y);
                }
                if prefix.contains(y) {
                    assert(longer[prefix.index_of(y)] == y);
                }
                if longer.contains(y) {
                    let j = longer.index_of(y);
                    if j < i {
                        assert(prefix[j] == y);
                    } else if !b@.contains(y) {
                        assert(rest@[rest@.len() - 1] == y);
                    }
                }
                if rest@.contains(y) {
                    let j = rest@.index_of(y);
                    if j < before.len() {
                        assert(before[j] == y);
                    } else {
                        assert(longer[i as int] == y);
                    }
                }
            }
        }
    }
    assert(a@.take(a@.len() as int) =~= a@);
    rest
}

} // verus!
