//! Ids are handed out once, so no point is stored twice.

use std::sync::Arc;

use vstd::prelude::*;

use crate::collection::history;
use crate::collection::laws;
use crate::collection::points;
use crate::collection::Collection;
use crate::distance::Kernel;
use crate::id::GlobalId;
use crate::segment::SealedSegment;
use crate::sorting;

verus! {

/// No point is stored twice, and every stored id has been allocated.
pub open spec fn points_unique<K: Kernel>(collection: Collection<K>) -> bool {
    &&& laws::stored_once(collection.working.sealed@, collection.appendable.global_ids())
    &&& forall|id: GlobalId| #[trigger]
        collection.has_point(id) ==> id.0 < collection.next_global_id
}

/// Writing a point under the next id keeps the points unique.
pub proof fn law_fresh_writes_keep_points_unique<K: Kernel>(
    before: Collection<K>,
    after: Collection<K>,
)
    requires
        points_unique(before),
        before.same_but_for_writes(after),
        after.appendable.global_ids() == before.appendable.global_ids().push(
            GlobalId(before.next_global_id),
        ),
        after.next_global_id == before.next_global_id + 1,
    ensures
        points_unique(after),
{
    let id = GlobalId(before.next_global_id);
    let old_ids = before.appendable.global_ids();
    let ids = after.appendable.global_ids();
    assert(!before.has_point(id));
    assert forall|i: int, j: int| 0 <= i < ids.len() && 0 <= j < ids.len() && i != j implies ids[i]
        != ids[j] by {
        if i == old_ids.len() {
            assert(old_ids.contains(old_ids[j]));
        } else if j == old_ids.len() {
            assert(old_ids.contains(old_ids[i]));
        } else {
            assert(old_ids[i] != old_ids[j]);
        }
    }
    assert forall|g: GlobalId| ids.contains(g) implies g == id || old_ids.contains(g) by {
        let p = ids.index_of(g);
        if p < old_ids.len() {
            assert(old_ids[p] == g);
        }
    }
    assert forall|i: int, g: GlobalId|
        0 <= i < after.working.sealed@.len() && #[trigger] after.working.sealed@[i].global_ids().contains(
            g,
        ) implies !ids.contains(g) by {
        assert(before.working.sealed@[i].global_ids().contains(g));
        assert(before.has_point(g));
    }
    assert forall|g: GlobalId| #[trigger] after.has_point(g) implies g.0 < after.next_global_id by {
        if !ids.contains(g) || old_ids.contains(g) {
            assert(before.has_point(g));
        }
    }
}

/// Sealing keeps the points unique.
pub proof fn law_seal_keeps_points_unique<K: Kernel>(before: Collection<K>, after: Collection<K>)
    requires
        before.wf(),
        after.wf(),
        points_unique(before),
        before.seals_to(after),
        before.same_points(after),
    ensures
        points_unique(after),
{
    if before.appendable.rows().len() > 0 {
        let segments = before.working.sealed@;
        let recent = before.appendable.global_ids();
        let sealed = after.working.sealed@;
        let last = segments.len() as int;
        assert(sealed[last].global_ids() == recent);
        assert forall|i: int| 0 <= i < segments.len() implies sealed[i] == segments[i] by {}
        assert(after.appendable.global_ids() =~= Seq::<GlobalId>::empty());
        assert forall|i: int| 0 <= i < sealed.len() implies (
        #[trigger] sealed[i]).global_ids().no_duplicates() by {
            if i < last {
                assert(segments[i].global_ids().no_duplicates());
            }
        }
        assert forall|i: int, j: int, id: GlobalId|
            0 <= i < j < sealed.len() && #[trigger] sealed[i].global_ids().contains(
                id,
            ) implies !#[trigger] sealed[j].global_ids().contains(id) by {
            assert(segments[i].global_ids().contains(id));
            if j < last {
                assert(!segments[j].global_ids().contains(id));
            }
        }
        assert forall|id: GlobalId| #[trigger] after.has_point(id) implies id.0
            < after.next_global_id by {
            let i = choose|i: int|
                0 <= i < sealed.len() && (#[trigger] sealed[i]).global_ids().contains(id);
            if i < last {
                assert(segments[i].global_ids().contains(id));
            }
            assert(before.has_point(id));
        }
    } else {
        assert forall|id: GlobalId| #[trigger] after.has_point(id) implies id.0
            < after.next_global_id by {
            assert(before.has_point(id));
        }
    }
}

/// The rows of segments that store no point twice have distinct ids.
proof fn lemma_all_ids_distinct<K: Kernel>(segments: Seq<Arc<SealedSegment<K>>>)
    requires
        forall|i: int| 0 <= i < segments.len() ==> (#[trigger] segments[i]).wf(),
        laws::stored_once(segments, Seq::empty()),
    ensures
        points::ids_of(points::kept_points(segments, Set::empty())).no_duplicates(),
    decreases segments.len(),
{
    let all = points::kept_points(segments, Set::empty());
    let raw = points::ids_of(all);
    if segments.len() > 0 {
        let shorter = segments.drop_last();
        let last = segments.last();
        let n = segments.len() - 1;
        assert(last == segments[n]);
        assert forall|i: int| 0 <= i < shorter.len() implies shorter[i] == segments[i] by {}
        assert(laws::stored_once(shorter, Seq::empty())) by {
            assert forall|i: int| 0 <= i < shorter.len() implies (
            #[trigger] shorter[i]).global_ids().no_duplicates() by {
                assert(segments[i].global_ids().no_duplicates());
            }
            assert forall|i: int, j: int, id: GlobalId|
                0 <= i < j < shorter.len() && #[trigger] shorter[i].global_ids().contains(
                    id,
                ) implies !#[trigger] shorter[j].global_ids().contains(id) by {
                assert(segments[i].global_ids().contains(id));
            }
        }
        lemma_all_ids_distinct(shorter);
        let rest = points::kept_points(shorter, Set::empty());
        laws::lemma_rows_of_segment(last.global_ids(), last.rows(), last.rows().len());
        assert forall|i: int, j: int| 0 <= i < raw.len() && 0 <= j < raw.len() && i < j implies raw[i]
            != raw[j] by {
            if j < rest.len() {
                assert(points::ids_of(rest)[i] == raw[i]);
                assert(points::ids_of(rest)[j] == raw[j]);
            } else {
                let b = j - rest.len();
                assert(all[j].0 == last.global_ids()[b]);
                if i < rest.len() {
                    assert(points::ids_of(rest)[i] == raw[i]);
                    assert(points::ids_of(rest).contains(raw[i]));
                    laws::lemma_points_of_segments(shorter, raw[i]);
                    let s = choose|s: int|
                        0 <= s < shorter.len() && (#[trigger] shorter[s]).global_ids().contains(
                            GlobalId(raw[i]),
                        );
                    assert(segments[s].global_ids().contains(GlobalId(raw[i])));
                    assert(!segments[n].global_ids().contains(GlobalId(raw[i])));
                    assert(last.global_ids().contains(last.global_ids()[b]));
                    assert(GlobalId(raw[j]) == last.global_ids()[b]);
                } else {
                    let a = i - rest.len();
                    assert(all[i].0 == last.global_ids()[a]);
                    assert(last.global_ids()[a] != last.global_ids()[b]);
                }
            }
        }
        assert(raw.no_duplicates()) by {
            assert forall|i: int, j: int| 0 <= i < raw.len() && 0 <= j < raw.len() && i != j implies raw[i]
                != raw[j] by {
                if i < j {
                    assert(raw[i] != raw[j]);
                } else {
                    assert(raw[j] != raw[i]);
                }
            }
        }
    }
}

/// Compaction keeps the points unique.
pub proof fn law_compaction_keeps_points_unique<K: Kernel>(
    before: Collection<K>,
    after: Collection<K>,
)
    requires
        before.wf(),
        points_unique(before),
        before.same_points(after),
        after.appendable == before.appendable,
        after.working.sealed@.len() == 1,
        before.compacts_to(*after.working.sealed@[0]),
    ensures
        points_unique(after),
{
    let segments = before.working.sealed@;
    let segment = after.working.sealed@[0];
    let all = points::kept_points(segments, Set::empty());
    let raw = points::ids_of(all);
    let order = choose|order: Seq<usize>|
        #[trigger] sorting::stable_order(raw, order) && before.is_sealed(
            *segment,
            before.next_segment_id,
            history::reordered_ids(all, order),
            history::reordered_rows(before.kernel, all, order),
        );
    let ids = segment.global_ids();
    assert(laws::stored_once(segments, Seq::empty()));
    lemma_all_ids_distinct(segments);
    sorting::law_stable_order_is_permutation(raw, order);
    assert(forall|i: int| 0 <= i < order.len() ==> (#[trigger] order[i]) < all.len());
    assert(ids.no_duplicates()) by {
        assert forall|i: int, j: int| 0 <= i < ids.len() && 0 <= j < ids.len() && i != j implies ids[i]
            != ids[j] by {
            assert(ids[i] == all[order[i] as int].0 && ids[j] == all[order[j] as int].0);
            assert(order[i] != order[j]);
            assert(raw[order[i] as int] != raw[order[j] as int]);
        }
    }
    assert forall|id: GlobalId| #[trigger] ids.contains(id) implies exists|s: int|
        0 <= s < segments.len() && (#[trigger] segments[s]).global_ids().contains(id) by {
        let i = ids.index_of(id);
        assert(raw[order[i] as int] == id.0);
        assert(raw.contains(id.0));
        laws::lemma_points_of_segments(segments, id.0);
        assert(GlobalId(id.0) == id);
    }
    assert forall|id: GlobalId| #[trigger] after.has_point(id) implies id.0 < after.next_global_id by {
        if !after.appendable.global_ids().contains(id) {
            assert(ids.contains(id));
        }
        assert(before.has_point(id));
    }
}

} // verus!
