//! Materializing points out of segments.

use std::sync::Arc;

use vstd::prelude::*;

use crate::distance::Kernel;
use crate::id::GlobalId;
use crate::idset;
use crate::payload::Payload;
use crate::segment::search;
use crate::segment::SealedSegment;
use crate::vector;
use crate::version::DeletionVector;

verus! {

/// A full materialized point: its id, vector, and optional payload.
#[derive(Debug)]
pub struct PointRecord<E> {
    /// The collection-global point id.
    pub id: GlobalId,
    /// The stored (normalized for cosine) vector.
    pub vector: Vec<E>,
    /// The point's JSON payload, if any.
    pub payload: Option<Arc<Payload>>,
}

/// A point as the segments store it: its id and its vector.
#[derive(Debug)]
pub struct StoredPoint<E> {
    /// The collection-global point id.
    pub id: GlobalId,
    /// The stored vector.
    pub vector: Vec<E>,
}

/// Stored points as mathematical pairs.
pub open spec fn pairs_of<E>(points: Seq<StoredPoint<E>>) -> Seq<(GlobalId, Seq<E>)> {
    Seq::new(points.len(), |i: int| (points[i].id, points[i].vector@))
}

/// The raw ids of points, in order.
pub open spec fn ids_of<E>(points: Seq<(GlobalId, Seq<E>)>) -> Seq<u64> {
    Seq::new(points.len(), |i: int| points[i].0.0)
}

/// The first `n` rows of a segment that are not dropped.
pub open spec fn kept_rows<E>(
    ids: Seq<GlobalId>,
    rows: Seq<Seq<E>>,
    dropped: Set<u64>,
    n: nat,
) -> Seq<(GlobalId, Seq<E>)>
    decreases n,
{
    if n == 0 {
        Seq::empty()
    } else {
        let rest = kept_rows(ids, rows, dropped, (n - 1) as nat);
        if dropped.contains(ids[n - 1].0) {
            rest
        } else {
            rest.push((ids[n - 1], rows[n - 1]))
        }
    }
}

/// The rows of sealed segments that are not dropped, segment by segment.
pub open spec fn kept_points<K: Kernel>(
    segments: Seq<Arc<SealedSegment<K>>>,
    dropped: Set<u64>,
) -> Seq<(GlobalId, Seq<K::Elem>)>
    decreases segments.len(),
{
    if segments.len() == 0 {
        Seq::empty()
    } else {
        let last = segments.last();
        kept_points(segments.drop_last(), dropped) + kept_rows(
            last.global_ids(),
            last.rows(),
            dropped,
            last.rows().len(),
        )
    }
}

/// The vector under which the first segment that has the id stores it.
pub open spec fn first_vector<K: Kernel>(segments: Seq<Arc<SealedSegment<K>>>, id: u64) -> Option<
    Seq<K::Elem>,
>
    decreases segments.len(),
{
    if segments.len() == 0 {
        None
    } else {
        match first_vector(segments.drop_last(), id) {
            Some(v) => Some(v),
            None => search::vector_at(segments.last().global_ids(), segments.last().rows(), id),
        }
    }
}

/// The tombstones of an optional deletion vector.
pub open spec fn dropped_by(deletions: Option<&DeletionVector>) -> Set<u64> {
    match deletions {
        Some(d) => d.ids(),
        None => Set::empty(),
    }
}

/// Appends the rows of one segment that are not dropped.
pub(crate) fn append_kept<E: Copy>(
    out: &mut Vec<StoredPoint<E>>,
    points: &Vec<(GlobalId, &[E])>,
    deletions: Option<&DeletionVector>,
)
    ensures
        forall|ids: Seq<GlobalId>, rows: Seq<Seq<E>>|
            ids.len() == points@.len() && rows.len() == points@.len() && (forall|i: int|
                0 <= i < points@.len() ==> (#[trigger] points@[i]).0 == ids[i] && points@[i].1@
                    == rows[i]) ==> pairs_of(final(out)@) == pairs_of(old(out)@)
                + #[trigger] kept_rows(ids, rows, dropped_by(deletions), points@.len()),
        forall|d: nat|
            (forall|i: int| 0 <= i < old(out)@.len() ==> (#[trigger] old(out)@[i]).vector@.len() == d)
                && (forall|i: int| 0 <= i < points@.len() ==> (#[trigger] points@[i]).1@.len() == d)
                ==> #[trigger] all_of_dim(final(out)@, d),
{
    let ghost start = out@;
    let ghost ids = Seq::new(points@.len(), |i: int| points@[i].0);
    let ghost rows = Seq::new(points@.len(), |i: int| points@[i].1@);
    let ghost dropped = dropped_by(deletions);
    assert(pairs_of(start) + kept_rows(ids, rows, dropped, 0) =~= pairs_of(start));
    for i in 0..points.len()
        invariant
            ids == Seq::new(points@.len(), |i: int| points@[i].0),
            rows == Seq::new(points@.len(), |i: int| points@[i].1@),
            dropped == dropped_by(deletions),
            pairs_of(out@) == pairs_of(start) + kept_rows(ids, rows, dropped, i as nat),
            forall|d: nat|
                (forall|j: int| 0 <= j < start.len() ==> (#[trigger] start[j]).vector@.len() == d)
                    && (forall|j: int| 0 <= j < points@.len() ==> (#[trigger] points@[j]).1@.len()
                    == d) ==> #[trigger] all_of_dim(out@, d),
    {
        let ghost before = out@;
        let (id, row) = points[i];
        let gone = match deletions {
            Some(d) => d.contains(id),
            None => false,
        };
        if !gone {
            out.push(StoredPoint { id, vector: vector::copy_slice(row) });
            proof {
                assert(pairs_of(out@) =~= pairs_of(before).push((ids[i as int], rows[i as int])));
                assert(pairs_of(out@) =~= pairs_of(start) + kept_rows(
                    ids,
                    rows,
                    dropped,
                    (i + 1) as nat,
                ));
                assert forall|d: nat|
                    (forall|j: int| 0 <= j < start.len() ==> (#[trigger] start[j]).vector@.len() == d)
                        && (forall|j: int|
                        0 <= j < points@.len() ==> (#[trigger] points@[j]).1@.len() == d) implies
                    #[trigger] all_of_dim(out@, d) by {
                    assert(all_of_dim(before, d));
                    assert(points@[i as int].1@.len() == d);
                }
            }
        }
    }
    proof {
        assert forall|a: Seq<GlobalId>, b: Seq<Seq<E>>|
            a.len() == points@.len() && b.len() == points@.len() && (forall|i: int|
                0 <= i < points@.len() ==> (#[trigger] points@[i]).0 == a[i] && points@[i].1@
                    == b[i]) implies pairs_of(out@) == pairs_of(start) + #[trigger] kept_rows(
            a,
            b,
            dropped,
            points@.len(),
        ) by {
            assert(a =~= ids);
            assert(b =~= rows);
        }
    }
}

/// No more rows are kept than there are.
pub proof fn lemma_kept_rows_len<E>(
    ids: Seq<GlobalId>,
    rows: Seq<Seq<E>>,
    dropped: Set<u64>,
    n: nat,
)
    ensures
        kept_rows(ids, rows, dropped, n).len() <= n,
    decreases n,
{
    if n > 0 {
        lemma_kept_rows_len(ids, rows, dropped, (n - 1) as nat);
    }
}

/// No more points are kept than the segments have rows.
pub proof fn lemma_kept_points_len<K: Kernel>(
    segments: Seq<Arc<SealedSegment<K>>>,
    dropped: Set<u64>,
)
    ensures
        kept_points(segments, dropped).len() <= crate::segment::set::rows_in(segments),
    decreases segments.len(),
{
    if segments.len() > 0 {
        let last = segments.last();
        lemma_kept_points_len(segments.drop_last(), dropped);
        lemma_kept_rows_len(last.global_ids(), last.rows(), dropped, last.rows().len());
    }
}

/// Counts the rows of a segment that are not tombstoned.
pub(crate) fn count_kept<E>(
    ids: &[GlobalId],
    deletions: &DeletionVector,
    Ghost(rows): Ghost<Seq<Seq<E>>>,
) -> (count: usize)
    ensures
        count == kept_rows(ids@, rows, deletions.ids(), ids@.len()).len(),
        count <= ids@.len(),
{
    let mut count: usize = 0;
    for i in 0..ids.len()
        invariant
            count == kept_rows(ids@, rows, deletions.ids(), i as nat).len(),
            count <= i,
    {
        if !deletions.contains(ids[i]) {
            count = count + 1;
        }
    }
    count
}

/// Counts the rows of sealed segments that are not tombstoned.
pub(crate) fn count_points<K: Kernel>(
    segments: &Vec<Arc<SealedSegment<K>>>,
    deletions: &DeletionVector,
) -> (count: usize)
    requires
        forall|i: int| 0 <= i < segments@.len() ==> (#[trigger] segments@[i]).wf(),
        crate::segment::set::rows_in(segments@) <= usize::MAX,
    ensures
        count == kept_points(segments@, deletions.ids()).len(),
{
    let mut count: usize = 0;
    for i in 0..segments.len()
        invariant
            forall|i: int| 0 <= i < segments@.len() ==> (#[trigger] segments@[i]).wf(),
            crate::segment::set::rows_in(segments@) <= usize::MAX,
            count == kept_points(segments@.take(i as int), deletions.ids()).len(),
    {
        proof {
            assert(segments@.take(i + 1).drop_last() =~= segments@.take(i as int));
            lemma_kept_points_len(segments@.take(i + 1), deletions.ids());
            crate::segment::set::lemma_rows_in_prefix(segments@, i + 1);
        }
        let ids = segments[i].ids.global_ids();
        let kept: usize = count_kept::<K::Elem>(ids, deletions, Ghost(segments@[i as int].rows()));
        count = count + kept;
    }
    assert(segments@.take(segments@.len() as int) =~= segments@);
    count
}

/// Whether some segment has a row under an id.
pub open spec fn stored_in<K: Kernel>(segments: Seq<Arc<SealedSegment<K>>>, id: u64) -> bool {
    exists|i: int|
        0 <= i < segments.len() && (#[trigger] segments[i]).global_ids().contains(GlobalId(id))
}

/// The kept rows of a segment are under the ids that it lists and that are not dropped.
proof fn lemma_kept_row_ids<E>(
    ids: Seq<GlobalId>,
    rows: Seq<Seq<E>>,
    dropped: Set<u64>,
    n: nat,
    id: u64,
)
    requires
        n <= ids.len(),
    ensures
        ids_of(kept_rows(ids, rows, dropped, n)).contains(id) <==> !dropped.contains(id)
            && ids.take(n as int).contains(GlobalId(id)),
    decreases n,
{
    if n > 0 {
        let m = (n - 1) as nat;
        lemma_kept_row_ids(ids, rows, dropped, m, id);
        let rest = kept_rows(ids, rows, dropped, m);
        let all = kept_rows(ids, rows, dropped, n);
        let before = ids.take(m as int);
        let listed = ids.take(n as int);
        if ids_of(all).contains(id) {
            let p = ids_of(all).index_of(id);
            if p < rest.len() {
                assert(ids_of(rest)[p] == id);
                assert(listed[before.index_of(GlobalId(id))] == GlobalId(id));
            } else {
                assert(listed[n - 1] == GlobalId(id));
            }
        }
        if !dropped.contains(id) && listed.contains(GlobalId(id)) {
            let p = listed.index_of(GlobalId(id));
            if p < m {
                assert(before[p] == GlobalId(id));
                assert(ids_of(all)[ids_of(rest).index_of(id)] == id);
            } else {
                assert(ids_of(all)[rest.len() as int] == id);
            }
        }
    }
}

/// The kept points of segments are under the ids that some segment stores and that are
/// not dropped.
pub proof fn lemma_kept_ids<K: Kernel>(
    segments: Seq<Arc<SealedSegment<K>>>,
    dropped: Set<u64>,
    id: u64,
)
    requires
        forall|i: int| 0 <= i < segments.len() ==> (#[trigger] segments[i]).wf(),
    ensures
        ids_of(kept_points(segments, dropped)).contains(id) <==> !dropped.contains(id)
            && stored_in(segments, id),
    decreases segments.len(),
{
    if segments.len() > 0 {
        let shorter = segments.drop_last();
        let last = segments.last();
        assert(last == segments[segments.len() - 1]);
        assert forall|i: int| 0 <= i < shorter.len() implies (#[trigger] shorter[i]).wf() by {
            assert(shorter[i] == segments[i]);
        }
        lemma_kept_ids(shorter, dropped, id);
        lemma_kept_row_ids(last.global_ids(), last.rows(), dropped, last.rows().len(), id);
        assert(last.global_ids().take(last.rows().len() as int) =~= last.global_ids());
        let all = kept_points(segments, dropped);
        let rest = kept_points(shorter, dropped);
        let rows = kept_rows(last.global_ids(), last.rows(), dropped, last.rows().len());
        if ids_of(all).contains(id) {
            let p = ids_of(all).index_of(id);
            if p < rest.len() {
                assert(ids_of(rest)[p] == id);
                let i = choose|i: int|
                    0 <= i < shorter.len() && (#[trigger] shorter[i]).global_ids().contains(
                        GlobalId(id),
                    );
                assert(segments[i] == shorter[i]);
            } else {
                assert(ids_of(rows)[p - rest.len()] == id);
                assert(segments[segments.len() - 1].global_ids().contains(GlobalId(id)));
            }
        }
        if !dropped.contains(id) && stored_in(segments, id) {
            let i = choose|i: int|
                0 <= i < segments.len() && (#[trigger] segments[i]).global_ids().contains(
                    GlobalId(id),
                );
            if i < shorter.len() {
                assert(shorter[i] == segments[i]);
                assert(ids_of(all)[ids_of(rest).index_of(id)] == id);
            } else {
                assert(ids_of(all)[rest.len() + ids_of(rows).index_of(id)] == id);
            }
        }
    }
}

/// The ids of the rows of sealed segments that are not tombstoned, ascending.
pub(crate) fn collect_live_ids<K: Kernel>(
    segments: &Vec<Arc<SealedSegment<K>>>,
    deletions: &DeletionVector,
) -> (live: Vec<u64>)
    requires
        forall|i: int| 0 <= i < segments@.len() ==> (#[trigger] segments@[i]).wf(),
    ensures
        idset::ascending(live@),
        forall|id: u64| #[trigger]
            live@.contains(id) <==> ids_of(kept_points(segments@, deletions.ids())).contains(id),
{
    let mut live: Vec<u64> = Vec::new();
    for i in 0..segments.len()
        invariant
            idset::ascending(live@),
            forall|id: u64| #[trigger]
                live@.contains(id) <==> !deletions.ids().contains(id) && stored_in(
                    segments@.take(i as int),
                    id,
                ),
    {
        let ids = segments[i].ids.global_ids();
        let ghost before = live@;
        let ghost listed = segments@[i as int].global_ids();
        for j in 0..ids.len()
            invariant
                ids@ == listed,
                idset::ascending(live@),
                forall|id: u64| #[trigger]
                    live@.contains(id) <==> before.contains(id) || (!deletions.ids().contains(id)
                        && listed.take(j as int).contains(GlobalId(id))),
        {
            let global = ids[j];
            let ghost middle = live@;
            proof {
                let prefix = listed.take(j as int);
                assert(listed.take(j + 1) =~= prefix.push(global));
                assert forall|g: GlobalId| #[trigger] prefix.push(global).contains(g)
                    <==> prefix.contains(g) || g == global by {
                    if prefix.contains(g) {
                        assert(prefix.push(global)[prefix.index_of(g)] == g);
                    }
                    assert(prefix.push(global)[j as int] == global);
                }
            }
            if !deletions.contains(global) {
                idset::include_id(&mut live, global.get());
            }
            proof {
                assert forall|id: u64| #[trigger] live@.contains(id) <==> before.contains(id) || (
                !deletions.ids().contains(id) && listed.take(j + 1).contains(GlobalId(id))) by {
                    assert(middle.contains(id) <==> before.contains(id) || (
                    !deletions.ids().contains(id) && listed.take(j as int).contains(GlobalId(id))));
                    assert(GlobalId(id) == global <==> id == global.0);
                }
            }
        }
        proof {
            assert(listed.take(listed.len() as int) =~= listed);
            let shorter = segments@.take(i as int);
            let longer = segments@.take(i + 1);
            assert forall|id: u64| #[trigger] stored_in(longer, id) <==> stored_in(shorter, id)
                || listed.contains(GlobalId(id)) by {
                if stored_in(longer, id) {
                    let p = choose|p: int|
                        0 <= p < longer.len() && (#[trigger] longer[p]).global_ids().contains(
                            GlobalId(id),
                        );
                    if p < i {
                        assert(shorter[p] == longer[p]);
                    }
                }
                if stored_in(shorter, id) {
                    let p = choose|p: int|
                        0 <= p < shorter.len() && (#[trigger] shorter[p]).global_ids().contains(
                            GlobalId(id),
                        );
                    assert(longer[p] == shorter[p]);
                }
                assert(longer[i as int].global_ids() == listed);
            }
        }
    }
    proof {
        assert(segments@.take(segments@.len() as int) =~= segments@);
        assert forall|id: u64| #[trigger] live@.contains(id) <==> ids_of(
            kept_points(segments@, deletions.ids()),
        ).contains(id) by {
            lemma_kept_ids(segments@, deletions.ids(), id);
        }
    }
    live
}

/// Every point has a vector of the given length.
pub open spec fn all_of_dim<E>(points: Seq<StoredPoint<E>>, d: nat) -> bool {
    forall|i: int| 0 <= i < points.len() ==> (#[trigger] points[i]).vector@.len() == d
}

/// The rows of sealed segments that are not dropped.
pub(crate) fn collect_points<K: Kernel>(
    segments: &Vec<Arc<SealedSegment<K>>>,
    deletions: Option<&DeletionVector>,
    dim: usize,
) -> (points: Vec<StoredPoint<K::Elem>>)
    requires
        forall|i: int|
            0 <= i < segments@.len() ==> (#[trigger] segments@[i]).wf()
                && segments@[i].index.kernel.spec_dim() == dim,
    ensures
        pairs_of(points@) == kept_points(segments@, dropped_by(deletions)),
        all_of_dim(points@, dim as nat),
{
    let mut points: Vec<StoredPoint<K::Elem>> = Vec::new();
    let ghost dropped = dropped_by(deletions);
    assert(pairs_of(points@) =~= kept_points(segments@.take(0), dropped));
    for i in 0..segments.len()
        invariant
            forall|i: int|
                0 <= i < segments@.len() ==> (#[trigger] segments@[i]).wf()
                    && segments@[i].index.kernel.spec_dim() == dim,
            dropped == dropped_by(deletions),
            pairs_of(points@) == kept_points(segments@.take(i as int), dropped),
            all_of_dim(points@, dim as nat),
    {
        let ghost before = points@;
        let rows = segments[i].iter_points();
        append_kept(&mut points, &rows, deletions);
        proof {
            let seg = segments@[i as int];
            assert(segments@.take(i + 1).drop_last() =~= segments@.take(i as int));
            assert(segments@.take(i + 1).last() == seg);
            assert(pairs_of(points@) == pairs_of(before) + kept_rows(
                seg.global_ids(),
                seg.rows(),
                dropped,
                rows@.len(),
            ));
            assert(all_of_dim(points@, dim as nat));
        }
    }
    assert(segments@.take(segments@.len() as int) =~= segments@);
    points
}

/// The vector of a point in the first segment that has it.
pub(crate) fn find_vector<K: Kernel>(segments: &Vec<Arc<SealedSegment<K>>>, id: GlobalId) -> (vector:
    Option<&[K::Elem]>)
    requires
        forall|i: int| 0 <= i < segments@.len() ==> (#[trigger] segments@[i]).wf(),
    ensures
        match vector {
            Some(v) => first_vector(segments@, id.0) == Some(v@) && exists|i: int|
                0 <= i < segments@.len() && v@.len() == (
                #[trigger] segments@[i]).index.kernel.spec_dim(),
            None => first_vector(segments@, id.0) is None,
        },
{
    for i in 0..segments.len()
        invariant
            forall|i: int| 0 <= i < segments@.len() ==> (#[trigger] segments@[i]).wf(),
            first_vector(segments@.take(i as int), id.0) is None,
    {
        proof {
            assert(segments@.take(i + 1).drop_last() =~= segments@.take(i as int));
            assert(segments@.take(i + 1).last() == segments@[i as int]);
        }
        match segments[i].vector_of(id) {
            Some(v) => {
                proof {
                    lemma_first_vector_is_stable(segments@, id.0, i + 1);
                    assert(v@.len() == segments@[i as int].index.kernel.spec_dim());
                }
                return Some(v);
            },
            None => {},
        }
    }
    assert(segments@.take(segments@.len() as int) =~= segments@);
    None
}

/// Looking at more segments does not change a vector that was found.
proof fn lemma_first_vector_is_stable<K: Kernel>(
    segments: Seq<Arc<SealedSegment<K>>>,
    id: u64,
    n: int,
)
    requires
        0 <= n <= segments.len(),
        first_vector(segments.take(n), id) is Some,
    ensures
        first_vector(segments, id) == first_vector(segments.take(n), id),
    decreases segments.len(),
{
    if n < segments.len() {
        assert(segments.take(n) =~= segments.drop_last().take(n));
        lemma_first_vector_is_stable(segments.drop_last(), id, n);
    } else {
        assert(segments.take(n) =~= segments);
    }
}

/// The raw ids of stored points.
pub(crate) fn raw_ids<E>(points: &Vec<StoredPoint<E>>) -> (ids: Vec<u64>)
    ensures
        ids@ == ids_of(pairs_of(points@)),
{
    let mut ids: Vec<u64> = Vec::with_capacity(points.len());
    for i in 0..points.len()
        invariant
            ids@ == ids_of(pairs_of(points@)).take(i as int),
    {
        ids.push(points[i].id.get());
        assert(ids@ =~= ids_of(pairs_of(points@)).take(i + 1));
    }
    assert(ids@ =~= ids_of(pairs_of(points@)));
    ids
}

} // verus!
