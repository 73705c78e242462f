//! What logged operations change, over any number of them.

use std::sync::Arc;

use vstd::prelude::*;

use crate::collection::points;
use crate::collection::recovery as collection_recovery;
use crate::distance::Kernel;
use crate::durable;
use crate::durable::LiveState;
use crate::durable::WalOp;
use crate::id::GlobalId;
use crate::payload::JsonValue;
use crate::segment::SealedSegment;
use crate::version::DeletionVector;

verus! {

/// Whether an operation writes a row under an id: an upsert of it, of the right length.
pub open spec fn writes<E>(op: WalOp<E>, dim: nat, id: u64) -> bool {
    op matches WalOp::Upsert { id: target, vector, .. } && target == id && vector@.len() == dim
}

/// Whether an operation deletes an id.
pub open spec fn deletes<E>(op: WalOp<E>, id: u64) -> bool {
    op matches WalOp::Delete { id: target } && target == id
}

/// Whether a row is stored under an id when the operation at a place runs: in a sealed
/// segment, among the rows there were before, or written by an earlier operation.
pub open spec fn stored_before<E>(
    sealed: Set<u64>,
    s: LiveState<E>,
    dim: nat,
    ops: Seq<WalOp<E>>,
    at: int,
    id: u64,
) -> bool {
    ||| sealed.contains(id)
    ||| s.ids.contains(GlobalId(id))
    ||| exists|j: int| 0 <= j < at && writes(#[trigger] ops[j], dim, id)
}

/// The rows that follow the first ones, an operation at a time: after any operations, the
/// rows there were stay as they were, in place, and a row is stored under an id exactly if
/// it was before or some operation writes it.
pub proof fn law_replay_keeps_rows<K: Kernel>(
    kernel: K,
    dim: nat,
    sealed: Set<u64>,
    s: LiveState<K::Elem>,
    ops: Seq<WalOp<K::Elem>>,
    id: u64,
)
    requires
        s.ids.len() == s.rows.len(),
    ensures
        ({
            let after = durable::replayed(kernel, dim, sealed, s, ops);
            &&& after.ids.len() == after.rows.len()
            &&& after.ids.len() >= s.ids.len()
            &&& after.ids.take(s.ids.len() as int) == s.ids
            &&& after.rows.take(s.ids.len() as int) == s.rows
            &&& after.ids.contains(GlobalId(id)) <==> s.ids.contains(GlobalId(id)) || exists|j: int|
                0 <= j < ops.len() && writes(#[trigger] ops[j], dim, id)
        }),
    decreases ops.len(),
{
    let after = durable::replayed(kernel, dim, sealed, s, ops);
    if ops.len() == 0 {
        assert(s.ids.take(s.ids.len() as int) =~= s.ids);
        assert(s.rows.take(s.ids.len() as int) =~= s.rows);
    } else {
        let fewer = ops.drop_last();
        let op = ops.last();
        law_replay_keeps_rows(kernel, dim, sealed, s, fewer, id);
        let before = durable::replayed(kernel, dim, sealed, s, fewer);
        assert(op == ops[ops.len() - 1]);
        let n = s.ids.len() as int;
        assert(after.ids.take(n) =~= before.ids.take(n));
        assert(after.rows.take(n) =~= before.rows.take(n));
        if before.ids.contains(GlobalId(id)) {
            assert(after.ids[before.ids.index_of(GlobalId(id))] == GlobalId(id));
        }
        if writes(op, dim, id) {
            assert(after.ids[before.ids.len() as int] == GlobalId(id));
        }
        if after.ids.contains(GlobalId(id)) && !before.ids.contains(GlobalId(id)) {
            let p = after.ids.index_of(GlobalId(id));
            if p < before.ids.len() {
                assert(before.ids[p] == GlobalId(id));
            }
            assert(writes(op, dim, id));
        }
        if exists|j: int| 0 <= j < fewer.len() && writes(#[trigger] fewer[j], dim, id) {
            let j = choose|j: int| 0 <= j < fewer.len() && writes(#[trigger] fewer[j], dim, id);
            assert(writes(ops[j], dim, id));
        }
        if exists|j: int| 0 <= j < ops.len() && writes(#[trigger] ops[j], dim, id) {
            let j = choose|j: int| 0 <= j < ops.len() && writes(#[trigger] ops[j], dim, id);
            if j < fewer.len() {
                assert(writes(fewer[j], dim, id));
            }
        }
    }
}

/// A logged operation tombstones nothing but what it names, and brings nothing back: after
/// any operations an id is tombstoned exactly if it was before, or if some operation among
/// them deletes it while a row is stored under it.
pub proof fn law_replay_tombstones_what_is_deleted<K: Kernel>(
    kernel: K,
    dim: nat,
    sealed: Set<u64>,
    s: LiveState<K::Elem>,
    ops: Seq<WalOp<K::Elem>>,
    id: u64,
)
    requires
        s.ids.len() == s.rows.len(),
    ensures
        durable::replayed(kernel, dim, sealed, s, ops).deletions.contains(id)
            <==> s.deletions.contains(id) || exists|i: int|
            0 <= i < ops.len() && deletes(#[trigger] ops[i], id) && stored_before(
                sealed,
                s,
                dim,
                ops,
                i,
                id,
            ),
    decreases ops.len(),
{
    if ops.len() > 0 {
        let fewer = ops.drop_last();
        let op = ops.last();
        let last = ops.len() - 1;
        law_replay_tombstones_what_is_deleted(kernel, dim, sealed, s, fewer, id);
        law_replay_keeps_rows(kernel, dim, sealed, s, fewer, id);
        let before = durable::replayed(kernel, dim, sealed, s, fewer);
        let after = durable::replayed(kernel, dim, sealed, s, ops);
        assert forall|i: int| 0 <= i <= last implies #[trigger] stored_before(
            sealed,
            s,
            dim,
            ops,
            i,
            id,
        ) == stored_before(sealed, s, dim, fewer, i, id) by {
            if exists|j: int| 0 <= j < i && writes(#[trigger] ops[j], dim, id) {
                let j = choose|j: int| 0 <= j < i && writes(#[trigger] ops[j], dim, id);
                assert(writes(fewer[j], dim, id));
            }
            if exists|j: int| 0 <= j < i && writes(#[trigger] fewer[j], dim, id) {
                let j = choose|j: int| 0 <= j < i && writes(#[trigger] fewer[j], dim, id);
                assert(writes(ops[j], dim, id));
            }
        }
        assert(stored_before(sealed, s, dim, ops, last, id) <==> sealed.contains(id)
            || before.ids.contains(GlobalId(id)));
        if before.deletions.contains(id) && !s.deletions.contains(id) {
            let i = choose|i: int|
                0 <= i < fewer.len() && deletes(#[trigger] fewer[i], id) && stored_before(
                    sealed,
                    s,
                    dim,
                    fewer,
                    i,
                    id,
                );
            assert(deletes(ops[i], id));
            assert(stored_before(sealed, s, dim, ops, i, id));
        }
        if after.deletions.contains(id) && !before.deletions.contains(id) {
            assert(deletes(ops[last], id));
            assert(stored_before(sealed, s, dim, ops, last, id));
        }
        if exists|i: int|
            0 <= i < ops.len() && deletes(#[trigger] ops[i], id) && stored_before(
                sealed,
                s,
                dim,
                ops,
                i,
                id,
            ) {
            let i = choose|i: int|
                0 <= i < ops.len() && deletes(#[trigger] ops[i], id) && stored_before(
                    sealed,
                    s,
                    dim,
                    ops,
                    i,
                    id,
                );
            if i < last {
                assert(deletes(fewer[i], id));
                assert(stored_before(sealed, s, dim, fewer, i, id));
            }
        }
    }
}

/// An upsert of the right length appends one row under its id, stores its payload if it has
/// one, moves the allocator past its id, and leaves every tombstone and every other payload
/// as it was.
pub proof fn law_upsert_changes_only_its_point<K: Kernel>(
    kernel: K,
    dim: nat,
    sealed: Set<u64>,
    s: LiveState<K::Elem>,
    id: u64,
    vector: Vec<K::Elem>,
    payload: Option<Arc<JsonValue>>,
    other: u64,
)
    requires
        vector@.len() == dim,
    ensures
        ({
            let after = durable::step(
                kernel,
                dim,
                sealed,
                s,
                WalOp::Upsert { id, vector, payload },
            );
            &&& after.deletions == s.deletions
            &&& after.ids == s.ids.push(GlobalId(id))
            &&& after.rows.len() == s.rows.len() + 1
            &&& after.rows.drop_last() == s.rows
            &&& !(kernel.spec_metric() is Cosine) ==> after.rows.last() == vector@
            &&& kernel.spec_metric() is Cosine ==> after.rows.last() == kernel.spec_normalized(
                vector@,
            )
            &&& payload is None ==> after.payloads == s.payloads
            &&& payload matches Some(p) ==> after.payloads.contains_key(id) && after.payloads[id]
                == p
            &&& other != id ==> after.payloads.contains_key(other) == s.payloads.contains_key(other)
            &&& other != id && s.payloads.contains_key(other) ==> after.payloads[other]
                == s.payloads[other]
            &&& after.next_global > id
            &&& after.next_global == s.next_global || after.next_global == id + 1
            &&& s.next_global > id ==> after.next_global == s.next_global
        }),
{
    let after = durable::step(kernel, dim, sealed, s, WalOp::Upsert { id, vector, payload });
    assert(after.rows.drop_last() =~= s.rows);
}

/// An upsert of the wrong length changes nothing.
pub proof fn law_misfit_changes_nothing<K: Kernel>(
    kernel: K,
    dim: nat,
    sealed: Set<u64>,
    s: LiveState<K::Elem>,
    id: u64,
    vector: Vec<K::Elem>,
    payload: Option<Arc<JsonValue>>,
)
    requires
        vector@.len() != dim,
    ensures
        durable::step(kernel, dim, sealed, s, WalOp::Upsert { id, vector, payload }) == s,
{
}

/// A delete leaves every row, every payload, every other tombstone and the allocator as they
/// were; it tombstones its id if a row is stored under it, and nothing else.
pub proof fn law_delete_changes_only_its_tombstone<K: Kernel>(
    kernel: K,
    dim: nat,
    sealed: Set<u64>,
    s: LiveState<K::Elem>,
    id: u64,
    other: u64,
)
    ensures
        ({
            let after = durable::step(kernel, dim, sealed, s, WalOp::Delete { id });
            &&& after.ids == s.ids
            &&& after.rows == s.rows
            &&& after.payloads == s.payloads
            &&& after.next_global == s.next_global
            &&& other != id ==> after.deletions.contains(other) == s.deletions.contains(other)
            &&& sealed.contains(id) || s.ids.contains(GlobalId(id)) ==> after.deletions.contains(id)
            &&& !sealed.contains(id) && !s.ids.contains(GlobalId(id)) ==> after.deletions.contains(
                id,
            ) == s.deletions.contains(id)
        }),
{
}

/// After any operations the payload of a point is that of the last write that carried one,
/// or what it was before if none did.
pub proof fn law_replay_keeps_last_payload<K: Kernel>(
    kernel: K,
    dim: nat,
    sealed: Set<u64>,
    s: LiveState<K::Elem>,
    ops: Seq<WalOp<K::Elem>>,
    id: u64,
    at: int,
)
    requires
        -1 <= at < ops.len(),
        at >= 0 ==> writes(ops[at], dim, id) && ops[at]->payload is Some,
        forall|j: int|
            at < j < ops.len() ==> !(writes(#[trigger] ops[j], dim, id) && ops[j]->payload is Some),
    ensures
        ({
            let after = durable::replayed(kernel, dim, sealed, s, ops);
            &&& at >= 0 ==> after.payloads.contains_key(id) && Some(after.payloads[id])
                == ops[at]->payload
            &&& at < 0 ==> after.payloads.contains_key(id) == s.payloads.contains_key(id)
            &&& at < 0 && s.payloads.contains_key(id) ==> after.payloads[id] == s.payloads[id]
        }),
    decreases ops.len(),
{
    if ops.len() > 0 {
        let fewer = ops.drop_last();
        let op = ops.last();
        assert(op == ops[ops.len() - 1]);
        if at < ops.len() - 1 {
            if at >= 0 {
                assert(fewer[at] == ops[at]);
            }
            assert forall|j: int| at < j < fewer.len() implies !(writes(
                #[trigger] fewer[j],
                dim,
                id,
            ) && fewer[j]->payload is Some) by {
                assert(fewer[j] == ops[j]);
            }
            law_replay_keeps_last_payload(kernel, dim, sealed, s, fewer, id, at);
        }
    }
}

/// After any operations the allocator is past every id that was written, and moved no
/// further than that.
pub proof fn law_replay_moves_allocator<K: Kernel>(
    kernel: K,
    dim: nat,
    sealed: Set<u64>,
    s: LiveState<K::Elem>,
    ops: Seq<WalOp<K::Elem>>,
)
    ensures
        ({
            let after = durable::replayed(kernel, dim, sealed, s, ops);
            &&& after.next_global >= s.next_global
            &&& forall|j: int, id: u64|
                0 <= j < ops.len() && #[trigger] writes(ops[j], dim, id) ==> id < after.next_global
            &&& after.next_global == s.next_global || exists|j: int, id: u64|
                0 <= j < ops.len() && #[trigger] writes(ops[j], dim, id) && after.next_global == id
                    + 1
        }),
    decreases ops.len(),
{
    if ops.len() > 0 {
        let fewer = ops.drop_last();
        let op = ops.last();
        let last = ops.len() - 1;
        assert(op == ops[last]);
        law_replay_moves_allocator(kernel, dim, sealed, s, fewer);
        let before = durable::replayed(kernel, dim, sealed, s, fewer);
        let after = durable::replayed(kernel, dim, sealed, s, ops);
        assert forall|j: int, id: u64|
            0 <= j < ops.len() && #[trigger] writes(ops[j], dim, id) implies id
            < after.next_global by {
            if j < last {
                assert(writes(fewer[j], dim, id));
            }
        }
        if after.next_global != before.next_global {
            assert(writes(ops[last], dim, op->Upsert_id));
        } else if before.next_global != s.next_global {
            let (j, id) = choose|j: int, id: u64|
                0 <= j < fewer.len() && #[trigger] writes(fewer[j], dim, id) && before.next_global
                    == id + 1;
            assert(writes(ops[j], dim, id));
        }
    }
}

/// Replaying in two parts is replaying the whole: a log can be cut anywhere.
pub proof fn law_replay_in_parts<K: Kernel>(
    kernel: K,
    dim: nat,
    sealed: Set<u64>,
    s: LiveState<K::Elem>,
    first: Seq<WalOp<K::Elem>>,
    rest: Seq<WalOp<K::Elem>>,
)
    ensures
        durable::replayed(kernel, dim, sealed, s, first + rest) == durable::replayed(
            kernel,
            dim,
            sealed,
            durable::replayed(kernel, dim, sealed, s, first),
            rest,
        ),
    decreases rest.len(),
{
    if rest.len() == 0 {
        assert(first + rest =~= first);
    } else {
        assert((first + rest).drop_last() =~= first + rest.drop_last());
        assert((first + rest).last() == rest.last());
        law_replay_in_parts(kernel, dim, sealed, s, first, rest.drop_last());
    }
}

/// A restart works on exactly the listed ones of the segments it is given, in their order.
pub proof fn law_restart_takes_the_listed_segments<K: Kernel>(
    segments: Seq<Arc<SealedSegment<K>>>,
    ids: Seq<u64>,
)
    ensures
        collection_recovery::chosen(segments, ids) == segments.filter(
            |s: Arc<SealedSegment<K>>| ids.contains(s.id.0),
        ),
    decreases segments.len(),
{
    reveal(Seq::filter);
    if segments.len() > 0 {
        law_restart_takes_the_listed_segments(segments.drop_last(), ids);
    }
}

/// A restart registers every segment it is given under its id: the last one, if several have
/// the same.
pub proof fn law_restart_registers_every_segment<K: Kernel>(
    registry: Map<u64, Arc<SealedSegment<K>>>,
    segments: Seq<Arc<SealedSegment<K>>>,
    i: int,
)
    requires
        0 <= i < segments.len(),
        forall|j: int|
            i < j < segments.len() ==> (#[trigger] segments[j]).id.0 != segments[i].id.0,
    ensures
        collection_recovery::with_registered(registry, segments).contains_key(segments[i].id.0),
        collection_recovery::with_registered(registry, segments)[segments[i].id.0] == segments[i],
    decreases segments.len(),
{
    let shorter = segments.drop_last();
    let last = segments.len() - 1;
    assert(segments.last() == segments[last]);
    if i < last {
        assert(segments[last].id.0 != segments[i].id.0);
        assert(shorter[i] == segments[i]);
        assert forall|j: int| i < j < shorter.len() implies (#[trigger] shorter[j]).id.0
            != shorter[i].id.0 by {
            assert(segments[j].id.0 != segments[i].id.0);
        }
        law_restart_registers_every_segment(registry, shorter, i);
    }
}

/// Under an id that none of the segments has, a restart registers what was registered before.
pub proof fn law_restart_registers_nothing_else<K: Kernel>(
    registry: Map<u64, Arc<SealedSegment<K>>>,
    segments: Seq<Arc<SealedSegment<K>>>,
    id: u64,
)
    requires
        forall|j: int| 0 <= j < segments.len() ==> (#[trigger] segments[j]).id.0 != id,
    ensures
        collection_recovery::with_registered(registry, segments).contains_key(id)
            == registry.contains_key(id),
        registry.contains_key(id) ==> collection_recovery::with_registered(registry, segments)[id]
            == registry[id],
    decreases segments.len(),
{
    if segments.len() > 0 {
        let shorter = segments.drop_last();
        let last = segments.len() - 1;
        assert(segments.last() == segments[last]);
        assert(segments[last].id.0 != id);
        assert forall|j: int| 0 <= j < shorter.len() implies (#[trigger] shorter[j]).id.0 != id by {
            assert(segments[j].id.0 != id);
        }
        law_restart_registers_nothing_else(registry, shorter, id);
    }
}

/// Reading points leaves out those that the given tombstones hold, and without tombstones
/// none.
pub proof fn law_no_tombstones_drop_nothing(deletions: &DeletionVector, id: u64)
    ensures
        points::dropped_by(Some(deletions)).contains(id) <==> deletions.ids().contains(id),
        !points::dropped_by(None).contains(id),
{
}

} // verus!
