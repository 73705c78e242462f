//! A minimal append-only write-ahead log.
//!
//! Every mutation is appended to the log and made durable **before** it is acknowledged
//! and applied in memory, so an acknowledged write survives a crash: recovery replays the
//! log. Records are individually checksummed and length-framed, so a crash mid-write
//! leaves a *torn tail* that is detected and dropped rather than corrupting earlier
//! records.

use vstd::prelude::*;
use vstd::slice::slice_subrange;

use crate::persist::bytes;
use crate::persist::frame;
use crate::vector;

verus! {

/// The length of a record's header: payload length and checksum.
pub const RECORD_HEADER_LEN: usize = 8;

/// A log record.
pub open spec fn record_of(payload: Seq<u8>) -> Seq<u8> {
    bytes::le_bytes(payload.len(), 4) + bytes::le_bytes(frame::crc32(payload) as nat, 4) + payload
}

/// A log: its records, one after the other.
pub open spec fn log_of(payloads: Seq<Seq<u8>>) -> Seq<u8>
    decreases payloads.len(),
{
    if payloads.len() == 0 {
        Seq::empty()
    } else {
        record_of(payloads.first()) + log_of(payloads.skip(1))
    }
}

/// Whether bytes begin with a whole, valid record.
pub open spec fn starts_with_record(log: Seq<u8>) -> bool {
    let len = bytes::le_value(log.subrange(0, 4));
    &&& log.len() >= RECORD_HEADER_LEN
    &&& log.len() >= RECORD_HEADER_LEN + len
    &&& frame::crc32(log.subrange(8, (8 + len) as int)) == bytes::le_value(log.subrange(4, 8))
}

/// The payload of the record that bytes begin with.
pub open spec fn first_payload(log: Seq<u8>) -> Seq<u8> {
    log.subrange(8, (8 + bytes::le_value(log.subrange(0, 4))) as int)
}

/// The payloads of the valid records at the start of a log.
pub open spec fn records_in(log: Seq<u8>) -> Seq<Seq<u8>>
    decreases log.len(),
{
    if starts_with_record(log) {
        let payload = first_payload(log);
        seq![payload] + records_in(log.skip((8 + payload.len()) as int))
    } else {
        Seq::empty()
    }
}

/// How many bytes the valid records at the start of a log take up.
pub open spec fn valid_len(log: Seq<u8>) -> nat
    decreases log.len(),
{
    if starts_with_record(log) {
        let n = 8 + first_payload(log).len();
        n + valid_len(log.skip(n as int))
    } else {
        0
    }
}

/// A log taken apart: the payloads of its valid records and where each record ends.
pub struct LogScan {
    /// The payloads.
    pub payloads: Vec<Vec<u8>>,
    /// The offset just past each record.
    pub ends: Vec<u64>,
}

/// The contents of scanned payloads.
pub open spec fn contents(payloads: Seq<Vec<u8>>) -> Seq<Seq<u8>> {
    Seq::new(payloads.len(), |i: int| payloads[i]@)
}

impl LogScan {
    /// The end of each record is where the records up to it end.
    pub open spec fn wf(&self) -> bool {
        &&& self.ends@.len() == self.payloads@.len()
        &&& forall|i: int|
            0 <= i < self.ends@.len() ==> (#[trigger] self.ends@[i]) == log_of(
                contents(self.payloads@).take(i + 1),
            ).len()
    }

    /// How many bytes of the log to keep when the first `accepted` records could be
    /// decoded: everything after is dropped.
    pub fn valid_end(&self, accepted: usize) -> (end: u64)
        requires
            self.wf(),
            accepted <= self.payloads@.len(),
        ensures
            end == log_of(contents(self.payloads@).take(accepted as int)).len(),
    {
        if accepted == 0 {
            assert(contents(self.payloads@).take(0).len() == 0);
            0
        } else {
            self.ends[accepted - 1]
        }
    }

    /// The records a log is taken to hold, given what each payload decodes to: those before
    /// the first that does not decode. Also how many bytes of the log hold them.
    pub fn accept<T>(&self, decoded: Vec<Option<T>>) -> (r: (Vec<T>, u64))
        requires
            self.wf(),
            decoded@.len() <= self.payloads@.len(),
        ensures
            r.0@.len() <= decoded@.len(),
            forall|i: int| 0 <= i < r.0@.len() ==> decoded@[i] == Some(#[trigger] r.0@[i]),
            r.0@.len() < decoded@.len() ==> decoded@[r.0@.len() as int] is None,
            r.1 == log_of(contents(self.payloads@).take(r.0@.len() as int)).len(),
    {
        let ghost all = decoded@;
        let mut n: usize = 0;
        while n < decoded.len() && decoded[n].is_some()
            invariant
                n <= decoded@.len(),
                forall|i: int| 0 <= i < n ==> (#[trigger] decoded@[i]) is Some,
            decreases decoded@.len() - n,
        {
            n = n + 1;
        }
        let mut rest = decoded;
        rest.truncate(n);
        let mut backwards: Vec<T> = Vec::new();
        while rest.len() > 0
            invariant
                n <= all.len(),
                rest@ == all.take(n - backwards@.len()),
                backwards@.len() <= n,
                forall|i: int| 0 <= i < n ==> (#[trigger] all[i]) is Some,
                forall|i: int|
                    0 <= i < backwards@.len() ==> all[n - 1 - i] == Some(#[trigger] backwards@[i]),
            decreases rest@.len(),
        {
            assert(all[n - backwards@.len() - 1] is Some);
            if let Some(Some(record)) = rest.pop() {
                backwards.push(record);
            }
            assert(rest@ =~= all.take(n - backwards@.len()));
        }
        let mut accepted: Vec<T> = Vec::with_capacity(n);
        let ghost turned = backwards@;
        while backwards.len() > 0
            invariant
                turned.len() == n,
                backwards@ == turned.take(n - accepted@.len()),
                accepted@.len() <= n,
                forall|i: int|
                    0 <= i < accepted@.len() ==> turned[n - 1 - i] == #[trigger] accepted@[i],
            decreases backwards@.len(),
        {
            if let Some(record) = backwards.pop() {
                accepted.push(record);
            }
            assert(backwards@ =~= turned.take(n - accepted@.len()));
        }
        proof {
            assert forall|i: int| 0 <= i < accepted@.len() implies all[i] == Some(
                #[trigger] accepted@[i],
            ) by {
                assert(turned[n - 1 - i] == accepted@[i]);
            }
        }
        let end: u64 = self.valid_end(n);
        (accepted, end)
    }
}

/// Appends a record to a log.
pub fn append_record(log: &mut Vec<u8>, payload: &[u8])
    requires
        payload@.len() <= u32::MAX,
    ensures
        final(log)@ == old(log)@ + record_of(payload@),
{
    let ghost start = log@;
    let crc: u32 = frame::checksum(payload);
    bytes::put_le(log, payload.len() as u64, 4);
    bytes::put_le(log, crc as u64, 4);
    vector::append_slice(log, payload);
    assert(log@ =~= start + record_of(payload@));
}

/// Parses all valid records from a log, stopping at a torn tail.
pub fn scan_log(log: &[u8]) -> (scan: LogScan)
    ensures
        scan.wf(),
        contents(scan.payloads@) == records_in(log@),
        log_of(contents(scan.payloads@)).len() == valid_len(log@),
{
    let mut payloads: Vec<Vec<u8>> = Vec::new();
    let mut ends: Vec<u64> = Vec::new();
    let n: usize = log.len();
    let mut off: usize = 0;
    let mut more = true;
    proof {
        assert(log@.skip(0) =~= log@);
        assert(contents(payloads@) + records_in(log@) =~= records_in(log@));
        assert(contents(payloads@) =~= Seq::<Seq<u8>>::empty());
    }
    while more
        invariant
            n == log@.len(),
            off <= n,
            ends@.len() == payloads@.len(),
            forall|i: int|
                0 <= i < ends@.len() ==> (#[trigger] ends@[i]) == log_of(
                    contents(payloads@).take(i + 1),
                ).len(),
            off == log_of(contents(payloads@)).len(),
            records_in(log@) == contents(payloads@) + records_in(log@.skip(off as int)),
            valid_len(log@) == off + valid_len(log@.skip(off as int)),
            !more ==> !starts_with_record(log@.skip(off as int)),
        decreases (if more { n - off + 1 } else { 0int }),
    {
        let ghost rest = log@.skip(off as int);
        if n - off < RECORD_HEADER_LEN {
            more = false;
        } else {
            let len: u64 = bytes::get_le(log, off, 4);
            let crc: u64 = bytes::get_le(log, off + 4, 4);
            proof {
                assert(rest.subrange(0, 4) =~= log@.subrange(off as int, off + 4));
                assert(rest.subrange(4, 8) =~= log@.subrange(off + 4, off + 8));
                bytes::lemma_byte_limits();
                bytes::law_le_value_is_spelled(log@.subrange(off as int, off + 4));
            }
            if ((n - off - RECORD_HEADER_LEN) as u64) < len {
                more = false;
            } else {
                let start: usize = off + RECORD_HEADER_LEN;
                let end: usize = start + len as usize;
                let payload = slice_subrange(log, start, end);
                assert(rest.subrange(8, (8 + len) as int) =~= payload@);
                if frame::checksum(payload) as u64 != crc {
                    more = false;
                } else {
                    let ghost before = contents(payloads@);
                    let ghost ends_before = ends@;
                    payloads.push(vector::copy_slice(payload));
                    ends.push(end as u64);
                    proof {
                        let after = contents(payloads@);
                        assert(after =~= before.push(payload@));
                        assert(first_payload(rest) == payload@);
                        assert(rest.skip((8 + payload@.len()) as int) =~= log@.skip(end as int));
                        assert(before + (seq![payload@] + records_in(log@.skip(end as int)))
                            =~= after + records_in(log@.skip(end as int)));
                        lemma_log_push(before, payload@);
                        bytes::lemma_le_bytes_len(payload@.len(), 4);
                        bytes::lemma_le_bytes_len(frame::crc32(payload@) as nat, 4);
                        assert forall|i: int| 0 <= i < ends@.len() implies (#[trigger] ends@[i])
                            == log_of(after.take(i + 1)).len() by {
                            if i < ends_before.len() {
                                assert(ends_before[i] == log_of(before.take(i + 1)).len());
                                assert(after.take(i + 1) =~= before.take(i + 1));
                            } else {
                                assert(after.take(i + 1) =~= after);
                            }
                        }
                    }
                    off = end;
                }
            }
        }
    }
    proof {
        assert(contents(payloads@) + Seq::<Seq<u8>>::empty() =~= contents(payloads@));
    }
    LogScan { payloads, ends }
}

/// Appending a record appends it to the log.
pub proof fn lemma_log_push(payloads: Seq<Seq<u8>>, payload: Seq<u8>)
    ensures
        log_of(payloads.push(payload)) == log_of(payloads) + record_of(payload),
    decreases payloads.len(),
{
    let longer = payloads.push(payload);
    if payloads.len() == 0 {
        assert(longer.skip(1) =~= payloads);
        assert(longer.first() == payload);
        assert(log_of(payloads) =~= Seq::<u8>::empty());
        assert(log_of(longer) =~= log_of(payloads) + record_of(payload));
    } else {
        assert(longer.skip(1) =~= payloads.skip(1).push(payload));
        assert(longer.first() == payloads.first());
        lemma_log_push(payloads.skip(1), payload);
        assert(log_of(longer) =~= log_of(payloads) + record_of(payload));
    }
}

/// What was logged is read back, in order, whatever torn bytes follow it: the tail is
/// dropped and no earlier record is lost.
#[verifier::spinoff_prover]
pub proof fn law_log_round_trip(payloads: Seq<Seq<u8>>, tail: Seq<u8>)
    requires
        forall|i: int| 0 <= i < payloads.len() ==> (#[trigger] payloads[i]).len() <= u32::MAX,
        !starts_with_record(tail),
    ensures
        records_in(log_of(payloads) + tail) == payloads,
        valid_len(log_of(payloads) + tail) == log_of(payloads).len(),
    decreases payloads.len(),
{
    let log = log_of(payloads) + tail;
    if payloads.len() == 0 {
        assert(log =~= tail);
        assert(records_in(log) =~= payloads);
    } else {
        let p = payloads.first();
        let rest = payloads.skip(1);
        assert(payloads[0].len() <= u32::MAX);
        assert forall|i: int| 0 <= i < rest.len() implies (#[trigger] rest[i]).len() <= u32::MAX by {
            assert(rest[i] == payloads[i + 1]);
        }
        law_log_round_trip(rest, tail);
        bytes::lemma_byte_limits();
        bytes::law_le_bytes_spell(p.len(), 4);
        bytes::law_le_bytes_spell(frame::crc32(p) as nat, 4);
        let record = record_of(p);
        let after = log_of(rest) + tail;
        assert(record.len() == 8 + p.len());
        assert(log =~= record + after);
        assert(log.subrange(0, 4) =~= bytes::le_bytes(p.len(), 4));
        assert(log.subrange(4, 8) =~= bytes::le_bytes(frame::crc32(p) as nat, 4));
        assert(log.subrange(8, (8 + p.len()) as int) =~= p);
        assert(starts_with_record(log));
        assert(first_payload(log) == p);
        assert(log.skip((8 + p.len()) as int) =~= after);
        assert(records_in(log) == seq![p] + records_in(after));
        assert(seq![p] + rest =~= payloads);
        assert(records_in(log) =~= payloads);
    }
}

/// A crash in the middle of an append loses only the record being written: every earlier
/// record is read back, and the partial bytes are dropped.
pub proof fn law_torn_append_is_dropped(payloads: Seq<Seq<u8>>, payload: Seq<u8>, cut: int)
    requires
        forall|i: int| 0 <= i < payloads.len() ==> (#[trigger] payloads[i]).len() <= u32::MAX,
        payload.len() <= u32::MAX,
        0 <= cut < record_of(payload).len(),
    ensures
        records_in(log_of(payloads) + record_of(payload).take(cut)) == payloads,
        valid_len(log_of(payloads) + record_of(payload).take(cut)) == log_of(payloads).len(),
{
    let tail = record_of(payload).take(cut);
    bytes::lemma_byte_limits();
    bytes::law_le_bytes_spell(payload.len(), 4);
    bytes::lemma_le_bytes_len(frame::crc32(payload) as nat, 4);
    if cut >= 8 {
        assert(tail.subrange(0, 4) =~= bytes::le_bytes(payload.len(), 4));
    }
    assert(!starts_with_record(tail));
    law_log_round_trip(payloads, tail);
}

/// A changed byte in the checksum or the payload of a record is caught: the log ends before
/// that record, and every earlier one is read back. (The length field has no checksum of
/// its own: a changed length makes another record of the bytes that follow.)
pub proof fn law_changed_record_ends_the_log(
    payloads: Seq<Seq<u8>>,
    payload: Seq<u8>,
    at: int,
    b: u8,
    tail: Seq<u8>,
)
    requires
        forall|i: int| 0 <= i < payloads.len() ==> (#[trigger] payloads[i]).len() <= u32::MAX,
        payload.len() <= u32::MAX,
        4 <= at < record_of(payload).len(),
        b != record_of(payload)[at],
    ensures
        records_in(log_of(payloads) + (record_of(payload).update(at, b) + tail)) == payloads,
        valid_len(log_of(payloads) + (record_of(payload).update(at, b) + tail)) == log_of(
            payloads,
        ).len(),
{
    let record = record_of(payload);
    let rest = record.update(at, b) + tail;
    let n = 8 + payload.len() as int;
    bytes::lemma_byte_limits();
    bytes::law_le_bytes_spell(payload.len(), 4);
    bytes::law_le_bytes_spell(frame::crc32(payload) as nat, 4);
    assert(rest.subrange(0, 4) =~= bytes::le_bytes(payload.len(), 4));
    assert(record.subrange(4, 8) =~= bytes::le_bytes(frame::crc32(payload) as nat, 4));
    if at < 8 {
        assert(rest.subrange(8, n) =~= payload);
        bytes::law_le_value_is_spelled(rest.subrange(4, 8));
        assert(rest.subrange(4, 8)[at - 4] == b);
        assert(record.subrange(4, 8)[at - 4] == record[at]);
    } else {
        assert(rest.subrange(4, 8) =~= record.subrange(4, 8));
        assert(record[at] == payload[at - 8]);
        assert(rest.subrange(8, n) =~= payload.update(at - 8, b));
        frame::law_changed_byte_changes_checksum(payload, at - 8, b);
    }
    assert(!starts_with_record(rest));
    law_log_round_trip(payloads, rest);
}

} // verus!
