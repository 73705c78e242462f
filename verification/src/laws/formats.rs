//! What files, logs, lines and numbers look like, byte by byte and character by character.

use std::path::PathBuf;

use vstd::prelude::*;
use vstd::arithmetic::power::*;

use crate::error::CoreError;
use crate::jsonl;
use crate::jsonl::JsonField;
use crate::jsonl::JsonLine;
use crate::jsonl::NewLine;
use crate::lines;
use crate::ordered;
use crate::persist::bytes;
use crate::persist::frame;
use crate::persist::frame::FileKind;
use crate::persist::wal;
use crate::text;

verus! {

/// Numbers are written least significant byte first: byte `i` is what is left of the number
/// after dividing by `256^i`, modulo 256.
pub proof fn law_numbers_are_little_endian(x: nat, n: nat, i: int)
    requires
        0 <= i < n,
    ensures
        bytes::le_bytes(x, n).len() == n,
        bytes::le_bytes(x, n)[i] == (x as int / pow(256, i as nat)) % 256,
    decreases n,
{
    bytes::lemma_le_bytes_len(x, n);
    let rest = bytes::le_bytes(x / 256, (n - 1) as nat);
    bytes::lemma_le_bytes_len(x / 256, (n - 1) as nat);
    if i == 0 {
        reveal(pow);
        assert(pow(256, 0) == 1);
    } else {
        law_numbers_are_little_endian(x / 256, (n - 1) as nat, i - 1);
        assert(bytes::le_bytes(x, n)[i] == rest[i - 1]);
        lemma_pow_positive(256, (i - 1) as nat);
        reveal(pow);
        let p = pow(256, (i - 1) as nat);
        vstd::arithmetic::div_mod::lemma_div_denominator(x as int, 256, p);
    }
}

/// Reading is the inverse of writing: bytes `b0 b1 ..` spell `b0 + 256 * (b1 + ..)`.
pub proof fn law_little_endian_values(first: u8, rest: Seq<u8>)
    ensures
        bytes::le_value(Seq::empty()) == 0,
        bytes::le_value(seq![first] + rest) == first + 256 * bytes::le_value(rest),
{
    assert((seq![first] + rest).skip(1) =~= rest);
}

/// A frame is laid out as: `VVEC`, the format version, the kind, the payload's length, the
/// payload, the CRC-32 of all of that, `VEND`.
pub proof fn law_frame_layout(version: u32, kind: u32, payload: Seq<u8>)
    ensures
        ({
            let file = frame::framed(version, kind, payload);
            let n = payload.len() as int;
            &&& file.len() == 28 + n
            &&& file[0] == 0x56 && file[1] == 0x56 && file[2] == 0x45 && file[3] == 0x43
            &&& file.subrange(4, 8) == bytes::le_bytes(version as nat, 4)
            &&& file.subrange(8, 12) == bytes::le_bytes(kind as nat, 4)
            &&& file.subrange(12, 20) == bytes::le_bytes(n as nat, 8)
            &&& file.subrange(20, 20 + n) == payload
            &&& file.subrange(20 + n, 24 + n) == bytes::le_bytes(
                frame::crc32(file.subrange(0, 20 + n)) as nat,
                4,
            )
            &&& file[24 + n] == 0x56 && file[25 + n] == 0x45 && file[26 + n] == 0x4E && file[27 + n]
                == 0x44
        }),
{
    let n = payload.len() as int;
    let header = frame::header_of(version, kind, payload.len());
    let body = header + payload;
    let file = frame::framed(version, kind, payload);
    bytes::lemma_le_bytes_len(version as nat, 4);
    bytes::lemma_le_bytes_len(kind as nat, 4);
    bytes::lemma_le_bytes_len(n as nat, 8);
    bytes::lemma_le_bytes_len(frame::crc32(body) as nat, 4);
    assert(file.subrange(0, 20 + n) =~= body);
    assert(file.subrange(4, 8) =~= bytes::le_bytes(version as nat, 4));
    assert(file.subrange(8, 12) =~= bytes::le_bytes(kind as nat, 4));
    assert(file.subrange(12, 20) =~= bytes::le_bytes(n as nat, 8));
    assert(file.subrange(20, 20 + n) =~= payload);
    assert(file.subrange(20 + n, 24 + n) =~= bytes::le_bytes(frame::crc32(body) as nat, 4));
}

/// Kinds have different tags.
pub proof fn law_kinds_have_different_tags(a: FileKind, b: FileKind)
    ensures
        a.tag() == b.tag() ==> a == b,
        FileKind::Generic.tag() == 0,
        FileKind::Manifest.tag() == 1,
        FileKind::Segment.tag() == 2,
        FileKind::DeletionVector.tag() == 3,
        FileKind::Head.tag() == 4,
        FileKind::Snapshot.tag() == 5,
{
}

/// Whatever is accepted as a frame is the frame of what is read from it, and a frame that
/// differs anywhere from a frame with the same header and payload is refused.
pub proof fn law_only_frames_are_accepted(file: Seq<u8>)
    ensures
        frame::intact(file) <==> exists|version: u32, kind: u32, payload: Seq<u8>|
            payload.len() <= u64::MAX && file == #[trigger] frame::framed(version, kind, payload),
{
    if frame::intact(file) {
        let n = file.len() as int;
        bytes::lemma_byte_limits();
        bytes::law_le_value_is_spelled(file.subrange(4, 8));
        bytes::law_le_value_is_spelled(file.subrange(8, 12));
        bytes::law_le_value_is_spelled(file.subrange(12, 20));
        bytes::law_le_value_is_spelled(file.subrange(n - 8, n - 4));
        let version = bytes::le_value(file.subrange(4, 8)) as u32;
        let kind = bytes::le_value(file.subrange(8, 12)) as u32;
        let payload = file.subrange(20, n - 8);
        let header = frame::header_of(version, kind, payload.len());
        assert(header =~= file.subrange(0, 20));
        assert(header + payload =~= file.subrange(0, n - 8));
        assert(frame::framed(version, kind, payload) =~= file);
    }
    if exists|version: u32, kind: u32, payload: Seq<u8>|
        payload.len() <= u64::MAX && file == #[trigger] frame::framed(version, kind, payload) {
        let (version, kind, payload) = choose|version: u32, kind: u32, payload: Seq<u8>|
            payload.len() <= u64::MAX && file == #[trigger] frame::framed(version, kind, payload);
        frame::law_frame_round_trip(version, kind, payload);
    }
}

/// A log record is laid out as: the payload's length, its CRC-32, the payload.
pub proof fn law_record_layout(payload: Seq<u8>)
    ensures
        ({
            let record = wal::record_of(payload);
            &&& record.len() == 8 + payload.len()
            &&& record.subrange(0, 4) == bytes::le_bytes(payload.len(), 4)
            &&& record.subrange(4, 8) == bytes::le_bytes(frame::crc32(payload) as nat, 4)
            &&& record.subrange(8, record.len() as int) == payload
        }),
{
    let record = wal::record_of(payload);
    bytes::lemma_le_bytes_len(payload.len(), 4);
    bytes::lemma_le_bytes_len(frame::crc32(payload) as nat, 4);
    assert(record.subrange(0, 4) =~= bytes::le_bytes(payload.len(), 4));
    assert(record.subrange(4, 8) =~= bytes::le_bytes(frame::crc32(payload) as nat, 4));
    assert(record.subrange(8, record.len() as int) =~= payload);
}

/// A log is its records one after the other.
pub proof fn law_log_is_its_records(payloads: Seq<Seq<u8>>, payload: Seq<u8>)
    ensures
        wal::log_of(Seq::empty()).len() == 0,
        wal::log_of(payloads.push(payload)) == wal::log_of(payloads) + wal::record_of(payload),
{
    wal::lemma_log_push(payloads, payload);
}

/// The valid records of a log take up exactly the bytes that logging them again would, at
/// its start; what follows does not begin with a record.
pub proof fn law_valid_records_lead_the_log(log: Seq<u8>)
    ensures
        ({
            let n = wal::valid_len(log) as int;
            &&& n <= log.len()
            &&& log.take(n) == wal::log_of(wal::records_in(log))
            &&& !wal::starts_with_record(log.skip(n))
        }),
    decreases log.len(),
{
    let n = wal::valid_len(log) as int;
    if wal::starts_with_record(log) {
        let payload = wal::first_payload(log);
        let m = 8 + payload.len() as int;
        let rest = log.skip(m);
        law_valid_records_lead_the_log(rest);
        let records = wal::records_in(log);
        assert(records.first() == payload);
        assert(records.skip(1) =~= wal::records_in(rest));
        bytes::law_le_value_is_spelled(log.subrange(0, 4));
        bytes::law_le_value_is_spelled(log.subrange(4, 8));
        let record = wal::record_of(payload);
        bytes::lemma_le_bytes_len(payload.len(), 4);
        bytes::lemma_le_bytes_len(frame::crc32(payload) as nat, 4);
        assert(log.take(m) =~= record) by {
            assert forall|i: int| 0 <= i < m implies log[i] == record[i] by {
                if i < 4 {
                    assert(log.subrange(0, 4)[i] == log[i]);
                } else if i < 8 {
                    assert(log.subrange(4, 8)[i - 4] == log[i]);
                } else {
                    assert(payload[i - 8] == log[i]);
                }
            }
        }
        assert(log.take(n) =~= log.take(m) + rest.take(n - m));
        assert(log.skip(n) =~= rest.skip(n - m));
    } else {
        assert(log.take(0) =~= wal::log_of(wal::records_in(log)));
        assert(log.skip(0) =~= log);
    }
}

/// A text is cut at its newlines: what comes before the first one is a line, without the
/// carriage return before it, and what comes after it is cut in the same way; a text without
/// a newline is one line as it stands, unless it is empty.
pub proof fn law_lines_are_cut_at_newlines(line: Seq<char>, rest: Seq<char>)
    requires
        !line.contains('\n'),
    ensures
        lines::lines_of(line.push('\n') + rest) == seq![
            if line.len() > 0 && line.last() == '\r' {
                line.drop_last()
            } else {
                line
            },
        ] + lines::lines_of(rest),
        lines::lines_of(line) == if line.len() == 0 {
            Seq::<Seq<char>>::empty()
        } else {
            seq![line]
        },
{
    let text = line.push('\n') + rest;
    assert(text.take(line.len() as int) =~= line);
    lines::lemma_first_place_after(line, '\n', text);
    lines::lemma_first_place_after(line, '\n', line);
    assert(text.skip(line.len() as int + 1) =~= rest);
}

/// The entries of a text are its lines that are not blank, in order.
pub proof fn law_entries_are_the_lines_with_content(all: Seq<Seq<char>>)
    ensures
        jsonl::entries_in(all) == all.filter(
            |line: Seq<char>|
                exists|i: int| 0 <= i < line.len() && !lines::white_space(#[trigger] line[i]),
        ),
    decreases all.len(),
{
    reveal(Seq::filter);
    let content = |line: Seq<char>|
        exists|i: int| 0 <= i < line.len() && !lines::white_space(#[trigger] line[i]);
    if all.len() > 0 {
        law_entries_are_the_lines_with_content(all.drop_last());
        let last = all.last();
        if content(last) {
            let i = choose|i: int| 0 <= i < last.len() && !lines::white_space(#[trigger] last[i]);
            assert(!lines::blank(last));
        } else {
            assert(lines::blank(last));
        }
    }
}

/// A line of JSON has the components of its `vector` field, each item that is no number
/// counting as zero; without such a field, or where it is no array, it has none.
pub proof fn law_vectors_come_from_their_field(fields: Seq<JsonField>, at: int)
    requires
        -1 <= at < fields.len(),
        at >= 0 ==> fields[at].name == "vector"@,
        forall|i: int|
            0 <= i < fields.len() && (at < 0 || i < at) ==> (#[trigger] fields[i]).name
                != "vector"@,
    ensures
        at < 0 || fields[at].items is None ==> jsonl::components_of(JsonLine::Object(fields)) is None,
        at >= 0 && fields[at].items is Some ==> {
            let items = fields[at].items->0;
            let read = jsonl::components_of(JsonLine::Object(fields));
            &&& read is Some
            &&& read->0.len() == items.len()
            &&& forall|i: int|
                0 <= i < items.len() ==> (#[trigger] read->0[i]).key == match items[i] {
                    Some(bits) => ordered::key_of_bits_64(bits),
                    None => 0,
                }
        },
        jsonl::components_of(JsonLine::Other) is None,
{
    lemma_first_field(fields, "vector"@, at);
    if at >= 0 && fields[at].items is Some {
        let items = fields[at].items->0;
        let read = jsonl::components_of(JsonLine::Object(fields))->0;
        assert forall|i: int| 0 <= i < items.len() implies (#[trigger] read[i]).key
            == match items[i] {
            Some(bits) => ordered::key_of_bits_64(bits),
            None => 0,
        } by {
            assert(read[i] == jsonl::component_of(items[i]));
        }
    }
}

/// A line's payload is the text of its `payload` field, unless that is missing or `null`.
pub proof fn law_payloads_come_from_their_field(fields: Seq<JsonField>, at: int)
    requires
        -1 <= at < fields.len(),
        at >= 0 ==> fields[at].name == "payload"@,
        forall|i: int|
            0 <= i < fields.len() && (at < 0 || i < at) ==> (#[trigger] fields[i]).name
                != "payload"@,
    ensures
        jsonl::payload_in(JsonLine::Object(fields)) == if at < 0 || fields[at].is_null {
            None
        } else {
            Some(fields[at].text)
        },
        jsonl::payload_in(JsonLine::Other) is None,
{
    lemma_first_field(fields, "payload"@, at);
}

proof fn lemma_first_field(fields: Seq<JsonField>, name: Seq<char>, at: int)
    requires
        -1 <= at < fields.len(),
        at >= 0 ==> fields[at].name == name,
        forall|i: int|
            0 <= i < fields.len() && (at < 0 || i < at) ==> (#[trigger] fields[i]).name != name,
    ensures
        jsonl::first_field(fields, name) == if at < 0 {
            None
        } else {
            Some(fields[at])
        },
    decreases fields.len(),
{
    if fields.len() > 0 {
        let shorter = fields.drop_last();
        let last = fields.len() - 1;
        assert(fields.last() == fields[last]);
        assert forall|i: int| 0 <= i < shorter.len() implies shorter[i] == fields[i] by {}
        if at == last {
            lemma_first_field(shorter, name, -1);
        } else {
            lemma_first_field(shorter, name, at);
            if at < 0 {
                assert(fields[last].name != name);
            }
        }
    }
}

/// Numbers are shown in decimal: the digits, weighted by their places, make the number, and
/// there is no leading zero but for zero itself.
pub proof fn law_decimal_shows_the_number(n: nat)
    ensures
        text::decimal(n).len() > 0,
        n >= 10 ==> text::decimal(n) == text::decimal(n / 10) + text::decimal(n % 10),
        n < 10 ==> text::decimal(n).len() == 1 && text::decimal(n)[0] as u32 == 0x30 + n,
        n > 0 ==> text::decimal(n)[0] != '0',
    decreases n,
{
    if n >= 10 {
        law_decimal_shows_the_number(n / 10);
        assert(text::decimal(n) =~= text::decimal(n / 10) + text::decimal(n % 10));
    }
}

/// A file is refused for the first thing wrong with it: too short for a frame, other first
/// bytes than a frame's, another length than it declares, other last bytes than a frame's,
/// another checksum than it stores.
pub proof fn law_refusals_name_the_first_fault(file: Seq<u8>, path: PathBuf, e: CoreError)
    requires
        frame::refusal(file, path, e),
    ensures
        ({
            let n = file.len() as int;
            let starts = n >= 4 && file[0] == 0x56 && file[1] == 0x56 && file[2] == 0x45 && file[3]
                == 0x43;
            let ends = n >= 4 && file[n - 4] == 0x56 && file[n - 3] == 0x45 && file[n - 2] == 0x4E
                && file[n - 1] == 0x44;
            let fits = n == 28 + bytes::le_value(file.subrange(12, 20));
            &&& (e is BadMagic <==> n >= 28 && !starts)
            &&& (e is Corrupt <==> n < 28 || (starts && !(fits && ends)))
            &&& (e is ChecksumMismatch <==> n >= 28 && starts && fits && ends)
            &&& (e matches CoreError::ChecksumMismatch { path: p, expected, computed } ==> {
                &&& p == path
                &&& expected == bytes::le_value(file.subrange(n - 8, n - 4))
                &&& computed == frame::crc32(file.subrange(0, n - 8))
                &&& expected != computed
            })
            &&& (e matches CoreError::BadMagic { path: p, found, .. } ==> p == path && found@
                == file.subrange(0, 4))
            &&& (e matches CoreError::Corrupt { path: p, .. } ==> p == path)
        }),
{
    let n = file.len() as int;
    let first = file.subrange(0, 4);
    let last = file.subrange(n - 4, n);
    if n >= 28 {
        assert(first[0] == file[0] && first[1] == file[1] && first[2] == file[2] && first[3]
            == file[3]);
        assert(last[0] == file[n - 4] && last[1] == file[n - 3] && last[2] == file[n - 2] && last[3]
            == file[n - 1]);
        assert(first == frame::magic() <==> first =~= frame::magic());
        assert(last == frame::end_magic() <==> last =~= frame::end_magic());
    }
}

/// A line of text can be read exactly if something can be read from it: its text is JSON with
/// a `vector` array. What is read holds that array's values, and the text of the `payload`
/// field if it has one that is not `null`.
pub proof fn law_lines_are_read_from_their_fields(line: Seq<char>, read: NewLine)
    ensures
        jsonl::readable(line) <==> {
            &&& jsonl::json_text(line) is Some
            &&& jsonl::components_of(jsonl::json_text(line)->0) is Some
        },
        jsonl::read_from(line, read) ==> {
            let json = jsonl::json_text(line)->0;
            &&& jsonl::readable(line)
            &&& Some(read.values@) == jsonl::components_of(json)
            &&& read.payload is Some <==> jsonl::payload_in(json) is Some
            &&& read.payload is Some ==> read.payload->0@ == jsonl::payload_in(json)->0
        },
{
}

} // verus!
