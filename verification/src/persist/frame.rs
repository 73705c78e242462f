//! Framing of durable files.
//!
//! Files are framed with a magic, a format version, a kind tag, and a CRC-32 over the
//! header and payload, plus a trailing end-magic so truncated tails are detected.
//! [`parse_framed`] validates all of that and returns a structured error (never a panic,
//! never silently-wrong bytes) on any corruption.

use std::path::PathBuf;

use vstd::prelude::*;
use vstd::slice::slice_subrange;
use vstd::string::StringExecFns;

use crate::error::CoreError;
use crate::persist::bytes;
use crate::text;
use crate::vector;

verus! {

/// The length of a frame's header: magic, version, kind and payload length.
pub const HEADER_LEN: usize = 20;

/// The length of a frame's footer: checksum and end magic.
pub const FOOTER_LEN: usize = 8;

/// One bit of polynomial division: the reflected CRC-32 polynomial is subtracted where the
/// bit that is shifted out is set.
pub open spec fn crc_bit(state: u32) -> u32 {
    if state & 1 == 1 {
        (state >> 1) ^ 0xEDB8_8320
    } else {
        state >> 1
    }
}

/// The division state after one more byte.
pub open spec fn crc_byte(state: u32, byte: u8) -> u32 {
    crc_bit(
        crc_bit(crc_bit(crc_bit(crc_bit(crc_bit(crc_bit(crc_bit(state ^ (byte as u32)))))))),
    )
}

/// The division state after some bytes, which starts with all bits set.
pub open spec fn crc_state(bytes: Seq<u8>) -> u32
    decreases bytes.len(),
{
    if bytes.len() == 0 {
        0xFFFF_FFFF
    } else {
        crc_byte(crc_state(bytes.drop_last()), bytes.last())
    }
}

/// The CRC-32 (IEEE 802.3) of a byte string: the complement of the final state.
pub open spec fn crc32(bytes: Seq<u8>) -> u32 {
    !crc_state(bytes)
}

/// `crc32fast::hash`: the CRC-32 (IEEE) checksum of the bytes.
#[verifier::external_body]
pub(crate) fn checksum(bytes: &[u8]) -> (crc: u32)
    ensures
        crc == crc32(bytes@),
{
    crc32fast::hash(bytes)
}

/// The kind of artifact stored in a framed file. The framing layer treats the kind as an
/// opaque tag (it round-trips it but never rejects an unknown one); callers interpret it.
#[non_exhaustive]
#[derive(Debug, Clone, Copy, PartialEq, Eq, Structural)]
pub enum FileKind {
    /// Unspecified / generic payload.
    Generic,
    /// A version manifest.
    Manifest,
    /// A sealed segment.
    Segment,
    /// A per-version deletion vector.
    DeletionVector,
    /// The collection `HEAD` pointer.
    Head,
    /// A checkpoint snapshot.
    Snapshot,
}

impl FileKind {
    /// The raw tag of a kind.
    pub open spec fn tag(self) -> u32 {
        match self {
            FileKind::Generic => 0,
            FileKind::Manifest => 1,
            FileKind::Segment => 2,
            FileKind::DeletionVector => 3,
            FileKind::Head => 4,
            FileKind::Snapshot => 5,
        }
    }

    /// The raw tag written into the file header.
    pub fn as_u32(self) -> (tag: u32)
        ensures
            tag == self.tag(),
    {
        match self {
            FileKind::Generic => 0,
            FileKind::Manifest => 1,
            FileKind::Segment => 2,
            FileKind::DeletionVector => 3,
            FileKind::Head => 4,
            FileKind::Snapshot => 5,
        }
    }
}

/// A decoded framed file: its declared format version, kind tag, and payload bytes.
#[derive(Debug, Clone)]
pub struct Frame {
    /// The caller-defined payload format version recorded in the header.
    pub format_version: u32,
    /// The raw [`FileKind`] tag (kept as a `u32` for forward compatibility).
    pub kind: u32,
    /// The payload bytes (header/footer stripped, integrity already verified).
    pub payload: Vec<u8>,
}

/// The four bytes that open a frame: `VVEC`.
pub open spec fn magic() -> Seq<u8> {
    seq![0x56u8, 0x56u8, 0x45u8, 0x43u8]
}

/// The four bytes that close a frame: `VEND`.
pub open spec fn end_magic() -> Seq<u8> {
    seq![0x56u8, 0x45u8, 0x4Eu8, 0x44u8]
}

/// The header of a frame.
pub open spec fn header_of(format_version: u32, kind: u32, payload_len: nat) -> Seq<u8> {
    magic() + bytes::le_bytes(format_version as nat, 4) + bytes::le_bytes(kind as nat, 4)
        + bytes::le_bytes(payload_len, 8)
}

/// A whole framed file.
pub open spec fn framed(format_version: u32, kind: u32, payload: Seq<u8>) -> Seq<u8> {
    let body = header_of(format_version, kind, payload.len()) + payload;
    body + bytes::le_bytes(crc32(body) as nat, 4) + end_magic()
}

/// The payload length a file declares.
pub open spec fn declared_len(file: Seq<u8>) -> nat {
    bytes::le_value(file.subrange(12, 20))
}

/// The checksum a file of the declared length stores.
pub open spec fn stored_crc(file: Seq<u8>) -> nat {
    bytes::le_value(file.subrange(file.len() - 8, file.len() - 4))
}

/// The checksum of everything but the footer.
pub open spec fn computed_crc(file: Seq<u8>) -> u32 {
    crc32(file.subrange(0, file.len() - 8))
}

/// Whether a file is an intact frame.
pub open spec fn intact(file: Seq<u8>) -> bool {
    &&& file.len() >= HEADER_LEN + FOOTER_LEN
    &&& file.subrange(0, 4) == magic()
    &&& file.len() == HEADER_LEN + declared_len(file) + FOOTER_LEN
    &&& file.subrange(file.len() - 4, file.len() as int) == end_magic()
    &&& stored_crc(file) == computed_crc(file)
}

/// What an intact frame holds.
pub open spec fn frame_of(file: Seq<u8>, frame: Frame) -> bool {
    &&& frame.format_version == bytes::le_value(file.subrange(4, 8))
    &&& frame.kind == bytes::le_value(file.subrange(8, 12))
    &&& frame.payload@ == file.subrange(20, file.len() - 8)
}

/// The message for a length that does not match.
pub open spec fn length_message(declared: nat, actual: nat) -> Seq<char> {
    "length mismatch: header declares "@ + text::decimal(declared) + "-byte payload (expected "@
        + text::decimal(declared + 28) + " total) but file is "@ + text::decimal(actual)
        + " bytes"@
}

/// Why a file that is not an intact frame is refused: the first of the checks, in order,
/// that it fails.
pub open spec fn refusal(file: Seq<u8>, path: PathBuf, e: CoreError) -> bool {
    if file.len() < HEADER_LEN + FOOTER_LEN {
        e matches CoreError::Corrupt { path: p, detail } && p == path && detail@
            == "file too short: "@ + text::decimal(file.len()) + " bytes"@
    } else if file.subrange(0, 4) != magic() {
        e matches CoreError::BadMagic { path: p, expected, found } && p == path && expected@
            == magic() && found@ == file.subrange(0, 4)
    } else if file.len() != HEADER_LEN + declared_len(file) + FOOTER_LEN {
        e matches CoreError::Corrupt { path: p, detail } && p == path && detail@ == length_message(
            declared_len(file),
            file.len(),
        )
    } else if file.subrange(file.len() - 4, file.len() as int) != end_magic() {
        e matches CoreError::Corrupt { path: p, detail } && p == path && detail@
            == "missing end magic (truncated tail)"@
    } else {
        &&& stored_crc(file) != computed_crc(file)
        &&& e matches CoreError::ChecksumMismatch { path: p, expected, computed } && p == path
            && expected == stored_crc(file) && computed == computed_crc(file)
    }
}

/// Appends the bytes that open a frame.
fn put_magic(out: &mut Vec<u8>)
    ensures
        final(out)@ == old(out)@ + magic(),
{
    let ghost start = out@;
    out.push(0x56);
    out.push(0x56);
    out.push(0x45);
    out.push(0x43);
    assert(out@ =~= start + magic());
}

/// Appends the bytes that close a frame.
fn put_end_magic(out: &mut Vec<u8>)
    ensures
        final(out)@ == old(out)@ + end_magic(),
{
    let ghost start = out@;
    out.push(0x56);
    out.push(0x45);
    out.push(0x4E);
    out.push(0x44);
    assert(out@ =~= start + end_magic());
}

/// Frames a payload: the bytes that are written to a file.
pub fn encode_frame(kind: FileKind, format_version: u32, payload: &[u8]) -> (file: Vec<u8>)
    requires
        payload@.len() + 28 <= usize::MAX,
    ensures
        file@ == framed(format_version, kind.tag(), payload@),
{
    let mut file: Vec<u8> = Vec::with_capacity(payload.len() + 28);
    put_magic(&mut file);
    bytes::put_le(&mut file, format_version as u64, 4);
    bytes::put_le(&mut file, kind.as_u32() as u64, 4);
    bytes::put_le(&mut file, payload.len() as u64, 8);
    proof {
        assert(file@ =~= header_of(format_version, kind.tag(), payload@.len()));
    }
    vector::append_slice(&mut file, payload);
    let crc: u32 = checksum(file.as_slice());
    bytes::put_le(&mut file, crc as u64, 4);
    put_end_magic(&mut file);
    file
}

/// The four bytes at a place.
fn four_at(file: &[u8], at: usize) -> (four: [u8; 4])
    requires
        at + 4 <= file@.len(),
    ensures
        four@ == file@.subrange(at as int, at + 4),
{
    let four = [file[at], file[at + 1], file[at + 2], file[at + 3]];
    assert(four@ =~= file@.subrange(at as int, at + 4));
    four
}

/// Whether four bytes are the expected ones.
fn same_four(a: &[u8; 4], b: &[u8; 4]) -> (r: bool)
    ensures
        r == (a@ == b@),
{
    let r = a[0] == b[0] && a[1] == b[1] && a[2] == b[2] && a[3] == b[3];
    proof {
        if r {
            assert(a@ =~= b@);
        }
    }
    r
}

/// Validates the bytes of a framed file and takes it apart.
///
/// Returns a structured [`CoreError`] (`BadMagic`, `Corrupt`, `ChecksumMismatch`) on any
/// integrity problem rather than panicking or returning wrong bytes.
pub fn parse_framed(file: &[u8], path: PathBuf) -> (r: Result<Frame, CoreError>)
    ensures
        match r {
            Ok(frame) => intact(file@) && frame_of(file@, frame),
            Err(e) => !intact(file@) && refusal(file@, path, e),
        },
{
    let n: usize = file.len();
    if n < HEADER_LEN + FOOTER_LEN {
        return Err(
            CoreError::Corrupt {
                path,
                detail: "file too short: ".to_owned().concat(
                    text::decimal_text(n as u64).as_str(),
                ).concat(" bytes"),
            },
        );
    }
    let expected: [u8; 4] = [0x56, 0x56, 0x45, 0x43];
    assert(expected@ =~= magic());
    let found: [u8; 4] = four_at(file, 0);
    if !same_four(&found, &expected) {
        return Err(CoreError::BadMagic { path, expected, found });
    }
    proof {
        bytes::lemma_byte_limits();
        bytes::law_le_value_is_spelled(file@.subrange(4, 8));
        bytes::law_le_value_is_spelled(file@.subrange(8, 12));
        bytes::law_le_value_is_spelled(file@.subrange(n - 8, n - 4));
    }
    let format_version: u32 = bytes::get_le(file, 4, 4) as u32;
    let kind: u32 = bytes::get_le(file, 8, 4) as u32;
    let declared: u64 = bytes::get_le(file, 12, 8);
    if (n as u64 - 28) != declared {
        let total: u128 = declared as u128 + 28;
        let detail = "length mismatch: header declares ".to_owned().concat(
            text::decimal_text(declared).as_str(),
        ).concat("-byte payload (expected ").concat(text::wide_decimal_text(total).as_str()).concat(
            " total) but file is ",
        ).concat(text::decimal_text(n as u64).as_str()).concat(" bytes");
        return Err(CoreError::Corrupt { path, detail });
    }
    let closing: [u8; 4] = [0x56, 0x45, 0x4E, 0x44];
    assert(closing@ =~= end_magic());
    let tail: [u8; 4] = four_at(file, n - 4);
    if !same_four(&tail, &closing) {
        return Err(
            CoreError::Corrupt { path, detail: "missing end magic (truncated tail)".to_owned() },
        );
    }
    let stored: u32 = bytes::get_le(file, n - 8, 4) as u32;
    let computed: u32 = checksum(slice_subrange(file, 0, n - 8));
    if computed != stored {
        return Err(CoreError::ChecksumMismatch { path, expected: stored, computed });
    }
    Ok(
        Frame {
            format_version,
            kind,
            payload: vector::copy_slice(slice_subrange(file, HEADER_LEN, n - 8)),
        },
    )
}

/// What is written is read back: a framed payload is an intact file that holds exactly the
/// payload, the kind and the version it was framed with.
pub proof fn law_frame_round_trip(format_version: u32, kind: u32, payload: Seq<u8>)
    requires
        payload.len() <= u64::MAX,
    ensures
        intact(framed(format_version, kind, payload)),
        bytes::le_value(framed(format_version, kind, payload).subrange(4, 8)) == format_version,
        bytes::le_value(framed(format_version, kind, payload).subrange(8, 12)) == kind,
        framed(format_version, kind, payload).subrange(
            20,
            framed(format_version, kind, payload).len() - 8,
        ) == payload,
{
    let file = framed(format_version, kind, payload);
    let header = header_of(format_version, kind, payload.len());
    let body = header + payload;
    bytes::lemma_byte_limits();
    bytes::law_le_bytes_spell(format_version as nat, 4);
    bytes::law_le_bytes_spell(kind as nat, 4);
    bytes::law_le_bytes_spell(payload.len(), 8);
    bytes::law_le_bytes_spell(crc32(body) as nat, 4);
    let n = file.len() as int;
    assert(n == 28 + payload.len());
    assert(file.subrange(0, 4) =~= magic());
    assert(file.subrange(4, 8) =~= bytes::le_bytes(format_version as nat, 4));
    assert(file.subrange(8, 12) =~= bytes::le_bytes(kind as nat, 4));
    assert(file.subrange(12, 20) =~= bytes::le_bytes(payload.len(), 8));
    assert(file.subrange(20, n - 8) =~= payload);
    assert(file.subrange(0, n - 8) =~= body);
    assert(file.subrange(n - 8, n - 4) =~= bytes::le_bytes(crc32(body) as nat, 4));
    assert(file.subrange(n - 4, n) =~= end_magic());
}

/// A file is accepted only if it is, byte for byte, the frame of what is read from it: no
/// change to a file goes unnoticed unless it makes another valid frame.
pub proof fn law_accepted_files_are_frames(file: Seq<u8>, frame: Frame)
    requires
        intact(file),
        frame_of(file, frame),
    ensures
        file == framed(frame.format_version, frame.kind, frame.payload@),
{
    let n = file.len() as int;
    bytes::law_le_value_is_spelled(file.subrange(4, 8));
    bytes::law_le_value_is_spelled(file.subrange(8, 12));
    bytes::law_le_value_is_spelled(file.subrange(12, 20));
    bytes::law_le_value_is_spelled(file.subrange(n - 8, n - 4));
    let body = file.subrange(0, n - 8);
    let header = header_of(frame.format_version, frame.kind, frame.payload@.len());
    assert(header =~= file.subrange(0, 20));
    assert(header + frame.payload@ =~= body);
    assert(framed(frame.format_version, frame.kind, frame.payload@) =~= file);
}

/// Different states stay different over a bit.
proof fn lemma_crc_bit(a: u32, b: u32)
    requires
        a != b,
    ensures
        crc_bit(a) != crc_bit(b),
{
    assert((if a & 1 == 1 {
        (a >> 1) ^ 0xEDB8_8320
    } else {
        a >> 1
    }) != (if b & 1 == 1 {
        (b >> 1) ^ 0xEDB8_8320
    } else {
        b >> 1
    })) by (bit_vector)
        requires
            a != b,
    ;
}

/// Different states stay different over eight bits.
proof fn lemma_crc_bits(a: u32, b: u32, n: nat)
    requires
        a != b,
    ensures
        shifted(a, n) != shifted(b, n),
    decreases n,
{
    if n > 0 {
        lemma_crc_bits(a, b, (n - 1) as nat);
        lemma_crc_bit(shifted(a, (n - 1) as nat), shifted(b, (n - 1) as nat));
    }
}

/// The state after several bits.
spec fn shifted(state: u32, n: nat) -> u32
    decreases n,
{
    if n == 0 {
        state
    } else {
        crc_bit(shifted(state, (n - 1) as nat))
    }
}

/// A byte keeps different states apart, and different bytes set equal states apart.
proof fn lemma_crc_byte(s: u32, t: u32, b: u8, c: u8)
    requires
        (s != t && b == c) || (s == t && b != c),
    ensures
        crc_byte(s, b) != crc_byte(t, c),
{
    let x = b as u32;
    let y = c as u32;
    assert((s ^ x) != (t ^ y)) by (bit_vector)
        requires
            (s != t && x == y) || (s == t && x != y),
    ;
    lemma_crc_bits(s ^ x, t ^ y, 8);
    reveal_with_fuel(shifted, 9);
}

/// Changing one byte changes the CRC-32.
pub proof fn law_changed_byte_changes_checksum(bytes: Seq<u8>, at: int, b: u8)
    requires
        0 <= at < bytes.len(),
        b != bytes[at],
    ensures
        crc_state(bytes.update(at, b)) != crc_state(bytes),
        crc32(bytes.update(at, b)) != crc32(bytes),
    decreases bytes.len(),
{
    let other = bytes.update(at, b);
    let shorter = bytes.drop_last();
    if at == bytes.len() - 1 {
        assert(other.drop_last() =~= shorter);
        lemma_crc_byte(crc_state(shorter), crc_state(shorter), b, bytes[at]);
    } else {
        assert(other.drop_last() =~= shorter.update(at, b));
        assert(other.last() == bytes.last());
        law_changed_byte_changes_checksum(shorter, at, b);
        lemma_crc_byte(
            crc_state(shorter.update(at, b)),
            crc_state(shorter),
            bytes.last(),
            bytes.last(),
        );
    }
    let x = crc_state(other);
    let y = crc_state(bytes);
    assert(!x != !y) by (bit_vector)
        requires
            x != y,
    ;
}

/// A changed byte is caught, wherever it lies: the file is refused.
pub proof fn law_every_changed_byte_is_caught(file: Seq<u8>, at: int, b: u8)
    requires
        intact(file),
        0 <= at < file.len(),
        b != file[at],
    ensures
        !intact(file.update(at, b)),
{
    let other = file.update(at, b);
    let n = file.len() as int;
    if intact(other) {
        if at < n - 8 {
            let body = file.subrange(0, n - 8);
            assert(other.subrange(0, n - 8) =~= body.update(at, b));
            law_changed_byte_changes_checksum(body, at, b);
            assert(other.subrange(n - 8, n - 4) =~= file.subrange(n - 8, n - 4));
        } else if at < n - 4 {
            assert(other.subrange(0, n - 8) =~= file.subrange(0, n - 8));
            bytes::law_le_value_is_spelled(file.subrange(n - 8, n - 4));
            bytes::law_le_value_is_spelled(other.subrange(n - 8, n - 4));
            assert(file.subrange(n - 8, n - 4)[at - (n - 8)] == file[at]);
            assert(other.subrange(n - 8, n - 4)[at - (n - 8)] == b);
        } else {
            assert(other.subrange(n - 4, n)[at - (n - 4)] == b);
            assert(file.subrange(n - 4, n)[at - (n - 4)] == file[at]);
        }
    }
}

/// A truncated file is refused, wherever it was cut.
pub proof fn law_truncated_file_is_refused(file: Seq<u8>, n: int)
    requires
        intact(file),
        0 <= n < file.len(),
    ensures
        !intact(file.take(n)),
{
    if n >= 20 {
        assert(file.take(n).subrange(12, 20) =~= file.subrange(12, 20));
    }
}

} // verus!
