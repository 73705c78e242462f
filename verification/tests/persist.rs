use std::path::PathBuf;

use vecvec::error::path_suffix;
use vecvec::persist::bytes::{get_le, put_le};
use vecvec::persist::frame::{encode_frame, parse_framed, FileKind, Frame, FOOTER_LEN, HEADER_LEN};
use vecvec::persist::wal::{append_record, scan_log, RECORD_HEADER_LEN};
use vecvec::CoreError;

fn write(payload: &[u8]) -> Vec<u8> {
    encode_frame(FileKind::Generic, 1, payload)
}

fn read(file: &[u8]) -> Result<Frame, CoreError> {
    parse_framed(file, PathBuf::from("a.bin"))
}

#[test]
fn roundtrips_payload_kind_and_version() {
    let file = encode_frame(FileKind::Manifest, 7, b"hello vecvec");
    let frame = read(&file).unwrap();
    assert_eq!(frame.payload, b"hello vecvec");
    assert_eq!(frame.kind, FileKind::Manifest.as_u32());
    assert_eq!(frame.format_version, 7);
}

#[test]
fn empty_payload_roundtrips() {
    assert_eq!(read(&write(b"")).unwrap().payload, b"");
}

#[test]
fn detects_bit_flip_in_payload() {
    let mut raw = write(b"important payload");
    raw[HEADER_LEN] ^= 0xFF; // flip first payload byte
    assert!(matches!(read(&raw), Err(CoreError::ChecksumMismatch { .. })));
}

#[test]
fn detects_truncation() {
    let raw = write(b"0123456789");
    assert!(matches!(read(&raw[..raw.len() - 3]), Err(CoreError::Corrupt { .. })));
}

#[test]
fn detects_bad_magic() {
    assert!(matches!(read(&vec![0u8; 64]), Err(CoreError::BadMagic { .. })));
}

fn bytes_of(len: usize, seed: u32) -> Vec<u8> {
    (0..len)
        .map(|i| ((i as u32).wrapping_mul(2_654_435_761).wrapping_add(seed) >> 13) as u8)
        .collect()
}

#[test]
fn prop_roundtrip() {
    let kinds = [
        FileKind::Generic,
        FileKind::Manifest,
        FileKind::Segment,
        FileKind::DeletionVector,
        FileKind::Head,
        FileKind::Snapshot,
    ];
    for (i, len) in [0usize, 1, 2, 19, 20, 255, 1024, 4095].into_iter().enumerate() {
        let payload = bytes_of(len, i as u32);
        for kind in kinds {
            let ver = (i * 131) as u32;
            let frame = read(&encode_frame(kind, ver, &payload)).unwrap();
            assert_eq!(frame.payload, payload);
            assert_eq!(frame.format_version, ver);
            assert_eq!(frame.kind, kind.as_u32());
        }
    }
}

#[test]
fn prop_any_byte_flip_is_caught() {
    for len in [1usize, 7, 64, 511] {
        let payload = bytes_of(len, 5);
        let file = write(&payload);
        for at in 0..file.len() {
            let mut raw = file.clone();
            raw[at] ^= 0x80;
            // Either an error, or the exact original payload. Never different bytes.
            if let Ok(frame) = read(&raw) {
                assert_eq!(frame.payload, payload);
            }
        }
    }
}

#[test]
fn every_truncation_is_refused() {
    let file = write(b"0123456789");
    for n in 0..file.len() {
        assert!(matches!(read(&file[..n]), Err(CoreError::Corrupt { .. })));
    }
}

#[test]
fn frame_layout_is_fixed() {
    let file = encode_frame(FileKind::Head, 3, b"ab");
    assert_eq!(file.len(), HEADER_LEN + 2 + FOOTER_LEN);
    assert_eq!(&file[..4], b"VVEC");
    assert_eq!(get_le(&file, 4, 4), 3);
    assert_eq!(get_le(&file, 8, 4), 4);
    assert_eq!(get_le(&file, 12, 8), 2);
    assert_eq!(&file[20..22], b"ab");
    // The checksum is the IEEE CRC-32 of the header and the payload.
    assert_eq!(get_le(&file, 22, 4) as u32, crc32fast::hash(&file[..22]));
}

#[test]
fn a_declared_length_beyond_the_file_is_corrupt() {
    let mut raw = write(b"0123456789");
    for byte in &mut raw[12..20] {
        *byte = 0xFF;
    }
    assert!(matches!(read(&raw), Err(CoreError::Corrupt { .. })));
    assert!(matches!(read(b""), Err(CoreError::Corrupt { .. })));
}

#[test]
fn little_endian_bytes_roundtrip() {
    let mut out: Vec<u8> = Vec::new();
    put_le(&mut out, 0x0102_0304, 4);
    assert_eq!(out, vec![4, 3, 2, 1]);
    assert_eq!(get_le(&out, 0, 4), 0x0102_0304);
}

#[test]
fn append_flush_reopen() {
    let mut log: Vec<u8> = Vec::new();
    append_record(&mut log, b"upsert 1 [1.0, 2.0]");
    append_record(&mut log, b"delete 1");
    let scan = scan_log(&log);
    assert_eq!(scan.payloads.len(), 2);
    assert_eq!(scan.payloads[1], b"delete 1");
    assert_eq!(scan.valid_end(2), log.len() as u64);
    assert_eq!(scan.valid_end(0), 0);
}

#[test]
fn torn_tail_is_truncated_on_open() {
    let mut log: Vec<u8> = Vec::new();
    for i in 0..5u8 {
        append_record(&mut log, &[i, i]);
    }
    let good = log.len();
    // Append garbage simulating a half-written record after a crash.
    log.extend_from_slice(&[0xFF, 0x00, 0x00, 0x00, 0xDE, 0xAD]);
    let scan = scan_log(&log);
    assert_eq!(scan.payloads.len(), 5); // the 5 good records survive; the torn tail is dropped
    let end = scan.valid_end(5) as usize;
    assert_eq!(end, good);
    // The truncation persists: reopening still sees exactly 5.
    log.truncate(end);
    assert_eq!(scan_log(&log).payloads.len(), 5);
}

#[test]
fn every_torn_append_keeps_the_records_before_it() {
    let mut log: Vec<u8> = Vec::new();
    append_record(&mut log, b"first");
    let first = log.len();
    assert_eq!(first, RECORD_HEADER_LEN + 5);
    append_record(&mut log, b"second");
    for cut in first..log.len() {
        let scan = scan_log(&log[..cut]);
        assert_eq!(scan.payloads, vec![b"first".to_vec()]);
        assert_eq!(scan.valid_end(1), first as u64);
    }
    // A record with a wrong checksum ends the log as well.
    let last = log.len() - 1;
    log[last] ^= 1;
    assert_eq!(scan_log(&log).payloads.len(), 1);
}

#[test]
fn io_errors_carry_their_path() {
    let source = || std::io::Error::new(std::io::ErrorKind::NotFound, "gone");
    match CoreError::io(PathBuf::from("x.seg"), source()) {
        CoreError::Io { path, source } => {
            assert_eq!(path, Some(PathBuf::from("x.seg")));
            assert_eq!(source.kind(), std::io::ErrorKind::NotFound);
        }
        other => panic!("{other:?}"),
    }
    assert!(matches!(CoreError::from(source()), CoreError::Io { path: None, .. }));
    assert_eq!(path_suffix(Some("x.seg")), " (x.seg)");
    assert_eq!(path_suffix(None), "");
}

#[test]
fn records_are_accepted_up_to_the_first_that_does_not_decode() {
    let mut log = Vec::new();
    let mut ends = vec![0u64];
    for payload in [&[1u8][..], &[2, 3], &[], &[4]] {
        append_record(&mut log, payload);
        ends.push(log.len() as u64);
    }
    let scan = scan_log(&log);
    let decode = |good: usize| {
        (0..4).map(|i| if i == good { None } else { Some(i) }).collect::<Vec<Option<usize>>>()
    };
    for good in 0..=4 {
        let (records, end) = scan.accept(decode(good));
        assert_eq!(records, (0..good).collect::<Vec<usize>>());
        assert_eq!(end, ends[good]);
    }
}

#[test]
fn checksums_are_crc_32() {
    // The check value of CRC-32 (IEEE), and a bit-by-bit division over whole frames.
    let mut log = Vec::new();
    append_record(&mut log, b"123456789");
    assert_eq!(get_le(&log, 4, 4), 0xCBF4_3926);
    let divided = |bytes: &[u8]| {
        let mut state = u32::MAX;
        for byte in bytes {
            state ^= *byte as u32;
            for _ in 0..8 {
                state = if state & 1 == 1 { (state >> 1) ^ 0xEDB8_8320 } else { state >> 1 };
            }
        }
        !state
    };
    for len in [0usize, 1, 7, 8, 15, 16, 17, 63, 64, 65, 127, 128, 200, 1000, 4099] {
        let file = write(&bytes_of(len, len as u32 + 3));
        let body = file.len() - 8;
        assert_eq!(get_le(&file, body, 4) as u32, divided(&file[..body]));
    }
}

#[test]
fn a_changed_record_ends_the_log() {
    let mut log = Vec::new();
    append_record(&mut log, &[1, 2, 3]);
    let first = log.len();
    append_record(&mut log, &[4, 5]);
    append_record(&mut log, &[6]);
    assert_eq!(scan_log(&log).payloads, vec![vec![1, 2, 3], vec![4, 5], vec![6]]);
    for at in first + 4..first + 10 {
        for bit in 0..8 {
            let mut changed = log.clone();
            changed[at] ^= 1 << bit;
            assert_eq!(scan_log(&changed).payloads, vec![vec![1, 2, 3]]);
        }
    }
}
