use std::collections::HashSet;
use std::path::PathBuf;
use std::sync::Arc;

use vecvec::index::hnsw::config::default_quantization;
use vecvec::persist::frame::{encode_frame, parse_framed, FileKind};
use vecvec::segment::codec::{
    check_format_version, decode_segment, encode_segment, metric_from_u8, metric_to_u8,
    SEGMENT_FORMAT_VERSION,
};
use vecvec::segment::IdMap;
use vecvec::version::DeletionVector;
use vecvec::{
    brute_force_topk, AppendableSegment, CoreError, GlobalId, HnswConfig, Index, Kernel, LocalId,
    Metric, OrderedF32, PointId, SealedSegment, SegmentId, SegmentSet, VectorStorage,
};

/// The kernel over `f32` components.
#[derive(Clone, Copy)]
struct F32Kernel {
    metric: Metric,
    dim: usize,
}

fn dot_f32(a: &[f32], b: &[f32]) -> f32 {
    a.iter().zip(b).map(|(x, y)| x * y).sum()
}

fn sq_l2_f32(a: &[f32], b: &[f32]) -> f32 {
    a.iter().zip(b).map(|(x, y)| (x - y) * (x - y)).sum()
}

fn mean_of(vectors: &[Vec<f32>], dim: usize) -> Vec<f32> {
    let mut mean = vec![0.0f32; dim];
    for v in vectors {
        for (m, x) in mean.iter_mut().zip(v) {
            *m += x;
        }
    }
    let n = vectors.len().max(1) as f32;
    mean.iter().map(|m| m / n).collect()
}

impl Kernel for F32Kernel {
    type Elem = f32;

    fn for_metric(metric: Metric, dim: usize) -> F32Kernel {
        F32Kernel { metric, dim }
    }

    fn metric(&self) -> Metric {
        self.metric
    }

    fn dim(&self) -> usize {
        self.dim
    }

    fn score(&self, a: &[f32], b: &[f32]) -> OrderedF32 {
        let raw = match self.metric {
            Metric::Cosine | Metric::Dot => dot_f32(a, b),
            Metric::Euclidean => sq_l2_f32(a, b),
        };
        OrderedF32::new(raw.to_bits())
    }

    fn normalize(&self, v: Vec<f32>) -> Vec<f32> {
        let norm = dot_f32(&v, &v).sqrt();
        if norm > 0.0 {
            v.iter().map(|x| x * (1.0 / norm)).collect()
        } else {
            v
        }
    }

    fn fit_scale(&self, flat: &[f32]) -> u32 {
        let max_abs = flat.iter().fold(0.0f32, |m, x| m.max(x.abs()));
        let scale = if max_abs > 0.0 { max_abs / 127.0 } else { 1.0 };
        scale.to_bits()
    }

    fn encode_one(&self, scale: u32, x: f32) -> i8 {
        let inv = 1.0 / f32::from_bits(scale);
        (x * inv).round().clamp(-127.0, 127.0) as i8
    }

    fn blend(&self, positive: &Vec<Vec<f32>>, negative: &Vec<Vec<f32>>) -> Vec<f32> {
        let pos = mean_of(positive, self.dim);
        let neg = mean_of(negative, self.dim);
        pos.iter().zip(&neg).map(|(p, n)| p - n).collect()
    }

    fn level(&self, uniform: u64, m: usize) -> usize {
        let mut u = uniform as f64 * (1.0 / 9_007_199_254_740_992.0);
        if u <= 0.0 {
            u = f64::MIN_POSITIVE;
        }
        (-u.ln() * (1.0 / (m as f64).ln())).floor() as usize
    }
}

fn vec_of(dim: usize, seed: u32) -> Vec<f32> {
    // A few independent hash streams give less structured (more realistic) vectors.
    (0..dim)
        .map(|i| {
            let x = (i as u32)
                .wrapping_mul(2_654_435_761)
                .wrapping_add(seed.wrapping_mul(40_503))
                .wrapping_add((i as u32).wrapping_mul(seed));
            ((x % 10_000) as f32 / 5_000.0) - 1.0
        })
        .collect()
}

fn segment_of(dim: usize, n: usize, metric: Metric, id: SegmentId) -> SealedSegment<F32Kernel> {
    let mut seg = AppendableSegment::new(F32Kernel::for_metric(metric, dim));
    for i in 0..n {
        seg.append(GlobalId::new(1000 + i as u64), &vec_of(dim, i as u32 + 1));
    }
    seg.seal(id, HnswConfig::default())
}

fn build_sealed(quantization: bool) -> SealedSegment<F32Kernel> {
    let mut seg = AppendableSegment::new(F32Kernel::for_metric(Metric::Cosine, 8));
    for i in 0..16u64 {
        let v: Vec<f32> = (0..8)
            .map(|j| ((i * 7 + j * 3) % 13) as f32 + 0.5)
            .collect();
        seg.append(GlobalId::new(i), &v);
    }
    let cfg = HnswConfig {
        quantization,
        ..HnswConfig::default()
    };
    seg.seal(SegmentId::new(1), cfg)
}

fn reopened(seg: &SealedSegment<F32Kernel>) -> SealedSegment<F32Kernel> {
    decode_segment(seg.id(), encode_segment(seg)).unwrap()
}

#[test]
fn push_assigns_dense_locals_and_is_bijective() {
    let mut m = IdMap::new();
    let l0 = m.push(GlobalId::new(100));
    let l1 = m.push(GlobalId::new(250));
    assert_eq!(l0, LocalId::new(0));
    assert_eq!(l1, LocalId::new(1));
    assert_eq!(m.len(), 2);
    assert_eq!(m.global_at(l1), GlobalId::new(250));
    assert_eq!(m.to_global(LocalId::new(0)), Some(GlobalId::new(100)));
    assert_eq!(m.to_local(GlobalId::new(250)), Some(l1));
    assert_eq!(m.to_local(GlobalId::new(999)), None);
    assert_eq!(m.to_global(LocalId::new(5)), None);
}

#[test]
fn append_and_search() {
    let mut seg = AppendableSegment::new(F32Kernel::for_metric(Metric::Dot, 3));
    let g0 = GlobalId::new(10);
    let g1 = GlobalId::new(11);
    seg.append(g0, &[1.0, 0.0, 0.0]);
    seg.append(g1, &[0.0, 1.0, 0.0]);
    assert_eq!(seg.len(), 2);
    assert_eq!(seg.global_id_range(), Some((10, 11)));

    let empty = DeletionVector::new();
    let res = seg.search(&[1.0, 0.0, 0.0], 2, &empty, None);
    assert_eq!(res[0].0, g0);

    // A deletion vector excludes the point from results.
    let mut dv = DeletionVector::new();
    dv.insert(g0);
    let res = seg.search(&[1.0, 0.0, 0.0], 2, &dv, None);
    assert!(res.iter().all(|(g, _)| *g != g0));
}

/// The `quantization` flag must survive encode -> decode.
#[test]
fn quantization_flag_survives_round_trip() {
    for q in [true, false] {
        let seg = build_sealed(q);
        assert_eq!(seg.index().config().quantization, q);
        let decoded = reopened(&seg);
        assert_eq!(
            decoded.index().config().quantization,
            q,
            "quantization={q} must survive the segment codec round-trip",
        );
    }
}

/// A record without the flag must decode as quantized.
#[test]
fn legacy_payload_without_quantization_defaults_true() {
    assert!(default_quantization());
    let seg = build_sealed(true);
    let decoded = reopened(&seg);
    assert!(decoded.index().config().quantization);
}

/// An index carrying internal tombstones must decode with exactly the same
/// tombstoned/live ids and live count.
#[test]
fn codec_roundtrip_preserves_internal_tombstones() {
    let mut seg = build_sealed(true);
    let live_before = seg.index().live_len();

    // Tombstone a couple of local ids on the index before encoding.
    assert!(seg.delete_global(GlobalId::new(2)));
    assert!(seg.delete_global(GlobalId::new(7)));
    assert_eq!(seg.index().live_len(), live_before - 2);

    let decoded = reopened(&seg);

    // The decoded index re-applies exactly those tombstones (and no others).
    assert!(decoded.index().is_deleted(PointId::new(2)));
    assert!(decoded.index().is_deleted(PointId::new(7)));
    assert!(!decoded.index().is_deleted(PointId::new(0)));
    assert!(!decoded.index().is_deleted(PointId::new(5)));
    assert_eq!(decoded.index().live_len(), live_before - 2);
}

#[test]
fn write_then_mmap_load_roundtrips() {
    let dim = 24;
    let n = 500;
    let seg = segment_of(dim, n, Metric::Cosine, SegmentId::new(3));
    let loaded = reopened(&seg);
    assert_eq!(loaded.len(), n);
    assert_eq!(loaded.id(), SegmentId::new(3));

    // The reopened segment returns the same results as the original.
    let query = vec_of(dim, 77_777);
    let dv = DeletionVector::new();
    let original = seg.search(&query, 10, &dv, None);
    let again = loaded.search(&query, 10, &dv, None);
    assert_eq!(original, again);
}

#[test]
fn sealed_hnsw_recall_vs_flat() {
    let dim = 24;
    let n = 1500;
    let metric = Metric::Dot;
    let seg = segment_of(dim, n, metric, SegmentId::new(0));

    // Oracle over the same vectors (global ids start at 1000).
    let kernel = F32Kernel::for_metric(metric, dim);
    let mut storage = VectorStorage::new(kernel);
    for i in 0..n {
        storage.push(&vec_of(dim, i as u32 + 1));
    }

    let mut hits = 0usize;
    let trials = 20usize;
    for q in 0..trials {
        let query = vec_of(dim, 500_000 + q as u32);
        let dv = DeletionVector::new();
        let got: HashSet<u64> = seg
            .search(&query, 10, &dv, None)
            .into_iter()
            .map(|(g, _)| g.get())
            .collect();
        let truth = brute_force_topk(&storage, &kernel, &query, 10, None, None);
        for sp in truth {
            if got.contains(&(1000 + sp.id.get() as u64)) {
                hits += 1;
            }
        }
    }
    let recall = hits as f32 / (10 * trials) as f32;
    assert!(recall >= 0.95, "sealed HNSW recall@10 {recall} < 0.95");
}

#[test]
fn corrupt_file_is_rejected() {
    let seg = segment_of(8, 50, Metric::Dot, SegmentId::new(2));
    let flat: Vec<u8> =
        encode_segment(&seg).vectors.iter().flat_map(|x| x.to_le_bytes()).collect();
    let mut raw = encode_frame(FileKind::Segment, SEGMENT_FORMAT_VERSION, &flat);
    let mid = raw.len() / 2;
    raw[mid] ^= 0xFF;
    assert!(parse_framed(&raw, PathBuf::from("2.seg")).is_err());
}

#[test]
fn load_rejects_future_format_version() {
    // A segment written in a newer format must be rejected with a typed
    // UnsupportedVersion error, not silently mis-decoded.
    let seg = segment_of(8, 50, Metric::Dot, SegmentId::new(7));
    let payload: Vec<u8> =
        encode_segment(&seg).vectors.iter().flat_map(|x| x.to_le_bytes()).collect();
    // A structurally-valid frame, stamped one past the supported maximum.
    let raw = encode_frame(FileKind::Segment, SEGMENT_FORMAT_VERSION + 1, &payload);
    let path = PathBuf::from("7.seg");
    let frame = parse_framed(&raw, path.clone()).unwrap();

    match check_format_version(frame.format_version, path.clone()) {
        Err(CoreError::UnsupportedVersion {
            found, supported, ..
        }) => {
            assert_eq!(found, SEGMENT_FORMAT_VERSION + 1);
            assert_eq!(supported, SEGMENT_FORMAT_VERSION);
        }
        Err(other) => panic!("expected UnsupportedVersion, got {other:?}"),
        Ok(_) => panic!("expected UnsupportedVersion, but load succeeded"),
    }
    assert!(check_format_version(SEGMENT_FORMAT_VERSION, path).is_ok());
}

#[test]
fn incoherent_records_do_not_decode() {
    let seg = build_sealed(true);
    type Reopened = Result<SealedSegment<F32Kernel>, CoreError>;

    let mut data = encode_segment(&seg);
    data.metric = 9;
    let r: Reopened = decode_segment(SegmentId::new(1), data);
    assert!(matches!(r, Err(CoreError::Serialization { .. })));

    let mut data = encode_segment(&seg);
    data.vectors.pop();
    let r: Reopened = decode_segment(SegmentId::new(1), data);
    assert!(matches!(r, Err(CoreError::Serialization { .. })));

    let mut data = encode_segment(&seg);
    data.l0_links[0] = 1_000_000;
    let r: Reopened = decode_segment(SegmentId::new(1), data);
    assert!(matches!(r, Err(CoreError::Serialization { .. })));
}

#[test]
fn metric_tags_are_stable() {
    for (metric, tag) in [(Metric::Cosine, 0), (Metric::Dot, 1), (Metric::Euclidean, 2)] {
        assert_eq!(metric_to_u8(metric), tag);
        assert_eq!(metric_from_u8(tag).unwrap(), metric);
    }
    assert!(matches!(metric_from_u8(3), Err(CoreError::Serialization { .. })));
}

#[test]
fn sealed_search_falls_back_to_an_exact_scan() {
    // All but three rows are deleted: the search still finds all three.
    let seg = segment_of(16, 600, Metric::Euclidean, SegmentId::new(4));
    let mut dv = DeletionVector::new();
    for i in 0..600u64 {
        if ![17, 300, 599].contains(&i) {
            dv.insert(GlobalId::new(1000 + i));
        }
    }
    let found = seg.search(&vec_of(16, 3), 10, &dv, None);
    let mut ids: Vec<u64> = found.iter().map(|(g, _)| g.get()).collect();
    ids.sort();
    assert_eq!(ids, vec![1017, 1300, 1599]);
}

#[test]
fn sealed_segments_know_their_points() {
    let mut seg = segment_of(8, 40, Metric::Dot, SegmentId::new(5));
    assert_eq!((seg.len(), seg.live_len(), seg.is_empty()), (40, 40, false));
    assert_eq!(seg.metric(), Metric::Dot);
    assert_eq!(seg.global_id_range(), Some((1000, 1039)));
    assert_eq!(seg.vector_of(GlobalId::new(1003)).unwrap(), vec_of(8, 4).as_slice());
    assert!(seg.vector_of(GlobalId::new(3)).is_none());
    assert!(seg.delete_global(GlobalId::new(1003)));
    assert!(!seg.delete_global(GlobalId::new(1003)));
    assert!(!seg.delete_global(GlobalId::new(3)));
    assert!(seg.contains(GlobalId::new(1003)));
    assert!(!seg.contains_live(GlobalId::new(1003)));
    assert!(seg.contains_live(GlobalId::new(1004)));
    assert_eq!(seg.live_len(), 39);
    assert_eq!(seg.iter_points().len(), 40);
}

#[test]
fn segment_sets_grow_by_copy() {
    let a = Arc::new(segment_of(8, 3, Metric::Dot, SegmentId::new(0)));
    let b = Arc::new(segment_of(8, 4, Metric::Dot, SegmentId::new(1)));
    let one = SegmentSet::from_sealed(vec![a]);
    let two = one.with_appended(b);
    assert_eq!((one.len(), two.len()), (1, 2));
    assert_eq!(two.total_rows(), 7);
    assert_eq!(two.total_live(), 7);
    assert!(SegmentSet::<F32Kernel>::empty().is_empty());
}

#[test]
fn ranges_run_from_the_least_id_to_the_greatest() {
    let mut seg = AppendableSegment::new(F32Kernel::for_metric(Metric::Dot, 1));
    assert_eq!(seg.global_id_range(), None);
    for id in [5u64, 9, 7] {
        seg.append(GlobalId::new(id), &[1.0]);
    }
    assert_eq!(seg.global_id_range(), Some((5, 9)));
    let sealed = seg.seal(SegmentId::new(0), HnswConfig::default());
    assert_eq!(sealed.global_id_range(), Some((5, 9)));
}

#[test]
fn pushed_ids_keep_their_rows() {
    let mut map = IdMap::new();
    for (row, id) in [30u64, 10, 20].into_iter().enumerate() {
        assert_eq!(map.push(GlobalId::new(id)), LocalId::new(row as u32));
    }
    for (row, id) in [30u64, 10, 20].into_iter().enumerate() {
        assert_eq!(map.to_local(GlobalId::new(id)), Some(LocalId::new(row as u32)));
    }
}
