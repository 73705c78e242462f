use std::sync::Arc;

use vecvec::durable::{
    apply_op, begin_checkpoint, fits_config, plan_upsert, replay, restore_checkpoint, NewPoint,
};
use vecvec::payload::JsonValue;
use vecvec::version::VersionSelector;
use vecvec::{
    Collection, CollectionConfig, CoreError, GlobalId, Kernel, Metric, OrderedF32, WalOp,
};

/// The kernel over `f32` components.
#[derive(Clone, Copy)]
struct F32Kernel {
    metric: Metric,
    dim: usize,
}

fn dot_f32(a: &[f32], b: &[f32]) -> f32 {
    a.iter().zip(b).map(|(x, y)| x * y).sum()
}

fn sq_l2_f32(a: &[f32], b: &[f32]) -> f32 {
    a.iter().zip(b).map(|(x, y)| (x - y) * (x - y)).sum()
}

fn mean_of(vectors: &[Vec<f32>], dim: usize) -> Vec<f32> {
    let mut mean = vec![0.0f32; dim];
    for v in vectors {
        for (m, x) in mean.iter_mut().zip(v) {
            *m += x;
        }
    }
    let n = vectors.len().max(1) as f32;
    mean.iter().map(|m| m / n).collect()
}

impl Kernel for F32Kernel {
    type Elem = f32;

    fn for_metric(metric: Metric, dim: usize) -> F32Kernel {
        F32Kernel { metric, dim }
    }

    fn metric(&self) -> Metric {
        self.metric
    }

    fn dim(&self) -> usize {
        self.dim
    }

    fn score(&self, a: &[f32], b: &[f32]) -> OrderedF32 {
        let raw = match self.metric {
            Metric::Cosine | Metric::Dot => dot_f32(a, b),
            Metric::Euclidean => sq_l2_f32(a, b),
        };
        OrderedF32::new(raw.to_bits())
    }

    fn normalize(&self, v: Vec<f32>) -> Vec<f32> {
        let norm = dot_f32(&v, &v).sqrt();
        if norm > 0.0 {
            v.iter().map(|x| x * (1.0 / norm)).collect()
        } else {
            v
        }
    }

    fn fit_scale(&self, flat: &[f32]) -> u32 {
        let max_abs = flat.iter().fold(0.0f32, |m, x| m.max(x.abs()));
        let scale = if max_abs > 0.0 { max_abs / 127.0 } else { 1.0 };
        scale.to_bits()
    }

    fn encode_one(&self, scale: u32, x: f32) -> i8 {
        let inv = 1.0 / f32::from_bits(scale);
        (x * inv).round().clamp(-127.0, 127.0) as i8
    }

    fn blend(&self, positive: &Vec<Vec<f32>>, negative: &Vec<Vec<f32>>) -> Vec<f32> {
        let pos = mean_of(positive, self.dim);
        let neg = mean_of(negative, self.dim);
        pos.iter().zip(&neg).map(|(p, n)| p - n).collect()
    }

    fn level(&self, uniform: u64, m: usize) -> usize {
        let mut u = uniform as f64 * (1.0 / 9_007_199_254_740_992.0);
        if u <= 0.0 {
            u = f64::MIN_POSITIVE;
        }
        (-u.ln() * (1.0 / (m as f64).ln())).floor() as usize
    }
}

fn vecf(dim: usize, i: usize) -> Vec<f32> {
    (0..dim)
        .map(|j| ((i * 7 + j * 3) % 100) as f32 / 50.0 - 1.0)
        .collect()
}

fn config(metric: Metric) -> CollectionConfig {
    CollectionConfig::new("c".to_string(), 8, metric)
}

/// Logs and applies a batch of vectors, as a durable writer does.
fn upsert(
    col: &mut Collection<F32Kernel>,
    log: &mut Vec<WalOp<f32>>,
    vectors: Vec<Vec<f32>>,
) -> Vec<u64> {
    let points = vectors
        .into_iter()
        .map(|vector| NewPoint { vector, payload: None })
        .collect();
    let ops = plan_upsert(col, points).unwrap();
    let ids = ops
        .iter()
        .map(|op| match op {
            WalOp::Upsert { id, .. } => *id,
            WalOp::Delete { id } => *id,
        })
        .collect();
    replay(col, &ops);
    log.extend(ops);
    ids
}

fn delete(col: &mut Collection<F32Kernel>, log: &mut Vec<WalOp<f32>>, id: u64) {
    let op = WalOp::Delete { id };
    apply_op(col, &op);
    log.push(op);
}

#[test]
fn survives_crash_without_checkpoint() {
    let q = vecf(8, 3);
    let mut log = Vec::new();
    let first_id;
    {
        let mut dc = Collection::create(config(Metric::Dot));
        let ids = upsert(&mut dc, &mut log, (0..20).map(|i| vecf(8, i)).collect());
        first_id = ids[3];
        assert_eq!(dc.len(), 20);
        // crash: drop without checkpoint
    }
    let mut dc: Collection<F32Kernel> = Collection::create(config(Metric::Dot));
    replay(&mut dc, &log);
    assert_eq!(dc.len(), 20);
    // The point survived and is searchable after recovery (k == n returns all).
    let got = dc.search(&q, 20, None).unwrap();
    assert_eq!(got.len(), 20);
    assert!(got.iter().any(|s| s.id.get() == first_id));
}

#[test]
fn checkpoint_then_recover() {
    let mut log = Vec::new();
    let checkpoint;
    {
        let mut dc = Collection::create(config(Metric::Cosine));
        upsert(&mut dc, &mut log, (0..30).map(|i| vecf(8, i)).collect());
        checkpoint = begin_checkpoint(&mut dc, 0);
        log.clear();
        // more writes after the checkpoint
        upsert(&mut dc, &mut log, (30..40).map(|i| vecf(8, i)).collect());
        assert_eq!(dc.len(), 40);
    }
    assert_eq!(checkpoint.head.wal_generation, 1);
    let mut dc = restore_checkpoint(config(Metric::Cosine), checkpoint.head, checkpoint.segments);
    replay(&mut dc, &log);
    assert_eq!(dc.len(), 40); // 30 from the sealed segment + 10 replayed from WAL
}

/// Insert/checkpoint/insert/delete sequences must recover to exactly the acked live set
/// after a crash (drop without a final checkpoint).
#[test]
fn prop_recovery_preserves_acked() {
    for n1 in [1usize, 7, 39] {
        for do_ckpt in [false, true] {
            for n2 in [0usize, 1, 39] {
                for ndel in [0usize, 3, 19] {
                    let mut log = Vec::new();
                    let mut all_ids = Vec::new();
                    let mut saved = None;
                    let mut dc = Collection::create(config(Metric::Dot));
                    for i in 0..n1 {
                        all_ids.extend(upsert(&mut dc, &mut log, vec![vecf(8, i)]));
                    }
                    if do_ckpt {
                        saved = Some(begin_checkpoint(&mut dc, 0));
                        log.clear();
                    }
                    for i in 0..n2 {
                        all_ids.extend(upsert(&mut dc, &mut log, vec![vecf(8, n1 + i)]));
                    }
                    let ndel = ndel.min(all_ids.len());
                    for &id in &all_ids[..ndel] {
                        delete(&mut dc, &mut log, id);
                    }
                    // crash
                    drop(dc);
                    let cfg = config(Metric::Dot);
                    let mut dc = match saved {
                        Some(c) => restore_checkpoint(cfg, c.head, c.segments),
                        None => Collection::create(cfg),
                    };
                    replay(&mut dc, &log);
                    assert_eq!(dc.len(), all_ids.len() - ndel);
                }
            }
        }
    }
}

#[test]
fn checkpoints_keep_history_payloads_and_allocators() {
    let mut dc: Collection<F32Kernel> = Collection::create(config(Metric::Dot));
    let points = vec![NewPoint {
        vector: vecf(8, 1),
        payload: Some(Arc::new(JsonValue::Text("p".to_string()))),
    }];
    let ops = plan_upsert(&mut dc, points).unwrap();
    replay(&mut dc, &ops);
    let v0 = dc.commit("manual".to_string(), None, Some("rel".to_string())).unwrap();
    dc.insert(&vecf(8, 2)).unwrap();
    dc.delete(GlobalId::new(0));
    let saved = begin_checkpoint(&mut dc, 4);
    assert!(saved.segments.iter().all(|s| fits_config(s, &config(Metric::Dot))));
    assert!(saved.segments.iter().all(|s| !fits_config(s, &config(Metric::Cosine))));

    let back = restore_checkpoint(config(Metric::Dot), saved.head, saved.segments);
    assert_eq!(back.len(), 1);
    assert_eq!(back.next_global_id_value(), dc.next_global_id_value());
    assert_eq!(back.next_segment_id_value(), dc.next_segment_id_value());
    assert_eq!(back.head_version(), Some(v0));
    assert!(back
        .payload(GlobalId::new(0))
        .unwrap()
        .equals(&JsonValue::Text("p".to_string())));
    let tagged = VersionSelector::Tag("rel".to_string());
    assert_eq!(back.search_at(&tagged, &vecf(8, 1), 9, None).unwrap().len(), 1);
}

#[test]
fn a_bad_vector_refuses_the_whole_batch() {
    let mut dc: Collection<F32Kernel> = Collection::create(config(Metric::Dot));
    let points = vec![
        NewPoint { vector: vecf(8, 1), payload: None },
        NewPoint { vector: vecf(7, 1), payload: None },
    ];
    assert!(matches!(
        plan_upsert(&mut dc, points),
        Err(CoreError::DimensionMismatch { expected: 8, got: 7 })
    ));
    assert_eq!(dc.next_global_id_value(), 0);
    assert_eq!(dc.len(), 0);
}

#[test]
fn replay_skips_what_cannot_apply() {
    let mut dc: Collection<F32Kernel> = Collection::create(config(Metric::Dot));
    let ops = vec![
        WalOp::Upsert { id: 5, vector: vecf(8, 1), payload: None },
        WalOp::Upsert { id: 6, vector: vecf(3, 1), payload: None },
        WalOp::Delete { id: 99 },
    ];
    replay(&mut dc, &ops);
    assert_eq!(dc.len(), 1);
    assert_eq!(dc.next_global_id_value(), 6);
}
