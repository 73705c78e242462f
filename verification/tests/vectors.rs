use vecvec::{Kernel, Metric, OrderedF32, PointId, VectorStorage};

/// The kernel over `f32` components.
#[derive(Clone, Copy)]
struct F32Kernel {
    metric: Metric,
    dim: usize,
}

fn dot_f32(a: &[f32], b: &[f32]) -> f32 {
    a.iter().zip(b).map(|(x, y)| x * y).sum()
}

fn sq_l2_f32(a: &[f32], b: &[f32]) -> f32 {
    a.iter().zip(b).map(|(x, y)| (x - y) * (x - y)).sum()
}

fn mean_of(vectors: &[Vec<f32>], dim: usize) -> Vec<f32> {
    let mut mean = vec![0.0f32; dim];
    for v in vectors {
        for (m, x) in mean.iter_mut().zip(v) {
            *m += x;
        }
    }
    let n = vectors.len().max(1) as f32;
    mean.iter().map(|m| m / n).collect()
}

impl Kernel for F32Kernel {
    type Elem = f32;

    fn for_metric(metric: Metric, dim: usize) -> F32Kernel {
        F32Kernel { metric, dim }
    }

    fn metric(&self) -> Metric {
        self.metric
    }

    fn dim(&self) -> usize {
        self.dim
    }

    fn score(&self, a: &[f32], b: &[f32]) -> OrderedF32 {
        let raw = match self.metric {
            Metric::Cosine | Metric::Dot => dot_f32(a, b),
            Metric::Euclidean => sq_l2_f32(a, b),
        };
        OrderedF32::new(raw.to_bits())
    }

    fn normalize(&self, v: Vec<f32>) -> Vec<f32> {
        let norm = dot_f32(&v, &v).sqrt();
        if norm > 0.0 {
            v.iter().map(|x| x * (1.0 / norm)).collect()
        } else {
            v
        }
    }

    fn fit_scale(&self, flat: &[f32]) -> u32 {
        let max_abs = flat.iter().fold(0.0f32, |m, x| m.max(x.abs()));
        let scale = if max_abs > 0.0 { max_abs / 127.0 } else { 1.0 };
        scale.to_bits()
    }

    fn encode_one(&self, scale: u32, x: f32) -> i8 {
        let inv = 1.0 / f32::from_bits(scale);
        (x * inv).round().clamp(-127.0, 127.0) as i8
    }

    fn blend(&self, positive: &Vec<Vec<f32>>, negative: &Vec<Vec<f32>>) -> Vec<f32> {
        let pos = mean_of(positive, self.dim);
        let neg = mean_of(negative, self.dim);
        pos.iter().zip(&neg).map(|(p, n)| p - n).collect()
    }

    fn level(&self, uniform: u64, m: usize) -> usize {
        let mut u = uniform as f64 * (1.0 / 9_007_199_254_740_992.0);
        if u <= 0.0 {
            u = f64::MIN_POSITIVE;
        }
        (-u.ln() * (1.0 / (m as f64).ln())).floor() as usize
    }
}

fn store_of(dim: usize, metric: Metric) -> VectorStorage<F32Kernel> {
    VectorStorage::new(F32Kernel::for_metric(metric, dim))
}

#[test]
fn push_get_roundtrip() {
    let mut s = store_of(3, Metric::Dot);
    let a = s.push(&[1.0, 2.0, 3.0]);
    let b = s.push(&[4.0, 5.0, 6.0]);
    assert_eq!(a, PointId::new(0));
    assert_eq!(b, PointId::new(1));
    assert_eq!(s.len(), 2);
    assert_eq!(s.get(a), &[1.0, 2.0, 3.0]);
    assert_eq!(s.get(b), &[4.0, 5.0, 6.0]);
}

#[test]
fn cosine_normalizes_on_ingest() {
    let mut s = store_of(2, Metric::Cosine);
    let id = s.push(&[3.0, 4.0]); // norm 5
    let stored = s.get(id);
    assert!((stored[0] - 0.6).abs() < 1e-6);
    assert!((stored[1] - 0.8).abs() < 1e-6);
    assert!((dot_f32(stored, stored).sqrt() - 1.0).abs() < 1e-6);
}

#[test]
fn dot_does_not_normalize() {
    let mut s = store_of(2, Metric::Dot);
    let id = s.push(&[3.0, 4.0]);
    assert_eq!(s.get(id), &[3.0, 4.0]);
}

#[test]
fn iter_yields_rows_in_order() {
    let mut s = store_of(2, Metric::Euclidean);
    s.push(&[1.0, 1.0]);
    s.push(&[2.0, 2.0]);
    let rows: Vec<_> = s.iter();
    assert_eq!(rows.len(), 2);
    assert_eq!(rows[0].0, PointId::new(0));
    assert_eq!(rows[1].1, &[2.0, 2.0]);
}

#[test]
fn flat_buffers_restore_whole_rows_only() {
    let kernel = F32Kernel::for_metric(Metric::Dot, 2);
    let s = VectorStorage::from_flat(kernel, vec![1.0, 2.0, 3.0, 4.0]).unwrap();
    assert_eq!(s.len(), 2);
    assert_eq!(s.get(PointId::new(1)), &[3.0, 4.0]);
    assert_eq!(s.as_flat(), &[1.0, 2.0, 3.0, 4.0]);
    assert!(VectorStorage::from_flat(kernel, vec![1.0, 2.0, 3.0]).is_none());
}
