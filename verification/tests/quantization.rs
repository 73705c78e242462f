use std::collections::HashSet;

use vecvec::quantization::{quantized_rescore_search, QuantizedVectorBlock, ScalarQuantizer};
use vecvec::{brute_force_topk, Kernel, Metric, OrderedF32, VectorStorage};

/// The kernel over `f32` components.
#[derive(Clone, Copy)]
struct F32Kernel {
    metric: Metric,
    dim: usize,
}

fn dot_f32(a: &[f32], b: &[f32]) -> f32 {
    a.iter().zip(b).map(|(x, y)| x * y).sum()
}

fn sq_l2_f32(a: &[f32], b: &[f32]) -> f32 {
    a.iter().zip(b).map(|(x, y)| (x - y) * (x - y)).sum()
}

fn mean_of(vectors: &[Vec<f32>], dim: usize) -> Vec<f32> {
    let mut mean = vec![0.0f32; dim];
    for v in vectors {
        for (m, x) in mean.iter_mut().zip(v) {
            *m += x;
        }
    }
    let n = vectors.len().max(1) as f32;
    mean.iter().map(|m| m / n).collect()
}

impl Kernel for F32Kernel {
    type Elem = f32;

    fn for_metric(metric: Metric, dim: usize) -> F32Kernel {
        F32Kernel { metric, dim }
    }

    fn metric(&self) -> Metric {
        self.metric
    }

    fn dim(&self) -> usize {
        self.dim
    }

    fn score(&self, a: &[f32], b: &[f32]) -> OrderedF32 {
        let raw = match self.metric {
            Metric::Cosine | Metric::Dot => dot_f32(a, b),
            Metric::Euclidean => sq_l2_f32(a, b),
        };
        OrderedF32::new(raw.to_bits())
    }

    fn normalize(&self, v: Vec<f32>) -> Vec<f32> {
        let norm = dot_f32(&v, &v).sqrt();
        if norm > 0.0 {
            v.iter().map(|x| x * (1.0 / norm)).collect()
        } else {
            v
        }
    }

    fn fit_scale(&self, flat: &[f32]) -> u32 {
        let max_abs = flat.iter().fold(0.0f32, |m, x| m.max(x.abs()));
        let scale = if max_abs > 0.0 { max_abs / 127.0 } else { 1.0 };
        scale.to_bits()
    }

    fn encode_one(&self, scale: u32, x: f32) -> i8 {
        let inv = 1.0 / f32::from_bits(scale);
        (x * inv).round().clamp(-127.0, 127.0) as i8
    }

    fn blend(&self, positive: &Vec<Vec<f32>>, negative: &Vec<Vec<f32>>) -> Vec<f32> {
        let pos = mean_of(positive, self.dim);
        let neg = mean_of(negative, self.dim);
        pos.iter().zip(&neg).map(|(p, n)| p - n).collect()
    }

    fn level(&self, uniform: u64, m: usize) -> usize {
        let mut u = uniform as f64 * (1.0 / 9_007_199_254_740_992.0);
        if u <= 0.0 {
            u = f64::MIN_POSITIVE;
        }
        (-u.ln() * (1.0 / (m as f64).ln())).floor() as usize
    }
}

fn vec_of(dim: usize, seed: u32) -> Vec<f32> {
    // A few independent hash streams give less structured (more realistic) vectors.
    (0..dim)
        .map(|i| {
            let x = (i as u32)
                .wrapping_mul(2_654_435_761)
                .wrapping_add(seed.wrapping_mul(40_503))
                .wrapping_add((i as u32).wrapping_mul(seed));
            ((x % 10_000) as f32 / 5_000.0) - 1.0
        })
        .collect()
}

fn store_of(dim: usize, n: usize, metric: Metric) -> VectorStorage<F32Kernel> {
    let mut storage = VectorStorage::with_capacity(F32Kernel::for_metric(metric, dim), n);
    for i in 0..n {
        storage.push(&vec_of(dim, i as u32 + 1));
    }
    storage
}

#[test]
fn rescore_recall_and_memory() {
    for metric in [Metric::Cosine, Metric::Dot, Metric::Euclidean] {
        let dim = 48;
        let n = 1500;
        let storage = store_of(dim, n, metric);
        let kernel = F32Kernel::for_metric(metric, dim);
        let block = QuantizedVectorBlock::build(&storage);

        // ~4x memory reduction vs f32.
        assert_eq!(block.byte_len(), n * dim);
        assert_eq!(block.byte_len() * 4, storage.as_flat().len() * 4);

        let mut hits = 0;
        let trials = 20;
        for q in 0..trials {
            let query = vec_of(dim, 900_000 + q);
            let got: HashSet<u32> =
                quantized_rescore_search(&block, &storage, &kernel, &query, 10, 4)
                    .into_iter()
                    .map(|sp| sp.id.get())
                    .collect();
            let truth = brute_force_topk(&storage, &kernel, &query, 10, None, None);
            hits += truth.iter().filter(|sp| got.contains(&sp.id.get())).count();
        }
        let recall = hits as f32 / (10 * trials) as f32;
        assert!(
            recall >= 0.90,
            "metric={}: quantized recall@10 {recall} < 0.90",
            metric.as_str()
        );
    }
}

#[test]
fn rescore_beats_no_rescore() {
    // With oversample=1 (no extra fetch) recall is lower than with oversample=8.
    let dim = 48;
    let n = 1500;
    let metric = Metric::Cosine;
    let storage = store_of(dim, n, metric);
    let kernel = F32Kernel::for_metric(metric, dim);
    let block = QuantizedVectorBlock::build(&storage);

    let recall_for = |oversample: usize| {
        let mut hits = 0;
        for q in 0..20 {
            let query = vec_of(dim, 700_000 + q);
            let got: HashSet<u32> =
                quantized_rescore_search(&block, &storage, &kernel, &query, 10, oversample)
                    .into_iter()
                    .map(|sp| sp.id.get())
                    .collect();
            let truth = brute_force_topk(&storage, &kernel, &query, 10, None, None);
            hits += truth.iter().filter(|sp| got.contains(&sp.id.get())).count();
        }
        hits as f32 / 200.0
    };
    assert!(recall_for(8) >= recall_for(1));
}

#[test]
fn codes_follow_the_fitted_scale() {
    let kernel = F32Kernel::for_metric(Metric::Euclidean, 2);
    let mut storage = VectorStorage::new(kernel);
    storage.push(&[127.0, -2.0]);
    storage.push(&[-63.4, 0.0]);
    let quantizer = ScalarQuantizer::fit(&storage);
    assert_eq!(f32::from_bits(quantizer.scale()), 1.0);
    assert_eq!(quantizer.encode(&[3.6, -500.0]), vec![4, -127]);

    let block = QuantizedVectorBlock::build(&storage);
    assert_eq!(block.len(), 2);
    assert_eq!(block.get(1), &[-63, 0]);
    // (127 + 63)^2 + (-2)^2
    assert_eq!(f32::from_bits(block.badness_between(0, 1).into_inner()), 36104.0);
    assert_eq!(f32::from_bits(block.badness(&[127, 0], 0).into_inner()), 4.0);
}

#[test]
fn empty_blocks_find_nothing() {
    let kernel = F32Kernel::for_metric(Metric::Dot, 2);
    let storage = VectorStorage::new(kernel);
    let block = QuantizedVectorBlock::build(&storage);
    assert!(block.is_empty());
    assert!(quantized_rescore_search(&block, &storage, &kernel, &[1.0, 2.0], 5, 4).is_empty());
}

#[test]
fn a_full_over_fetch_is_exact() {
    for metric in [Metric::Dot, Metric::Euclidean] {
        let store = store_of(16, 60, metric);
        let kernel = F32Kernel::for_metric(metric, 16);
        let block = QuantizedVectorBlock::build(&store);
        for seed in 0..8 {
            let query = vec_of(16, 900 + seed);
            let got = quantized_rescore_search(&block, &store, &kernel, &query, 12, 5);
            assert_eq!(got, brute_force_topk(&store, &kernel, &query, 12, None, None));
        }
    }
}
