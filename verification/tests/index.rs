use std::sync::Arc;

use vecvec::index::deleted::should_rebuild;
use vecvec::index::hnsw::heuristic::{candidates_to, select_neighbors, RowPairs};
use vecvec::index::hnsw::visited::{VisitedList, VisitedPool};
use vecvec::index::{AllowAll, BitmapFilter, CardinalityEstimate};
use vecvec::{
    brute_force_topk, FilterContext, FlatIndex, Index, Kernel, Metric, OrderedF32, PointId,
    SearchParams, SoftDeleteSet, VectorStorage,
};

/// The kernel over `f32` components.
#[derive(Clone, Copy)]
struct F32Kernel {
    metric: Metric,
    dim: usize,
}

fn dot_f32(a: &[f32], b: &[f32]) -> f32 {
    a.iter().zip(b).map(|(x, y)| x * y).sum()
}

fn sq_l2_f32(a: &[f32], b: &[f32]) -> f32 {
    a.iter().zip(b).map(|(x, y)| (x - y) * (x - y)).sum()
}

fn mean_of(vectors: &[Vec<f32>], dim: usize) -> Vec<f32> {
    let mut mean = vec![0.0f32; dim];
    for v in vectors {
        for (m, x) in mean.iter_mut().zip(v) {
            *m += x;
        }
    }
    let n = vectors.len().max(1) as f32;
    mean.iter().map(|m| m / n).collect()
}

impl Kernel for F32Kernel {
    type Elem = f32;

    fn for_metric(metric: Metric, dim: usize) -> F32Kernel {
        F32Kernel { metric, dim }
    }

    fn metric(&self) -> Metric {
        self.metric
    }

    fn dim(&self) -> usize {
        self.dim
    }

    fn score(&self, a: &[f32], b: &[f32]) -> OrderedF32 {
        let raw = match self.metric {
            Metric::Cosine | Metric::Dot => dot_f32(a, b),
            Metric::Euclidean => sq_l2_f32(a, b),
        };
        OrderedF32::new(raw.to_bits())
    }

    fn normalize(&self, v: Vec<f32>) -> Vec<f32> {
        let norm = dot_f32(&v, &v).sqrt();
        if norm > 0.0 {
            v.iter().map(|x| x * (1.0 / norm)).collect()
        } else {
            v
        }
    }

    fn fit_scale(&self, flat: &[f32]) -> u32 {
        let max_abs = flat.iter().fold(0.0f32, |m, x| m.max(x.abs()));
        let scale = if max_abs > 0.0 { max_abs / 127.0 } else { 1.0 };
        scale.to_bits()
    }

    fn encode_one(&self, scale: u32, x: f32) -> i8 {
        let inv = 1.0 / f32::from_bits(scale);
        (x * inv).round().clamp(-127.0, 127.0) as i8
    }

    fn blend(&self, positive: &Vec<Vec<f32>>, negative: &Vec<Vec<f32>>) -> Vec<f32> {
        let pos = mean_of(positive, self.dim);
        let neg = mean_of(negative, self.dim);
        pos.iter().zip(&neg).map(|(p, n)| p - n).collect()
    }

    fn level(&self, uniform: u64, m: usize) -> usize {
        let mut u = uniform as f64 * (1.0 / 9_007_199_254_740_992.0);
        if u <= 0.0 {
            u = f64::MIN_POSITIVE;
        }
        (-u.ln() * (1.0 / (m as f64).ln())).floor() as usize
    }
}

fn vec_of(dim: usize, seed: u32) -> Vec<f32> {
    (0..dim)
        .map(|i| {
            let x = (i as u32).wrapping_mul(2654435761).wrapping_add(seed);
            ((x % 2000) as f32 / 1000.0) - 1.0
        })
        .collect()
}

fn storage_of(dim: usize, metric: Metric, n: usize) -> Arc<VectorStorage<F32Kernel>> {
    let mut s = VectorStorage::with_capacity(F32Kernel::for_metric(metric, dim), n);
    for i in 0..n {
        s.push(&vec_of(dim, i as u32 + 1));
    }
    Arc::new(s)
}

fn deleted_ratio(deleted: usize, total: usize) -> f32 {
    if total == 0 {
        0.0
    } else {
        deleted as f32 / total as f32
    }
}

#[test]
fn allow_all_matches_everything() {
    let f = AllowAll { total: 10 };
    assert!(f.matches(PointId::new(0)));
    assert!(f.matches(PointId::new(999)));
    assert_eq!(f.estimate_cardinality(), CardinalityEstimate::exact(10));
}

#[test]
fn bitmap_filter_admits_exact_subset() {
    let f = BitmapFilter::from_ids(&[1, 4, 9].map(PointId::new));
    assert!(f.matches(PointId::new(4)));
    assert!(!f.matches(PointId::new(5)));
    assert_eq!(f.estimate_cardinality(), CardinalityEstimate::exact(3));
}

#[test]
fn visit_marks_once_per_generation() {
    let mut v = VisitedList::new(8);
    assert!(v.visit(3));
    assert!(!v.visit(3));
    assert!(v.visit(4));
    v.clear();
    assert!(v.visit(3)); // visible again after clear
}

#[test]
fn pool_reuses_lists() {
    let pool = VisitedPool::new(16);
    let mut a = pool.get();
    assert!(a.visit(1));
    pool.put(a);
    let mut b = pool.get();
    assert!(b.visit(1)); // cleared on checkout
}

#[test]
fn visited_lists_grow_and_outlast_their_generations() {
    let mut v = VisitedList::new(1);
    v.ensure_capacity(100);
    assert!(v.visit(99));
    for _ in 0..70_000 {
        v.clear();
    }
    assert!(v.visit(99));
    assert!(!v.visit(99));
}

/// Across metrics, dims and k, with deletions, the flat index returns exactly the
/// oracle's top-k.
#[test]
fn matches_brute_force_oracle() {
    for metric in [Metric::Cosine, Metric::Dot, Metric::Euclidean] {
        for &dim in &[3usize, 8, 128] {
            let storage = storage_of(dim, metric, 200);
            let mut flat = FlatIndex::new(storage.clone());

            // Tombstone a handful of ids (including some likely-near ones).
            for id in [3u32, 7, 50, 120, 199] {
                assert!(flat.delete(PointId::new(id)));
            }

            let query = vec_of(dim, 9999);
            for &k in &[1usize, 5, 10, 250] {
                let got = flat.search(&query, k, SearchParams::default(), None);
                let want = brute_force_topk(
                    &storage,
                    flat.kernel(),
                    &query,
                    k,
                    Some(flat.deleted()),
                    None,
                );
                assert_eq!(got, want, "metric={} dim={dim} k={k}", metric.as_str());
                // No tombstoned id ever appears.
                assert!(got.iter().all(|sp| !flat.is_deleted(sp.id)));
            }
        }
    }
}

#[test]
fn filtered_search_matches_oracle() {
    let dim = 16;
    let storage = storage_of(dim, Metric::Dot, 100);
    let mut flat = FlatIndex::new(storage.clone());
    flat.delete(PointId::new(2));

    // Admit only even ids.
    let even: Vec<PointId> = (0..100u32).filter(|i| i % 2 == 0).map(PointId::new).collect();
    let filter = BitmapFilter::from_ids(&even);
    let query = vec_of(dim, 42);

    let got = flat.search(&query, 10, SearchParams::default(), Some(&filter));
    let want = brute_force_topk(
        &storage,
        flat.kernel(),
        &query,
        10,
        Some(flat.deleted()),
        Some(&filter),
    );
    assert_eq!(got, want);
    // Every result is even and live.
    assert!(got
        .iter()
        .all(|sp| sp.id.get() % 2 == 0 && sp.id != PointId::new(2)));
}

#[test]
fn allow_all_filter_equals_no_filter() {
    let dim = 8;
    let storage = storage_of(dim, Metric::Euclidean, 50);
    let flat = FlatIndex::new(storage.clone());
    let query = vec_of(dim, 5);
    let none = flat.search(&query, 7, SearchParams::default(), None);
    let all = flat.search(&query, 7, SearchParams::default(), Some(&AllowAll { total: 50 }));
    assert_eq!(none, all);
}

#[test]
fn counts_and_ratio_track_deletes() {
    let storage = storage_of(4, Metric::Dot, 10);
    let mut flat = FlatIndex::new(storage);
    assert_eq!(flat.capacity(), 10);
    assert_eq!(flat.live_len(), 10);
    for id in 0..3u32 {
        flat.delete(PointId::new(id));
    }
    assert_eq!(flat.live_len(), 7);
    let ratio = deleted_ratio(flat.deleted().deleted_count(), flat.capacity());
    assert!((ratio - 0.3).abs() < 1e-6);
    let live: Vec<_> = flat.iter_live();
    assert_eq!(live.len(), 7);
    assert!(!live.contains(&PointId::new(0)));
}

#[test]
fn k_zero_returns_empty() {
    let storage = storage_of(4, Metric::Dot, 10);
    let flat = FlatIndex::new(storage);
    assert!(flat
        .search(&vec_of(4, 1), 0, SearchParams::default(), None)
        .is_empty());
}

#[test]
fn ties_broken_by_ascending_id() {
    let dim = 8;
    let metric = Metric::Cosine; // normalized => the tie group scores exactly 1.0
    let mut s = VectorStorage::with_capacity(F32Kernel::for_metric(metric, dim), 20);
    let tied = vec_of(dim, 1);
    for _ in 0..10 {
        s.push(&tied); // ids 0..10 share one vector (a 10-way score tie)
    }
    for i in 10..20 {
        s.push(&vec_of(dim, 1000 + i)); // distinct, lower-scoring
    }
    let storage = Arc::new(s);
    let flat = FlatIndex::new(storage.clone());

    // Query == the tied vector: the 10 identical points all score highest (cosine
    // 1.0) and tie. With k < the tie-group size, the smallest ids must win, in
    // ascending order.
    let got = flat.search(&tied, 4, SearchParams::default(), None);
    let ids: Vec<u32> = got.iter().map(|sp| sp.id.get()).collect();
    assert_eq!(
        ids,
        vec![0, 1, 2, 3],
        "ties must resolve to the smallest ids in order"
    );

    // And it matches the oracle exactly (ids and scores).
    let want = brute_force_topk(&storage, flat.kernel(), &tied, 4, None, None);
    assert_eq!(got, want);
}

#[test]
fn delete_is_idempotent_and_reports_newness() {
    let mut s = SoftDeleteSet::new();
    assert!(s.delete(PointId::new(5)));
    assert!(!s.delete(PointId::new(5)));
    assert!(s.is_deleted(PointId::new(5)));
    assert!(!s.is_deleted(PointId::new(6)));
    assert_eq!(s.deleted_count(), 1);
}

#[test]
fn snapshot_is_point_in_time() {
    let mut s = SoftDeleteSet::new();
    s.delete(PointId::new(1));
    let snap = s.snapshot();
    s.delete(PointId::new(2));
    assert!(snap.contains(1));
    assert!(!snap.contains(2)); // snapshot frozen before the second delete
    assert!(s.is_deleted(PointId::new(2))); // live set reflects it
}

#[test]
fn rebuild_threshold_crossing() {
    // 30% is the trigger.
    assert!(!should_rebuild(29, 100));
    assert!(should_rebuild(30, 100));
    assert!(should_rebuild(31, 100));
    assert!(!should_rebuild(0, 0));
    assert!((deleted_ratio(3, 10) - 0.3).abs() < 1e-6);
}

#[test]
fn rebuild_threshold_is_the_rounded_ratio() {
    // The threshold follows the single-precision ratio exactly.
    for total in 1..400usize {
        for deleted in 0..=total {
            assert_eq!(
                should_rebuild(deleted, total),
                deleted_ratio(deleted, total) >= 0.30f32,
                "{deleted} of {total}"
            );
        }
    }
}

fn line_of(xs: &[f32]) -> VectorStorage<F32Kernel> {
    let mut s = VectorStorage::new(F32Kernel::for_metric(Metric::Euclidean, 1));
    for x in xs {
        s.push(&[*x]);
    }
    s
}

#[test]
fn respects_degree_bound_and_subset() {
    // Points on a line; base at origin.
    let s = line_of(&[0.0f32, 1.0, 2.0, 3.0, 4.0, -1.0, -2.0]);
    let pairs = RowPairs { vectors: &s, kernel: F32Kernel::for_metric(Metric::Euclidean, 1) };
    let ids: Vec<u32> = (1..7).collect();
    let cand = candidates_to(&pairs, 0, &ids);
    let sel = select_neighbors(&pairs, 0, &cand, 3, true);
    assert!(sel.len() <= 3);
    assert!(sel.iter().all(|id| ids.contains(id)));
    // The two immediate neighbors (id 1 at +1, id 5 at -1) should be selected:
    // diverse directions beat piling up on one side.
    assert!(sel.contains(&1));
    assert!(sel.contains(&5));
}

#[test]
fn keep_pruned_fills_to_m() {
    // Many candidates clustered on one side: heuristic prunes, keep_pruned refills.
    let s = line_of(&[0.0f32, 1.0, 1.1, 1.2, 1.3]);
    let pairs = RowPairs { vectors: &s, kernel: F32Kernel::for_metric(Metric::Euclidean, 1) };
    let ids: Vec<u32> = vec![1, 2, 3, 4];
    let cand = candidates_to(&pairs, 0, &ids);
    let with = select_neighbors(&pairs, 0, &cand, 4, true);
    let without = select_neighbors(&pairs, 0, &cand, 4, false);
    assert_eq!(with.len(), 4); // refilled to m
    assert!(without.len() <= with.len());
    assert_eq!(without, vec![1]);
}

#[test]
fn tombstones_beyond_the_rows_take_no_live_point_away() {
    let mut flat = FlatIndex::new(storage_of(2, Metric::Dot, 3));
    flat.delete(PointId::new(1));
    flat.delete(PointId::new(70));
    assert_eq!(flat.live_len(), 2);
    assert_eq!(flat.iter_live(), vec![PointId::new(0), PointId::new(2)]);
    flat.delete(PointId::new(0));
    flat.delete(PointId::new(2));
    assert_eq!(flat.live_len(), 0);
    assert!(flat.is_empty());
}
