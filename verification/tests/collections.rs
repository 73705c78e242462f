use std::collections::HashSet;
use std::sync::Arc;

use vecvec::payload::{Condition, Field, Filter, JsonNumber, JsonValue};
use vecvec::version::{RetentionRules, VersionSelector, VersioningPolicy};
use vecvec::{
    Collection, CollectionConfig, CompactionPolicy, CoreError, GlobalId, HnswConfig, Kernel,
    Metric, OrderedF32, SegmentId,
};

/// The kernel over `f32` components.
#[derive(Clone, Copy)]
struct F32Kernel {
    metric: Metric,
    dim: usize,
}

fn dot_f32(a: &[f32], b: &[f32]) -> f32 {
    a.iter().zip(b).map(|(x, y)| x * y).sum()
}

fn sq_l2_f32(a: &[f32], b: &[f32]) -> f32 {
    a.iter().zip(b).map(|(x, y)| (x - y) * (x - y)).sum()
}

fn mean_of(vectors: &[Vec<f32>], dim: usize) -> Vec<f32> {
    let mut mean = vec![0.0f32; dim];
    for v in vectors {
        for (m, x) in mean.iter_mut().zip(v) {
            *m += x;
        }
    }
    let n = vectors.len().max(1) as f32;
    mean.iter().map(|m| m / n).collect()
}

impl Kernel for F32Kernel {
    type Elem = f32;

    fn for_metric(metric: Metric, dim: usize) -> F32Kernel {
        F32Kernel { metric, dim }
    }

    fn metric(&self) -> Metric {
        self.metric
    }

    fn dim(&self) -> usize {
        self.dim
    }

    fn score(&self, a: &[f32], b: &[f32]) -> OrderedF32 {
        let raw = match self.metric {
            Metric::Cosine | Metric::Dot => dot_f32(a, b),
            Metric::Euclidean => sq_l2_f32(a, b),
        };
        OrderedF32::new(raw.to_bits())
    }

    fn normalize(&self, v: Vec<f32>) -> Vec<f32> {
        let norm = dot_f32(&v, &v).sqrt();
        if norm > 0.0 {
            v.iter().map(|x| x * (1.0 / norm)).collect()
        } else {
            v
        }
    }

    fn fit_scale(&self, flat: &[f32]) -> u32 {
        let max_abs = flat.iter().fold(0.0f32, |m, x| m.max(x.abs()));
        let scale = if max_abs > 0.0 { max_abs / 127.0 } else { 1.0 };
        scale.to_bits()
    }

    fn encode_one(&self, scale: u32, x: f32) -> i8 {
        let inv = 1.0 / f32::from_bits(scale);
        (x * inv).round().clamp(-127.0, 127.0) as i8
    }

    fn blend(&self, positive: &Vec<Vec<f32>>, negative: &Vec<Vec<f32>>) -> Vec<f32> {
        let pos = mean_of(positive, self.dim);
        let neg = mean_of(negative, self.dim);
        pos.iter().zip(&neg).map(|(p, n)| p - n).collect()
    }

    fn level(&self, uniform: u64, m: usize) -> usize {
        let mut u = uniform as f64 * (1.0 / 9_007_199_254_740_992.0);
        if u <= 0.0 {
            u = f64::MIN_POSITIVE;
        }
        (-u.ln() * (1.0 / (m as f64).ln())).floor() as usize
    }
}

fn vec_of(dim: usize, seed: u32) -> Vec<f32> {
    (0..dim)
        .map(|i| {
            let x = (i as u32).wrapping_mul(2654435761).wrapping_add(seed);
            ((x % 2000) as f32 / 1000.0) - 1.0
        })
        .collect()
}

fn config(dim: usize) -> CollectionConfig {
    CollectionConfig {
        name: "c".to_string(),
        dim,
        metric: Metric::Dot,
        hnsw: HnswConfig::default(),
        versioning: VersioningPolicy::manual(),
        compaction: CompactionPolicy::manual(),
    }
}

fn collection(dim: usize) -> Collection<F32Kernel> {
    Collection::create(config(dim))
}

fn batch(dim: usize, first: u32, n: u32) -> Vec<Vec<f32>> {
    (0..n).map(|i| vec_of(dim, first + i)).collect()
}

fn commit(col: &mut Collection<F32Kernel>) -> u64 {
    col.commit("manual".to_string(), None, None).unwrap()
}

fn whole(n: u64) -> JsonValue {
    JsonValue::Number(JsonNumber::PosInt(n))
}

fn bucket(n: u64) -> JsonValue {
    JsonValue::Object(vec![Field { name: "bucket".to_string(), value: whole(n) }])
}

#[test]
fn insert_search_delete_len() {
    let dim = 8;
    let mut col = collection(dim);
    let ids = col.insert_batch(&batch(dim, 1, 20)).unwrap();
    assert_eq!(col.len(), 20);
    assert!(col.delete(ids[0]));
    assert!(!col.delete(ids[0]));
    assert_eq!(col.len(), 19);
    let got = col.search(&vec_of(dim, 99), 25, None).unwrap();
    assert!(got.iter().all(|s| s.id != ids[0]));
    assert_eq!(got.len(), 19);
}

/// A delete after a commit must NOT change what the committed version sees (snapshot
/// isolation).
#[test]
fn time_travel_snapshot_isolation() {
    let dim = 8;
    let mut col = collection(dim);
    let ids = col.insert_batch(&batch(dim, 1, 30)).unwrap();
    let v1 = commit(&mut col);
    assert_eq!(col.len(), 30);

    // Delete half the points *after* the commit.
    for &id in &ids[..15] {
        col.delete(id);
    }
    assert_eq!(col.len(), 15);

    // Live search excludes deleted points...
    let live = col.search(&vec_of(dim, 1), 30, None).unwrap();
    assert_eq!(live.len(), 15);
    assert!(live.iter().all(|s| !ids[..15].contains(&s.id)));

    // ...but time-travel to v1 still sees all 30 (frozen deletion vector).
    let at_v1 = col
        .search_at(&VersionSelector::Version(v1), &vec_of(dim, 1), 40, None)
        .unwrap();
    assert_eq!(at_v1.len(), 30);
}

#[test]
fn filtered_search_matches_reference() {
    let dim = 16;
    let n = 400;
    let mut col = collection(dim);
    // Insert with a "bucket" payload field (10 buckets) and seal most of them.
    for i in 0..n {
        let id = col.alloc_global_id();
        let payload = Arc::new(bucket(i as u64 % 10));
        col.insert_with_id_and_payload(id, &vec_of(dim, i + 1), Some(payload)).unwrap();
    }
    col.seal();
    for i in n..(n + 100) {
        let id = col.alloc_global_id();
        let payload = Arc::new(bucket(i as u64 % 10));
        col.insert_with_id_and_payload(id, &vec_of(dim, i + 1), Some(payload)).unwrap();
    }

    // Filter to a single, highly-selective bucket (~10% of points).
    let filter = Filter {
        must: vec![Condition {
            key: "bucket".to_string(),
            match_value: Some(whole(3)),
            range: None,
        }],
        ..Default::default()
    };
    let query = vec_of(dim, 99_999);
    let got = col.search(&query, 10, Some(&filter)).unwrap();
    // Every result is in bucket 3.
    let payloads = col.payloads_snapshot();
    assert!(got
        .iter()
        .all(|s| payloads.get(&s.id.get()).unwrap().equals(&bucket(3))));
    // And we found a full page (bucket 3 has ~50 points, plenty for k=10).
    assert_eq!(got.len(), 10);
}

#[test]
fn recommend_by_example() {
    let dim = 16;
    let mut col: Collection<F32Kernel> =
        Collection::create(CollectionConfig::new("c".to_string(), dim, Metric::Cosine));
    // Two clusters: ids 0..20 around seed family A, 20..40 around B.
    for i in 0..20 {
        col.insert(&vec_of(dim, i + 1)).unwrap();
    }
    for i in 0..20 {
        col.insert(&vec_of(dim, 10_000 + i)).unwrap();
    }
    // Recommend by a single example == search by that example's own vector,
    // excluding the example itself.
    let pos = [GlobalId::new(3)];
    let got = col.recommend(&pos, &[], 5, None).unwrap();
    assert_eq!(got.len(), 5);
    assert!(got.iter().all(|s| s.id != GlobalId::new(3)));

    let v3 = col.get_vector(GlobalId::new(3)).unwrap();
    let direct: HashSet<u64> = col
        .search(&v3, 6, None)
        .unwrap()
        .into_iter()
        .filter(|s| s.id != GlobalId::new(3))
        .take(5)
        .map(|s| s.id.get())
        .collect();
    let rec: HashSet<u64> = got.iter().map(|s| s.id.get()).collect();
    // Equal as sets (re-normalization can flip near-ties in ordering).
    assert_eq!(rec, direct);

    // No resolvable examples -> error.
    assert!(col
        .recommend(&[GlobalId::new(99_999)], &[], 5, None)
        .is_err());
}

#[test]
fn compaction_merges_segments() {
    let dim = 16;
    let mut col = collection(dim);
    for b in 0..3 {
        col.insert_batch(&batch(dim, b * 100 + 1, 30)).unwrap();
        col.seal();
    }
    assert_eq!(col.sealed_count(), 3);
    assert_eq!(col.len(), 90);

    let merged = col.compact();
    assert!(merged.is_some());
    assert_eq!(col.sealed_count(), 1);
    assert_eq!(col.len(), 90);
    // Search still returns a full page of valid results.
    let got = col.search(&vec_of(dim, 9_999), 10, None).unwrap();
    assert_eq!(got.len(), 10);
}

#[test]
fn gc_drops_orphaned_segments() {
    let dim = 8;
    let mut col = collection(dim);
    col.insert_batch(&batch(dim, 1, 30)).unwrap();
    let v0 = commit(&mut col);
    col.insert_batch(&batch(dim, 100, 30)).unwrap();
    commit(&mut col);

    // Compact the two segments into one, then commit a version referencing it.
    col.compact();
    commit(&mut col);

    // Keep only the latest version: the two pre-merge segments become orphans.
    let dropped = col.gc(&RetentionRules {
        keep_last: Some(1),
        ..Default::default()
    });
    assert_eq!(dropped.len(), 2);
    assert_eq!(col.len(), 60);
    // The dropped version is no longer queryable; live search still works.
    assert!(col
        .search_at(&VersionSelector::Version(v0), &vec_of(dim, 1), 5, None)
        .is_err());
    assert_eq!(col.search(&vec_of(dim, 1), 10, None).unwrap().len(), 10);
}

#[test]
fn diff_branch_restore() {
    let dim = 8;
    let mut col = collection(dim);
    let ids = col.insert_batch(&batch(dim, 1, 20)).unwrap();
    let v0 = commit(&mut col);

    // Delete some, add some, commit again.
    col.delete(ids[0]);
    col.delete(ids[1]);
    col.insert_batch(&batch(dim, 100, 5)).unwrap();
    let v1 = commit(&mut col);

    // Diff v0 -> v1: 5 added, 2 removed.
    let d = col.diff(v0, v1).unwrap();
    assert_eq!(d.added.len(), 5);
    assert_eq!(d.removed.len(), 2);

    // Branch + tag the versions.
    col.create_branch("main".to_string(), v1).unwrap();
    col.create_tag("baseline".to_string(), v0).unwrap();
    assert_eq!(
        col.search_at(
            &VersionSelector::Tag("baseline".to_string()),
            &vec_of(dim, 1),
            30,
            None
        )
        .unwrap()
        .len(),
        20
    );

    // Restore to v0: a forward commit; live state reflects v0 (20 points).
    let v2 = col.restore(v0).unwrap();
    assert!(v2 > v1);
    assert_eq!(col.len(), 20);
    // History preserved: v1 still queryable with its 23 live points.
    assert_eq!(
        col.search_at(&VersionSelector::Version(v1), &vec_of(dim, 1), 40, None)
            .unwrap()
            .len(),
        23
    );
}

#[test]
fn diff_after_compact_over_deletes_is_exact() {
    // The live set must be the SAME before and after compaction even with interior ids
    // deleted: the deleted interior ids are not resurrected as phantom adds.
    let dim = 8;
    let mut col = collection(dim);
    let ids1 = col.insert_batch(&batch(dim, 1, 15)).unwrap();
    col.seal();
    let ids2 = col.insert_batch(&batch(dim, 100, 15)).unwrap();
    col.seal();
    assert_eq!(col.sealed_count(), 2);

    // Delete every other id (interior deletions inside both segment ranges).
    let all_ids: Vec<GlobalId> = ids1.iter().chain(&ids2).copied().collect();
    for (i, &id) in all_ids.iter().enumerate() {
        if i % 2 == 0 {
            assert!(col.delete(id));
        }
    }
    assert_eq!(col.len(), 15);
    let v_prev = commit(&mut col);

    // Compact the two segments into one (its global-id range spans [min,max],
    // including the deleted interior ids), then commit.
    assert!(col.compact().is_some());
    assert_eq!(col.sealed_count(), 1);
    let v_c = commit(&mut col);

    // Same live set across the compaction boundary: no phantom adds/removes.
    let d = col.diff(v_prev, v_c).unwrap();
    assert!(
        d.added.is_empty(),
        "phantom adds after compact-over-deletes: {:?}",
        d.added
    );
    assert!(
        d.removed.is_empty(),
        "phantom removes after compact-over-deletes: {:?}",
        d.removed
    );
    assert_eq!(col.len(), 15);
}

#[test]
fn gc_never_drops_live_working_segment() {
    // After a restore re-points the working set at an OLD segment, GC must never drop
    // that live working segment.
    let dim = 8;
    let mut col = collection(dim);
    // v0 references segA.
    col.insert_batch(&batch(dim, 1, 20)).unwrap();
    let v0 = commit(&mut col);
    let seg_a = col.working_segment_ids();
    assert_eq!(seg_a.len(), 1);

    // v1 adds new data: working set becomes {segA, segB}.
    col.insert_batch(&batch(dim, 100, 20)).unwrap();
    commit(&mut col);
    assert_eq!(col.sealed_count(), 2);

    // Restore to v0: working re-points back at segA alone.
    col.restore(v0).unwrap();
    assert_eq!(col.working_segment_ids(), seg_a);

    // GC keeping only the latest version. segA is the live working set: it must
    // survive even though the older versions referencing it are dropped.
    let dropped = col.gc(&RetentionRules {
        keep_last: Some(1),
        ..Default::default()
    });
    assert!(
        !dropped.contains(&SegmentId::new(seg_a[0])),
        "GC dropped the live working segment {}",
        seg_a[0]
    );
    // Live search still returns segA's points after GC.
    assert_eq!(col.len(), 20);
    assert_eq!(col.search(&vec_of(dim, 1), 10, None).unwrap().len(), 10);
}

#[test]
fn recommend_with_negatives_steers_toward_positive_cluster() {
    let dim = 8;
    let mut col: Collection<F32Kernel> =
        Collection::create(CollectionConfig::new("c".to_string(), dim, Metric::Cosine));
    // Cluster A near the +x axis, cluster B near the +y axis (orthogonal).
    let mut a_ids = Vec::new();
    let mut b_ids = Vec::new();
    for i in 0..15 {
        let mut a = vec![0.0f32; dim];
        a[0] = 1.0;
        a[2] = 0.01 * i as f32; // tiny jitter, stays near the A axis
        a_ids.push(col.insert(&a).unwrap());
    }
    for i in 0..15 {
        let mut b = vec![0.0f32; dim];
        b[1] = 1.0;
        b[3] = 0.01 * i as f32;
        b_ids.push(col.insert(&b).unwrap());
    }
    let a_set: HashSet<u64> = a_ids.iter().map(|g| g.get()).collect();

    // positive A, negative B: query mean(A) - mean(B) points toward cluster A.
    let got = col.recommend(&[a_ids[0]], &[b_ids[0]], 5, None).unwrap();
    assert_eq!(got.len(), 5);
    assert!(
        got.iter().all(|s| a_set.contains(&s.id.get())),
        "negative steering should keep results in cluster A, got {:?}",
        got.iter().map(|s| s.id.get()).collect::<Vec<_>>()
    );
    assert!(got.iter().all(|s| s.id != b_ids[0]));

    // Negatives-only path: query = -mean(B), steering away from B toward cluster A.
    // Must succeed and exclude nothing (no positives).
    let neg_only = col.recommend(&[], &[b_ids[0]], 5, None).unwrap();
    assert_eq!(neg_only.len(), 5);
    assert!(
        neg_only.iter().all(|s| a_set.contains(&s.id.get())),
        "negatives-only should steer to cluster A (far side of B)"
    );
}

#[test]
fn wrong_dimensions_are_refused() {
    let mut col = collection(3);
    let refused = |r: CoreError| matches!(r, CoreError::DimensionMismatch { expected: 3, got: 2 });
    assert!(refused(col.insert(&[1.0, 2.0]).unwrap_err()));
    assert!(refused(col.insert_with_id(GlobalId::new(9), &[1.0, 2.0]).unwrap_err()));
    assert!(refused(col.search(&[1.0, 2.0], 1, None).unwrap_err()));
    // A batch is refused whole.
    let mixed = vec![vec![1.0, 2.0, 3.0], vec![1.0, 2.0]];
    assert!(refused(col.insert_batch(&mixed).unwrap_err()));
    assert_eq!(col.len(), 0);
    // A refused insert still uses up the id it was given; a refused batch uses none.
    assert_eq!(col.next_global_id_value(), 1);
}

#[test]
fn unknown_versions_are_refused() {
    let mut col = collection(2);
    col.insert(&[1.0, 2.0]).unwrap();
    let v0 = commit(&mut col);
    assert!(matches!(col.restore(7), Err(CoreError::Version { .. })));
    assert!(matches!(col.diff(v0, 7), Err(CoreError::Version { .. })));
    assert!(matches!(col.create_tag("t".to_string(), 7), Err(CoreError::Version { .. })));
    assert!(matches!(col.create_branch("b".to_string(), 7), Err(CoreError::Version { .. })));
    let nowhere = VersionSelector::Tag("t".to_string());
    assert!(matches!(
        col.search_at(&nowhere, &[1.0, 2.0], 1, None),
        Err(CoreError::Version { .. })
    ));
    assert!(matches!(col.scroll(Some(&nowhere), 0, 1), Err(CoreError::Version { .. })));
}

#[test]
fn scroll_pages_through_live_points() {
    let dim = 4;
    let mut col = collection(dim);
    let ids = col.insert_batch(&batch(dim, 1, 10)).unwrap();
    let v0 = commit(&mut col);
    col.delete(ids[4]);
    col.insert_batch(&batch(dim, 50, 3)).unwrap();

    let (page, total) = col.scroll(None, 0, 5).unwrap();
    assert_eq!(total, 12);
    assert_eq!(page.iter().map(|p| p.id.get()).collect::<Vec<_>>(), vec![0, 1, 2, 3, 5]);
    assert_eq!(page[1].vector, vec_of(dim, 2));
    let (rest, _) = col.scroll(None, 10, 5).unwrap();
    assert_eq!(rest.iter().map(|p| p.id.get()).collect::<Vec<_>>(), vec![11, 12]);
    let (past, _) = col.scroll(None, 99, 5).unwrap();
    assert!(past.is_empty());

    let at = VersionSelector::Version(v0);
    let (page, total) = col.scroll(Some(&at), 0, 100).unwrap();
    assert_eq!((page.len(), total), (10, 10));
}

#[test]
fn points_are_read_back_until_deleted() {
    let mut col = collection(2);
    let id = col.alloc_global_id();
    col.insert_with_id_and_payload(id, &[1.0, 2.0], Some(Arc::new(bucket(5)))).unwrap();
    assert_eq!(col.get_vector(id), Some(vec![1.0, 2.0]));
    let point = col.get_point(id).unwrap();
    assert_eq!((point.id, point.vector), (id, vec![1.0, 2.0]));
    assert!(point.payload.unwrap().equals(&bucket(5)));
    col.seal();
    assert_eq!(col.get_vector(id), Some(vec![1.0, 2.0]));
    col.delete(id);
    // The stored vector outlives the live point.
    assert_eq!(col.get_vector(id), Some(vec![1.0, 2.0]));
    assert!(col.get_point(id).is_none());
    assert!(col.payload(id).unwrap().equals(&bucket(5)));
    assert!(!col.delete(GlobalId::new(77)));
}

#[test]
fn sealing_nothing_and_compacting_one_change_nothing() {
    let mut col = collection(2);
    assert!(col.seal().is_none());
    assert!(col.compact().is_none());
    col.insert(&[1.0, 2.0]).unwrap();
    assert_eq!(col.seal(), Some(SegmentId::new(0)));
    assert!(col.compact().is_none());
    assert_eq!(col.sealed_count(), 1);
    assert_eq!(col.len(), 1);
}

#[test]
fn searches_find_as_many_points_as_there_are() {
    let dim = 8;
    let mut col = collection(dim);
    let mut ids = Vec::new();
    for b in 0..3 {
        ids.extend(col.insert_batch(&batch(dim, b * 1000 + 1, 40)).unwrap());
        col.seal();
    }
    ids.extend(col.insert_batch(&batch(dim, 9000, 10)).unwrap());
    for id in &ids[..100] {
        col.delete(*id);
    }
    for k in [0usize, 1, 5, 29, 30, 31, 500] {
        let got = col.search(&vec_of(dim, 4), k, None).unwrap();
        assert_eq!(got.len(), k.min(30));
        let distinct: HashSet<u64> = got.iter().map(|s| s.id.get()).collect();
        assert_eq!(distinct.len(), got.len());
    }
}

#[test]
fn no_point_is_stored_twice() {
    let dim = 4;
    let mut col = collection(dim);
    col.insert_batch(&batch(dim, 1, 8)).unwrap();
    col.seal();
    col.insert_batch(&batch(dim, 20, 8)).unwrap();
    col.seal();
    col.compact();
    col.insert(&vec_of(dim, 99)).unwrap();
    let (page, total) = col.scroll(None, 0, 100).unwrap();
    let ids: Vec<u64> = page.iter().map(|p| p.id.get()).collect();
    assert_eq!(total, 17);
    assert_eq!(ids, (0..17).collect::<Vec<u64>>());
}

#[test]
fn unsealed_search_is_exact() {
    let dim = 8;
    let mut col = collection(dim);
    let vectors = batch(dim, 1, 50);
    col.insert_batch(&vectors).unwrap();
    let query = vec_of(dim, 777);
    let got = col.search(&query, 5, None).unwrap();
    let mut want: Vec<(f32, u64)> = vectors
        .iter()
        .enumerate()
        .map(|(i, v)| (-dot_f32(&query, v), i as u64))
        .collect();
    want.sort_by(|a, b| a.partial_cmp(b).unwrap());
    let ids: Vec<u64> = got.iter().map(|s| s.id.get()).collect();
    assert_eq!(ids, want[..5].iter().map(|w| w.1).collect::<Vec<u64>>());
    assert_eq!(f32::from_bits(got[0].score.into_inner()), -want[0].0);
}

#[test]
fn recovery_hooks_hand_out_what_there_is() {
    let mut col = collection(2);
    let id = col.insert(&[1.0, 2.0]).unwrap();
    let sealed = col.seal().unwrap();
    col.delete(id);
    assert_eq!(col.sealed_snapshot().len(), 1);
    assert!(col.deletions_snapshot().contains(id));
    assert_eq!(col.get_segment(sealed).unwrap().len(), 1);
    assert!(col.get_segment(SegmentId::new(9)).is_none());
    assert_eq!(col.segment_ids_to_persist(), vec![sealed]);
}

#[test]
fn commits_carry_their_labels() {
    let mut col = collection(2);
    col.insert(&[1.0, 2.0]).unwrap();
    let v = col
        .commit("auto".to_string(), Some("first".to_string()), Some("rel".to_string()))
        .unwrap();
    assert_eq!(col.head_version(), Some(v));
    let manifests = col.list_versions();
    assert_eq!(manifests.len(), 1);
    assert_eq!(manifests[0].trigger, "auto");
    assert_eq!(manifests[0].message, Some("first".to_string()));
    let by_tag = VersionSelector::Tag("rel".to_string());
    assert_eq!(col.search_at(&by_tag, &[1.0, 0.0], 5, None).unwrap().len(), 1);
}

#[test]
fn diffs_list_only_ids_that_have_rows() {
    let mut col: Collection<F32Kernel> = collection(1);
    let v0 = commit(&mut col);
    assert_eq!(col.insert(&[1.0]).unwrap(), GlobalId::new(0));
    assert!(col.insert(&[1.0, 2.0]).is_err());
    assert_eq!(col.insert(&[2.0]).unwrap(), GlobalId::new(2));
    let v1 = commit(&mut col);
    let d = col.diff(v0, v1).unwrap();
    assert_eq!((d.from, d.to), (v0, v1));
    assert_eq!(d.added, vec![0, 2]);
    assert!(d.removed.is_empty());
}

#[test]
fn diffs_across_restores_and_compactions_are_empty() {
    let mut col: Collection<F32Kernel> = collection(1);
    for id in [4u64, 9, 20, 21, 7] {
        col.insert_with_id(GlobalId::new(id), &[id as f32]).unwrap();
        col.seal();
    }
    col.delete(GlobalId::new(20));
    let v0 = commit(&mut col);
    assert!(col.compact().is_some());
    let v1 = commit(&mut col);
    let d = col.diff(v0, v1).unwrap();
    assert!(d.added.is_empty() && d.removed.is_empty());
    col.delete(GlobalId::new(4));
    col.insert_with_id(GlobalId::new(30), &[1.0]).unwrap();
    let v2 = commit(&mut col);
    let d = col.diff(v1, v2).unwrap();
    assert_eq!((d.added, d.removed), (vec![30], vec![4]));
    let v3 = col.restore(v0).unwrap();
    let d = col.diff(v0, v3).unwrap();
    assert!(d.added.is_empty() && d.removed.is_empty());
    assert_eq!(col.diff(v2, v3).unwrap().added, vec![4]);
}

#[test]
fn names_of_collected_versions_are_unresolved() {
    let mut col: Collection<F32Kernel> = collection(1);
    col.insert(&[1.0]).unwrap();
    let v0 = commit(&mut col);
    col.create_tag("old".to_string(), v0).unwrap();
    col.insert(&[2.0]).unwrap();
    commit(&mut col);
    col.gc(&RetentionRules {
        keep_last: Some(1),
        keep_tagged: false,
        keep_branch_heads: false,
    });
    let old = VersionSelector::Tag("old".to_string());
    assert!(matches!(col.search_at(&old, &[1.0], 1, None), Err(CoreError::Version { .. })));
    assert!(matches!(col.scroll(Some(&old), 0, 1), Err(CoreError::Version { .. })));
    assert_eq!(col.search_at(&VersionSelector::Head, &[1.0], 5, None).unwrap().len(), 2);
}

#[test]
fn len_counts_live_points() {
    let mut col: Collection<F32Kernel> = collection(1);
    for x in [1.0f32, 2.0, 3.0] {
        col.insert(&[x]).unwrap();
    }
    col.delete(GlobalId::new(1));
    col.seal();
    assert_eq!(col.len(), 2);
    // A tombstone covers every row of its point, in whatever segment.
    col.insert_with_id(GlobalId::new(1), &[4.0]).unwrap();
    assert_eq!(col.len(), 2);
    assert_eq!(col.scroll(None, 0, 10).unwrap().1, 2);
    col.delete(GlobalId::new(0));
    col.delete(GlobalId::new(2));
    assert!(col.is_empty());
}

#[test]
fn later_operations_leave_a_committed_version_alone() {
    let mut col: Collection<F32Kernel> = collection(4);
    for v in batch(4, 1, 12) {
        col.insert(&v).unwrap();
    }
    col.delete(GlobalId::new(3));
    let v0 = commit(&mut col);
    col.create_tag("kept".to_string(), v0).unwrap();
    let at = VersionSelector::Tag("kept".to_string());
    let query = vec_of(4, 500);
    let found = col.search_at(&at, &query, 20, None).unwrap();
    assert_eq!(found.len(), 11);
    let rules = RetentionRules {
        keep_last: Some(1),
        keep_tagged: true,
        keep_branch_heads: false,
    };
    for round in 0..4u32 {
        for v in batch(4, 100 + round * 10, 5) {
            col.insert(&v).unwrap();
        }
        col.delete(GlobalId::new(round as u64 + 5));
        match round {
            0 => drop(col.seal()),
            1 => drop(col.compact()),
            2 => drop(col.restore(v0).unwrap()),
            _ => drop(commit(&mut col)),
        }
        col.gc(&rules);
        assert_eq!(col.search_at(&at, &query, 20, None).unwrap(), found);
        assert_eq!(col.scroll(Some(&at), 0, 0).unwrap().1, 11);
    }
}

#[test]
fn a_new_collection_commits_version_zero() {
    let mut col: Collection<F32Kernel> = collection(1);
    assert_eq!(col.head_version(), None);
    assert!(col.version_snapshot().tags.is_empty());
    assert_eq!(commit(&mut col), 0);
    assert_eq!(commit(&mut col), 1);
    assert_eq!(col.head_version(), Some(1));
}

#[test]
fn compaction_keeps_the_number_of_live_points() {
    let mut col: Collection<F32Kernel> = collection(2);
    for round in 0..3u32 {
        for v in batch(2, round * 20 + 1, 7) {
            col.insert(&v).unwrap();
        }
        col.delete(GlobalId::new(round as u64 * 5));
        col.seal();
    }
    // One point has rows in two segments, and its tombstone covers both.
    col.insert_with_id(GlobalId::new(5), &[1.0, 2.0]).unwrap();
    col.seal();
    col.insert(&[3.0, 4.0]).unwrap();
    assert_eq!(col.len(), 19);
    assert!(col.compact().is_some());
    assert_eq!(col.len(), 19);
}
