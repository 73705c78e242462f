use vecvec::query::{collect_ranks, fuse};
use vecvec::ranking::Scored;
use vecvec::OrderedF32;

const DEFAULT_RRF_K: f64 = 60.0;

fn reciprocal_rank_fusion(lists: &[Vec<(u64, f32)>], k: f64, top: usize) -> Vec<(u64, f32)> {
    let ids: Vec<Vec<u64>> = lists
        .iter()
        .map(|list| list.iter().map(|(id, _)| *id).collect())
        .collect();
    let scored: Vec<Scored> = collect_ranks(&ids)
        .iter()
        .map(|entry| {
            let sum = entry.ranks.iter().fold(0.0f64, |s, rank| s + 1.0 / (k + *rank as f64));
            Scored { id: entry.id, score: OrderedF32::new((sum as f32).to_bits()) }
        })
        .collect();
    fuse(&scored, top)
        .iter()
        .map(|s| (s.id, f32::from_bits(s.score.into_inner())))
        .collect()
}

#[test]
fn fuses_by_rank() {
    // Id 2 is top of list A and second of list B -> should win overall.
    let a = vec![(2, 0.9), (1, 0.8), (3, 0.1)];
    let b = vec![(5, 0.9), (2, 0.7), (1, 0.6)];
    let fused = reciprocal_rank_fusion(&[a, b], DEFAULT_RRF_K, 3);
    assert_eq!(fused[0].0, 2);
    assert_eq!(fused.len(), 3);
}

#[test]
fn single_list_preserves_order() {
    let a = vec![(7, 0.5), (8, 0.4), (9, 0.3)];
    let fused = reciprocal_rank_fusion(&[a], DEFAULT_RRF_K, 10);
    assert_eq!(fused.iter().map(|x| x.0).collect::<Vec<_>>(), vec![7, 8, 9]);
}

#[test]
fn ranks_are_collected_list_by_list() {
    let mut entries = collect_ranks(&vec![vec![4, 9, 4], vec![9], vec![]]);
    entries.sort_by_key(|e| e.id);
    assert_eq!(entries.len(), 2);
    assert_eq!((entries[0].id, &entries[0].ranks), (4, &vec![1, 3]));
    assert_eq!((entries[1].id, &entries[1].ranks), (9, &vec![2, 1]));
}

#[test]
fn equal_scores_fuse_by_ascending_id() {
    let same = OrderedF32::new(0.25f32.to_bits());
    let scored = vec![Scored { id: 8, score: same }, Scored { id: 2, score: same }];
    let fused: Vec<u64> = fuse(&scored, 5).iter().map(|s| s.id).collect();
    assert_eq!(fused, vec![2, 8]);
}
