use std::collections::{BinaryHeap, HashSet};

use vecvec::ordered::{OrderedF32, OrderedF64};

fn narrow(x: f32) -> OrderedF32 {
    OrderedF32::new(x.to_bits())
}

fn wide(x: f64) -> OrderedF64 {
    OrderedF64::new(x.to_bits())
}

fn back(x: OrderedF32) -> f32 {
    f32::from_bits(x.into_inner())
}

#[test]
fn sorts_like_total_cmp() {
    let mut v = [
        narrow(1.5),
        narrow(-2.0),
        narrow(0.0),
        narrow(f32::NAN),
        narrow(f32::INFINITY),
    ];
    v.sort();
    // -2.0 < 0.0 < 1.5 < +inf < NaN  (NaN is greatest under total_cmp)
    assert_eq!(v[0], narrow(-2.0));
    assert_eq!(v[1], narrow(0.0));
    assert_eq!(v[2], narrow(1.5));
    assert_eq!(v[3], narrow(f32::INFINITY));
    assert!(back(v[4]).is_nan());
}

#[test]
fn signed_zeroes_are_distinguished() {
    let neg = narrow(-0.0);
    let pos = narrow(0.0);
    assert_ne!(neg, pos);
    assert!(neg < pos);
}

#[test]
fn usable_in_a_max_heap() {
    let mut heap: BinaryHeap<OrderedF64> = [3.0, 1.0, 2.0].into_iter().map(wide).collect();
    assert_eq!(heap.pop(), Some(wide(3.0)));
    assert_eq!(heap.pop(), Some(wide(2.0)));
}

#[test]
fn eq_hash_consistency() {
    let mut set = HashSet::new();
    set.insert(narrow(2.0));
    assert!(set.contains(&narrow(2.0)));
    assert!(!set.contains(&narrow(-0.0)));
}

#[test]
fn bits_survive_and_order_matches_std() {
    let samples = [
        -f32::NAN,
        f32::NEG_INFINITY,
        f32::MIN,
        -1.25,
        -f32::MIN_POSITIVE,
        -0.0,
        0.0,
        f32::MIN_POSITIVE,
        0.75,
        f32::MAX,
        f32::INFINITY,
        f32::NAN,
    ];
    for a in samples {
        assert_eq!(narrow(a).into_inner(), a.to_bits());
        assert_eq!(narrow(a).neg().into_inner(), (-a).to_bits());
        for b in samples {
            assert_eq!(narrow(a).cmp(&narrow(b)), a.total_cmp(&b));
            assert_eq!(narrow(a).below(narrow(b)), a < b);
            assert_eq!(wide(a as f64).below(wide(b as f64)), (a as f64) < (b as f64));
            assert_eq!(wide(a as f64).equal(wide(b as f64)), a as f64 == b as f64);
        }
    }
}

#[test]
fn integers_round_to_nearest_even() {
    let samples = [
        0i32,
        1,
        -1,
        7,
        16_777_215,
        16_777_216,
        16_777_217,
        16_777_219,
        -16_777_217,
        33_554_435,
        i32::MAX,
        i32::MIN,
    ];
    for v in samples {
        assert_eq!(OrderedF32::from_i32(v), narrow(v as f32));
    }
    let large = [
        0u64,
        1,
        9_007_199_254_740_991,
        9_007_199_254_740_992,
        9_007_199_254_740_993,
        9_007_199_254_740_995,
        u64::MAX,
        u64::MAX - 1023,
        1 << 63,
    ];
    for v in large {
        assert_eq!(OrderedF64::from_u64(v), wide(v as f64));
        assert_eq!(OrderedF64::from_i64(v as i64), wide(v as i64 as f64));
    }
}
