use vecvec::distance::UnknownMetric;
use vecvec::{DistanceKernel, Kernel, Metric};

#[test]
fn hand_computed_values() {
    let a = [1u8, 2, 3];
    let b = [4u8, 5, 6];
    let dot = DistanceKernel::new(Metric::Dot, 3);
    assert_eq!(f32::from_bits(dot.score(&a, &b).into_inner()), 32.0); // 4+10+18
    let euc = DistanceKernel::new(Metric::Euclidean, 3);
    assert_eq!(f32::from_bits(euc.score(&a, &b).into_inner()), 27.0); // 9+9+9
}

#[test]
fn u8_kernels() {
    let a = [1u8, 2, 3, 255];
    let b = [4u8, 5, 6, 1];
    let dot = DistanceKernel::new(Metric::Dot, 4);
    assert_eq!(dot.score_u8(&a, &b), 4 + 10 + 18 + 255);
    let euc = DistanceKernel::new(Metric::Euclidean, 4);
    assert_eq!(euc.score_u8(&a, &b), 9 + 9 + 9 + 254 * 254);
}

#[test]
fn metric_properties() {
    assert!(Metric::Cosine.higher_is_better());
    assert!(Metric::Dot.higher_is_better());
    assert!(!Metric::Euclidean.higher_is_better());
    assert_eq!(f32::from_bits(Metric::Dot.worst_score().into_inner()), f32::NEG_INFINITY);
    assert_eq!(f32::from_bits(Metric::Euclidean.worst_score().into_inner()), f32::INFINITY);
    assert!(Metric::Cosine.requires_normalization());
    assert!(!Metric::Dot.requires_normalization());
    assert_eq!(Metric::Euclidean.as_str(), "euclidean");
    assert_eq!("cosine".parse::<Metric>().unwrap(), Metric::Cosine);
    assert!("bogus".parse::<Metric>().is_err());
}

#[test]
fn unknown_metric_names_the_text() {
    let error = Metric::parse("Cos\"ine").unwrap_err();
    assert_eq!(
        error.display(),
        "unknown metric \"Cos\\\"ine\" (expected one of: cosine, dot, euclidean)"
    );
    let UnknownMetric(text) = error;
    assert_eq!(text, "Cos\"ine");
    for metric in [Metric::Cosine, Metric::Dot, Metric::Euclidean] {
        assert_eq!(Metric::parse(metric.as_str()).unwrap(), metric);
    }
}

#[test]
fn u8_codes_quantize_blend_and_draw_levels() {
    let k = DistanceKernel::for_metric(Metric::Cosine, 3);
    assert_eq!((k.metric(), k.dim()), (Metric::Cosine, 3));
    assert_eq!(k.normalize(vec![3, 4, 0]), vec![3, 4, 0]);
    assert_eq!(f32::from_bits(k.fit_scale(&[200, 7])), 1.0);
    assert_eq!(k.encode_one(0, 12), 12);
    assert_eq!(k.encode_one(0, 200), 127);
    let positive = vec![vec![10, 20, 30], vec![20, 20, 1]];
    let negative = vec![vec![5, 100, 0]];
    assert_eq!(k.blend(&positive, &negative), vec![10, 0, 15]);
    // A uniform value of one half stays on the ground layer; small ones climb.
    assert_eq!(k.level(1 << 52, 16), 0);
    assert_eq!(k.level(1 << 49, 16), 1);
    assert_eq!(k.level(1 << 45, 16), 2);
}
