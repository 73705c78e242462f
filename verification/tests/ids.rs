use std::collections::HashSet;

use vecvec::id::{GlobalId, LocalId, PointId, SegmentId, VersionId};

#[test]
fn roundtrip_and_accessors() {
    assert_eq!(PointId::new(7).get(), 7);
    assert_eq!(GlobalId::from(42u64).get(), 42);
    assert_eq!(u64::from(SegmentId::new(9)), 9);
}

#[test]
fn display_and_debug() {
    assert_eq!(VersionId::new(3).display(), "VersionId(3)");
    assert_eq!(format!("{:?}", PointId::new(1)), "PointId(1)");
}

#[test]
fn display_of_large_ids() {
    assert_eq!(
        GlobalId::new(u64::MAX).display(),
        "GlobalId(18446744073709551615)"
    );
    assert_eq!(LocalId::new(0).display(), "LocalId(0)");
    assert_eq!(SegmentId::new(10).display(), "SegmentId(10)");
}

#[test]
fn ordering_is_by_inner_value() {
    let mut v = [GlobalId::new(5), GlobalId::new(1), GlobalId::new(3)];
    v.sort();
    assert_eq!(v, [GlobalId::new(1), GlobalId::new(3), GlobalId::new(5)]);
}

#[test]
fn hashable() {
    let set: HashSet<SegmentId> = [SegmentId::new(1), SegmentId::new(1), SegmentId::new(2)]
        .into_iter()
        .collect();
    assert_eq!(set.len(), 2);
}

#[test]
fn local_point_conversions_preserve_row() {
    assert_eq!(PointId::new(11).to_local(), LocalId::new(11));
    assert_eq!(LocalId::new(11).to_point(), PointId::new(11));
}
