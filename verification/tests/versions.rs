use std::sync::atomic::{AtomicU64, Ordering};
use std::sync::Arc;

use vecvec::id::GlobalId;
use vecvec::version::policy::clock_reading;
use vecvec::version::{
    Clock, DeletionVector, Manifest, NameMap, RetentionRules, SegmentRef, TriggerEvaluator,
    VersionError, VersionSelector, VersionStore, VersionStoreSnapshot, VersioningPolicy,
};

struct ManualClock(AtomicU64);

impl ManualClock {
    fn new() -> ManualClock {
        ManualClock(AtomicU64::new(0))
    }

    fn advance(&self, ms: u64) {
        self.0.fetch_add(ms, Ordering::Relaxed);
    }
}

impl Clock for ManualClock {
    fn now_ms(&self) -> u64 {
        self.0.load(Ordering::Relaxed)
    }
}

#[test]
fn fires_at_exact_multiples_of_n() {
    let clock = ManualClock::new();
    let mut ev = TriggerEvaluator::new(VersioningPolicy::every_n_writes(100), &clock);
    let mut commits = Vec::new();
    let mut total = 0u64;
    // Bursty writes of 30 at a time up to 300.
    for _ in 0..10 {
        ev.record_writes(30);
        total += 30;
        if ev.should_commit(&clock) {
            commits.push(total);
            ev.note_commit(&clock);
        }
    }
    // Commits should be observed right after crossing 100, 200, 300.
    assert_eq!(commits, vec![120, 210, 300]);
    // 0 pending after the last exact multiple (300 - 3*100 = 0).
    assert_eq!(ev.pending_writes(), 0);
}

#[test]
fn interval_fires_only_with_pending_writes() {
    let clock = ManualClock::new();
    let policy = VersioningPolicy {
        every_n_writes: None,
        interval_ms: Some(1000),
    };
    let mut ev = TriggerEvaluator::new(policy, &clock);
    clock.advance(2000);
    assert!(!ev.should_commit(&clock)); // time passed but no writes
    ev.record_writes(1);
    assert!(ev.should_commit(&clock));
    ev.note_commit(&clock);
    assert!(!ev.should_commit(&clock)); // just committed
    clock.advance(1500);
    ev.record_writes(1);
    assert!(ev.should_commit(&clock));
}

#[test]
fn insert_contains_len() {
    let mut dv = DeletionVector::new();
    assert!(dv.insert(GlobalId::new(5)));
    assert!(!dv.insert(GlobalId::new(5)));
    assert!(dv.contains(GlobalId::new(5)));
    assert!(!dv.contains(GlobalId::new(6)));
    assert_eq!(dv.len(), 1);
}

#[test]
fn difference_is_set_minus() {
    let mut a = DeletionVector::new();
    for i in [1u64, 2, 3, 4] {
        a.insert(GlobalId::new(i));
    }
    let mut b = DeletionVector::new();
    for i in [2u64, 4] {
        b.insert(GlobalId::new(i));
    }
    let only_a: Vec<u64> = a.difference(&b).iter().map(|g| g.get()).collect();
    assert_eq!(only_a, vec![1, 3]);
}

#[test]
fn serde_roundtrip() {
    let mut dv = DeletionVector::new();
    for i in [10u64, 20, 4_000_000_000] {
        dv.insert(GlobalId::new(i));
    }
    let bytes = rmp_serde::to_vec(&dv.raw_ids()).unwrap();
    let raw: Vec<u64> = rmp_serde::from_slice(&bytes).unwrap();
    let back = DeletionVector::from_raw_ids(&raw);
    assert_eq!(back.len(), 3);
    assert!(back.contains(GlobalId::new(4_000_000_000)));
}

fn seg(id: u64, lo: u64, hi: u64) -> SegmentRef {
    SegmentRef {
        id,
        id_lo: lo,
        id_hi: hi,
        count: hi - lo + 1,
    }
}

fn dv(deleted: &[u64]) -> DeletionVector {
    let mut d = DeletionVector::default();
    for &id in deleted {
        d.insert(GlobalId::new(id));
    }
    d
}

fn commit(s: &mut VersionStore, segs: Vec<SegmentRef>, deleted: &[u64]) -> u64 {
    s.commit("test".into(), None, None, segs, dv(deleted), 0)
        .version
}

#[test]
fn commit_links_parent_advances_head_and_next_version() {
    let mut s = VersionStore::new();
    assert_eq!(s.head(), None);
    let m0 = s.commit("manual".into(), None, None, vec![seg(0, 0, 9)], dv(&[]), 0);
    assert_eq!(m0.version, 0);
    assert_eq!(m0.parent, None);
    assert_eq!(s.head(), Some(0));
    let m1 = s.commit("manual".into(), None, None, vec![seg(1, 10, 19)], dv(&[]), 0);
    assert_eq!(m1.version, 1);
    assert_eq!(m1.parent, Some(0)); // parent-linked to previous head
    assert_eq!(s.head(), Some(1));
    assert_eq!(s.len(), 2);
}

#[test]
fn resolve_covers_version_tag_branch_and_head() {
    let mut s = VersionStore::new();
    assert_eq!(s.resolve(&VersionSelector::Head), None); // empty store
    let v0 = commit(&mut s, vec![seg(0, 0, 9)], &[]);
    let v1 = commit(&mut s, vec![seg(1, 10, 19)], &[]);
    s.set_tag("rel".into(), v0).unwrap();
    s.set_branch("dev".into(), v0).unwrap();
    assert_eq!(s.resolve(&VersionSelector::Version(v0)), Some(v0));
    assert_eq!(s.resolve(&VersionSelector::Version(999)), None);
    assert_eq!(s.resolve(&VersionSelector::Tag("rel".into())), Some(v0));
    assert_eq!(s.resolve(&VersionSelector::Tag("nope".into())), None);
    assert_eq!(s.resolve(&VersionSelector::Branch("dev".into())), Some(v0));
    assert_eq!(s.resolve(&VersionSelector::Branch("nope".into())), None);
    assert_eq!(s.resolve(&VersionSelector::Head), Some(v1)); // head == last commit
}

#[test]
fn set_tag_branch_and_diff_reject_unknown_version() {
    let mut s = VersionStore::new();
    commit(&mut s, vec![seg(0, 0, 9)], &[]);
    assert!(matches!(s.set_tag("t".into(), 999), Err(VersionError::NoSuchVersion(999))));
    assert!(matches!(s.set_branch("b".into(), 999), Err(VersionError::NoSuchVersion(999))));
    assert!(matches!(s.diff(0, 999), Err(VersionError::NoSuchVersion(999))));
    assert!(matches!(s.diff(999, 0), Err(VersionError::NoSuchVersion(999))));
}

#[test]
fn moving_tag_and_branch_repoints_without_duplicating() {
    let mut s = VersionStore::new();
    let v0 = commit(&mut s, vec![seg(0, 0, 9)], &[]);
    let v1 = commit(&mut s, vec![seg(1, 10, 19)], &[]);
    s.set_branch("main".into(), v0).unwrap();
    assert_eq!(s.resolve(&VersionSelector::Branch("main".into())), Some(v0));
    s.set_branch("main".into(), v1).unwrap(); // move, not create
    assert_eq!(s.resolve(&VersionSelector::Branch("main".into())), Some(v1));
    assert_eq!(s.branches().len(), 1);
    s.set_tag("t".into(), v0).unwrap();
    s.set_tag("t".into(), v1).unwrap();
    assert_eq!(s.resolve(&VersionSelector::Tag("t".into())), Some(v1));
    assert_eq!(s.tags().len(), 1);
}

#[test]
fn gc_retention_guards_protect_tagged_and_branch_head_versions() {
    // A tagged or branch-pointed version older than the keep_last window MUST survive GC,
    // and its segments must NOT be orphaned.
    let mut s = VersionStore::new();
    let v0 = commit(&mut s, vec![seg(0, 0, 9)], &[]);
    let v1 = commit(&mut s, vec![seg(1, 10, 19)], &[]);
    let v2 = commit(&mut s, vec![seg(2, 20, 29)], &[]); // head
    s.set_tag("release".into(), v0).unwrap();
    s.set_branch("b".into(), v1).unwrap();

    // keep_last=1 alone would drop v0 and v1: the tag/branch/head guards save them.
    let guarded = RetentionRules {
        keep_last: Some(1),
        keep_tagged: true,
        keep_branch_heads: true,
    };
    let r = s.plan_gc(&guarded);
    assert!(r.removed_versions.is_empty(), "tag/branch/head must protect v0,v1,v2");
    assert!(r.orphan_segments.is_empty());

    // Disable the guards: v0 (tag) and v1 (branch) drop; v2 stays (head + keep_last).
    let unguarded = RetentionRules {
        keep_last: Some(1),
        keep_tagged: false,
        keep_branch_heads: false,
    };
    let r2 = s.plan_gc(&unguarded);
    assert_eq!(r2.removed_versions, vec![v0, v1]);
    assert_eq!(r2.orphan_segments, vec![0, 1]); // their now-unreferenced segments
    let applied = s.gc(&unguarded);
    assert_eq!(applied, r2);
    assert_eq!(s.list().len(), 1);
    assert_eq!(s.list()[0].version, v2);
}

type PlainRef = (u64, u64, u64, u64);
type PlainManifest = (
    u64,
    Option<u64>,
    u64,
    String,
    Option<String>,
    Vec<PlainRef>,
    Vec<u64>,
);
type PlainSnapshot = (
    Vec<PlainManifest>,
    Option<u64>,
    Vec<(String, u64)>,
    Vec<(String, u64)>,
    u64,
);

fn plain_names(map: &NameMap) -> Vec<(String, u64)> {
    map.entries
        .iter()
        .map(|p| (p.name.clone(), p.version))
        .collect()
}

fn name_map(pairs: Vec<(String, u64)>) -> NameMap {
    let mut map = NameMap::new();
    for (name, version) in pairs {
        map.set(name, version);
    }
    map
}

#[test]
fn snapshot_round_trip_preserves_tags_branches_head_next_version() {
    let mut s = VersionStore::new();
    let v0 = s
        .commit(
            "m".into(),
            Some("first".into()),
            Some("autotag".into()),
            vec![seg(0, 0, 9)],
            dv(&[]),
            0,
        )
        .version;
    let v1 = commit(&mut s, vec![seg(1, 10, 19)], &[]);
    s.set_branch("dev".into(), v0).unwrap();
    s.set_tag("rel".into(), v1).unwrap();

    let snap = s.snapshot();
    let plain: PlainSnapshot = (
        snap.manifests
            .iter()
            .map(|m| {
                (
                    m.version,
                    m.parent,
                    m.created_at_ms,
                    m.trigger.clone(),
                    m.message.clone(),
                    m.segments
                        .iter()
                        .map(|r| (r.id, r.id_lo, r.id_hi, r.count))
                        .collect(),
                    m.deletions.raw_ids(),
                )
            })
            .collect(),
        snap.head,
        plain_names(&snap.branches),
        plain_names(&snap.tags),
        snap.next_version,
    );
    let bytes = rmp_serde::to_vec(&plain).unwrap();
    let (manifests, head, branches, tags, next_version): PlainSnapshot =
        rmp_serde::from_slice(&bytes).unwrap();
    let snap2 = VersionStoreSnapshot {
        manifests: manifests
            .into_iter()
            .map(|(version, parent, created_at_ms, trigger, message, refs, deleted)| {
                Arc::new(Manifest {
                    version,
                    parent,
                    created_at_ms,
                    trigger,
                    message,
                    segments: refs
                        .into_iter()
                        .map(|(id, id_lo, id_hi, count)| SegmentRef {
                            id,
                            id_lo,
                            id_hi,
                            count,
                        })
                        .collect(),
                    deletions: DeletionVector::from_raw_ids(&deleted),
                })
            })
            .collect(),
        head,
        branches: name_map(branches),
        tags: name_map(tags),
        next_version,
    };
    let mut s2 = VersionStore::from_snapshot(snap2);

    assert_eq!(s2.len(), 2);
    assert_eq!(s2.head(), Some(v1));
    assert_eq!(s2.resolve(&VersionSelector::Branch("dev".into())), Some(v0));
    assert_eq!(s2.resolve(&VersionSelector::Tag("rel".into())), Some(v1));
    assert_eq!(s2.resolve(&VersionSelector::Tag("autotag".into())), Some(v0));
    assert_eq!(s2.get(v0).unwrap().message.as_deref(), Some("first"));
    // next_version restored: a new commit must not reuse an existing id.
    let v2 = commit(&mut s2, vec![seg(2, 20, 29)], &[]);
    assert_eq!(v2, 2);
}

#[test]
fn diff_reports_added_and_removed_accounting_for_deletions() {
    let mut s = VersionStore::new();
    let v0 = commit(&mut s, vec![seg(0, 0, 4)], &[]); // live {0,1,2,3,4}
    // v1: same range with 2 deleted, plus a new segment for 5,6.
    let v1 = commit(&mut s, vec![seg(0, 0, 4), seg(1, 5, 6)], &[2]); // live {0,1,3,4,5,6}
    let d = s.diff(v0, v1).unwrap();
    assert_eq!(d.added, vec![5, 6]);
    assert_eq!(d.removed, vec![2]);
    let reverse = s.diff(v1, v0).unwrap();
    assert_eq!(reverse.added, d.removed);
    assert_eq!(reverse.removed, d.added);
    assert!(s.diff(v0, v0).unwrap().added.is_empty());
}

#[test]
fn live_ids_reach_the_largest_id() {
    let mut s = VersionStore::new();
    let m = s.commit(
        "m".into(),
        None,
        None,
        vec![seg(0, u64::MAX - 2, u64::MAX), seg(1, 3, 2)],
        dv(&[u64::MAX - 1]),
        7,
    );
    assert_eq!(VersionStore::live_ids(&m), vec![u64::MAX - 2, u64::MAX]);
    assert_eq!(m.live_count(), 2);
    assert_eq!(m.segment_ids(), vec![0, 1]);
    assert_eq!(m.created_at_ms, 7);
    assert_eq!(s.all_referenced_segments(), vec![0, 1]);
}

#[test]
fn live_count_subtracts_only_tombstones_inside_the_ranges() {
    let mut s = VersionStore::new();
    let m = s.commit("m".into(), None, None, vec![seg(0, 4, 5)], dv(&[1, 2, 3]), 0);
    assert_eq!(m.live_count(), 2);
    let m = s.commit("m".into(), None, None, vec![seg(0, 0, 4)], dv(&[2, 100]), 0);
    assert_eq!(m.live_count(), 4);
    // A segment may hold fewer rows than its range spans.
    let sparse = SegmentRef { id: 1, id_lo: 0, id_hi: 9, count: 1 };
    let m = s.commit("m".into(), None, None, vec![sparse], dv(&[2, 3]), 0);
    assert_eq!(m.live_count(), 0);
}

#[test]
fn names_of_dropped_versions_stand_for_nothing() {
    let mut s = VersionStore::new();
    let v0 = commit(&mut s, vec![seg(0, 0, 9)], &[]);
    s.set_tag("old".into(), v0).unwrap();
    s.set_branch("side".into(), v0).unwrap();
    let v1 = commit(&mut s, vec![seg(0, 0, 9)], &[]);
    s.set_tag("new".into(), v1).unwrap();
    let rules = RetentionRules {
        keep_last: Some(1),
        keep_tagged: false,
        keep_branch_heads: false,
    };
    assert_eq!(s.gc(&rules).removed_versions, vec![v0]);
    assert_eq!(s.resolve(&VersionSelector::Tag("old".into())), None);
    assert_eq!(s.resolve(&VersionSelector::Branch("side".into())), None);
    assert_eq!(s.resolve(&VersionSelector::Tag("new".into())), Some(v1));
    assert_eq!(s.resolve(&VersionSelector::Head), Some(v1));
}

#[test]
fn versions_are_not_reused_after_gc() {
    let mut s = VersionStore::new();
    let rules = RetentionRules {
        keep_last: Some(0),
        keep_tagged: false,
        keep_branch_heads: false,
    };
    let mut last = None;
    for _ in 0..5 {
        let v = commit(&mut s, vec![], &[]);
        assert!(last < Some(v));
        assert_eq!(s.get(v).unwrap().parent, last);
        last = Some(v);
        s.gc(&rules);
        assert_eq!(s.len(), 1);
    }
    assert_eq!(last, Some(4));
}

struct CountingClock(AtomicU64);

impl Clock for CountingClock {
    fn now_ms(&self) -> u64 {
        self.0.fetch_add(1, Ordering::Relaxed)
    }
}

#[test]
fn the_clock_is_read_only_where_an_interval_needs_it() {
    let clock = CountingClock(AtomicU64::new(0));
    let reads = || clock.0.load(Ordering::Relaxed);
    let mut ev = TriggerEvaluator::new(VersioningPolicy::every_n_writes(2), &clock);
    let start = reads();
    assert!(!ev.should_commit(&clock));
    ev.record_writes(2);
    assert!(ev.should_commit(&clock));
    assert_eq!(reads(), start);
    let policy = VersioningPolicy { every_n_writes: None, interval_ms: Some(1000) };
    let mut ev = TriggerEvaluator::new(policy, &clock);
    let start = reads();
    assert!(!ev.should_commit(&clock));
    assert_eq!(reads(), start);
    ev.record_writes(1);
    assert!(!ev.should_commit(&clock));
    assert_eq!(reads(), start + 1);
}

#[test]
fn pending_writes_are_recorded_less_committed() {
    let clock = CountingClock(AtomicU64::new(0));
    let mut ev = TriggerEvaluator::new(VersioningPolicy::every_n_writes(7), &clock);
    let (mut recorded, mut commits) = (0u64, 0u64);
    for n in [3u64, 20, 0, 5, 7, 1] {
        ev.record_writes(n);
        recorded += n;
        while ev.should_commit(&clock) {
            ev.note_commit(&clock);
            commits += 1;
        }
        assert_eq!(ev.pending_writes(), recorded - 7 * commits);
    }
    assert_eq!((commits, ev.pending_writes()), (36 / 7, 36 % 7));
}

#[test]
fn gc_keeps_everything_by_default_and_head_always() {
    let mut s = VersionStore::new();
    commit(&mut s, vec![seg(0, 0, 9)], &[]);
    let v1 = commit(&mut s, vec![seg(0, 0, 9), seg(1, 10, 19)], &[]);
    assert!(s.gc(&RetentionRules::default()).removed_versions.is_empty());
    let none = RetentionRules {
        keep_last: Some(0),
        keep_tagged: false,
        keep_branch_heads: false,
    };
    let report = s.gc(&none);
    assert_eq!(report.removed_versions, vec![0]);
    // Segment 0 is shared with the retained head, so nothing is orphaned.
    assert!(report.orphan_segments.is_empty());
    assert_eq!(s.head(), Some(v1));
    assert_eq!(s.resolve(&VersionSelector::Version(0)), None);
}

#[test]
fn errors_and_selectors_as_text() {
    assert_eq!(VersionError::NoSuchVersion(12).display(), "no such version: 12");
    assert_eq!(
        VersionError::Unresolvable.display(),
        "could not resolve version selector"
    );
    let selectors = [
        VersionSelector::Version(7),
        VersionSelector::Tag("a \"b\"\n".into()),
        VersionSelector::Branch("main".into()),
        VersionSelector::Head,
    ];
    for s in selectors {
        assert_eq!(s.display(), format!("{s:?}"));
    }
}

#[test]
fn clock_readings_keep_the_low_bits() {
    assert_eq!(clock_reading(None), 0);
    assert_eq!(clock_reading(Some(1_700_000_000_123)), 1_700_000_000_123);
    assert_eq!(clock_reading(Some(u128::from(u64::MAX) + 8)), 7);
}
