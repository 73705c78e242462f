//! What garbage collection keeps and what it removes.

use std::sync::Arc;

use vstd::prelude::*;

use crate::version::manifest::Manifest;
use crate::version::store;
use crate::version::GcReport;
use crate::version::RetentionRules;
use crate::version::VersionStore;

verus! {

/// How many of a store's versions are newer than one.
pub open spec fn newer_than(commits: Seq<Arc<Manifest>>, v: u64) -> nat {
    commits.filter(|m: Arc<Manifest>| m.version > v).len()
}

/// In an ascending history, the versions newer than that of a commit are the commits after
/// it.
proof fn lemma_newer(commits: Seq<Arc<Manifest>>, i: int)
    requires
        forall|a: int, b: int|
            0 <= a < b < commits.len() ==> (#[trigger] commits[a]).version < (
            #[trigger] commits[b]).version,
        0 <= i < commits.len(),
    ensures
        newer_than(commits, commits[i].version) == commits.len() - 1 - i,
    decreases commits.len(),
{
    reveal(Seq::filter);
    let v = commits[i].version;
    let newer = |m: Arc<Manifest>| m.version > v;
    let shorter = commits.drop_last();
    assert forall|a: int, b: int| 0 <= a < b < shorter.len() implies (
    #[trigger] shorter[a]).version < (#[trigger] shorter[b]).version by {
        assert(commits[a].version < commits[b].version);
    }
    if i == commits.len() - 1 {
        lemma_none_newer(shorter, v);
    } else {
        assert(shorter[i] == commits[i]);
        lemma_newer(shorter, i);
        assert(commits[i].version < commits[commits.len() - 1].version);
    }
}

proof fn lemma_none_newer(commits: Seq<Arc<Manifest>>, v: u64)
    ensures
        (forall|i: int| 0 <= i < commits.len() ==> (#[trigger] commits[i]).version <= v)
            ==> newer_than(commits, v) == 0,
    decreases commits.len(),
{
    reveal(Seq::filter);
    if commits.len() > 0 && forall|i: int|
        0 <= i < commits.len() ==> (#[trigger] commits[i]).version <= v {
        let shorter = commits.drop_last();
        assert forall|i: int| 0 <= i < shorter.len() implies (#[trigger] shorter[i]).version
            <= v by {
            assert(shorter[i] == commits[i]);
        }
        lemma_none_newer(shorter, v);
        assert(commits[commits.len() - 1].version <= v);
    }
}

proof fn lemma_ascending(store: VersionStore)
    requires
        store.wf(),
    ensures
        forall|a: int, b: int|
            0 <= a < b < store.commits@.len() ==> (#[trigger] store.commits@[a]).version < (
            #[trigger] store.commits@[b]).version,
{
    assert forall|a: int, b: int| 0 <= a < b < store.commits@.len() implies (
    #[trigger] store.commits@[a]).version < (#[trigger] store.commits@[b]).version by {
        assert(store.versions()[a] < store.versions()[b]);
    }
}

/// A version with fewer newer ones than the limit is retained.
pub proof fn lemma_recent_is_retained(store: VersionStore, rules: RetentionRules, i: int)
    requires
        store.wf(),
        rules.keep_last is Some,
        0 <= i < store.commits@.len(),
        newer_than(store.commits@, store.commits@[i].version) < rules.keep_last->0,
    ensures
        store.retains(rules, store.commits@[i].version),
{
    let v = store.commits@[i].version;
    lemma_ascending(store);
    lemma_newer(store.commits@, i);
    assert(store.versions()[i] == v);
    assert(store::among_last(store.versions(), rules.keep_last->0 as nat, v));
}

/// Under a limit of `k`, a version with fewer than `k` newer ones is never removed, and no
/// segment it references is orphaned.
pub proof fn law_gc_keeps_the_most_recent(
    store: VersionStore,
    rules: RetentionRules,
    report: GcReport,
    k: usize,
    i: int,
)
    requires
        store.wf(),
        store.is_gc_report(rules, report),
        rules.keep_last == Some(k),
        0 <= i < store.commits@.len(),
        newer_than(store.commits@, store.commits@[i].version) < k,
    ensures
        !report.removed_versions@.contains(store.commits@[i].version),
        forall|j: int|
            0 <= j < store.commits@[i].segments@.len() ==> !report.orphan_segments@.contains(
                (#[trigger] store.commits@[i].segments@[j]).id,
            ),
{
    let m = store.commits@[i];
    lemma_ascending(store);
    lemma_newer(store.commits@, i);
    assert(store.versions()[i] == m.version);
    assert(store::among_last(store.versions(), k as nat, m.version));
    assert(store.retains(rules, store.commits@[i].version));
    assert forall|j: int| 0 <= j < m.segments@.len() implies !report.orphan_segments@.contains(
        (#[trigger] m.segments@[j]).id,
    ) by {
        let ids = crate::version::manifest::ids_of(m.segments@);
        assert(ids[j] == m.segments@[j].id);
        assert(ids.contains(m.segments@[j].id));
        assert(store.commits@[i].references(m.segments@[j].id));
        assert(store.kept_segment(rules, m.segments@[j].id));
    }
}

/// Under a limit of `k`, GC leaves at least `k` versions, or all of them where there are
/// fewer: no more are removed than there are beyond the limit.
pub proof fn law_gc_leaves_enough_versions(
    store: VersionStore,
    rules: RetentionRules,
    report: GcReport,
    k: usize,
)
    requires
        store.wf(),
        store.is_gc_report(rules, report),
        rules.keep_last == Some(k),
    ensures
        report.removed_versions@.len() + k <= store.commits@.len() || report.removed_versions@.len()
            == 0,
{
    let n = store.commits@.len() as int;
    let removed = report.removed_versions@;
    lemma_ascending(store);
    if removed.len() > 0 {
        // Every removed version is one of the first `n - k` commits.
        let place = |v: u64| store.versions().index_of(v);
        assert forall|p: int| 0 <= p < removed.len() implies 0 <= #[trigger] place(removed[p]) < n
            - k && store.versions()[place(removed[p])] == removed[p] by {
            assert(removed.contains(removed[p]));
            assert(store.exists_version(removed[p]));
            let i = place(removed[p]);
            assert(store.commits@[i].version == removed[p]);
            lemma_newer(store.commits@, i);
            if newer_than(store.commits@, store.commits@[i].version) < k {
                law_gc_keeps_the_most_recent(store, rules, report, k, i);
            }
        }
        let places = Seq::new(removed.len(), |p: int| place(removed[p]));
        assert(places.no_duplicates()) by {
            assert forall|p: int, q: int|
                0 <= p < places.len() && 0 <= q < places.len() && p != q implies places[p]
                != places[q] by {
                assert(store.versions()[place(removed[p])] == removed[p]);
                assert(store.versions()[place(removed[q])] == removed[q]);
                if p < q {
                    assert(removed[p] < removed[q]);
                } else {
                    assert(removed[q] < removed[p]);
                }
            }
        }
        places.unique_seq_to_set();
        assert(0 <= place(removed[0]) < n - k);
        let all = vstd::set_lib::set_int_range(0, n - k);
        vstd::set_lib::lemma_int_range(0, n - k);
        assert(places.to_set().subset_of(all)) by {
            assert forall|x: int| places.to_set().contains(x) implies all.contains(x) by {
                let p = places.index_of(x);
                assert(0 <= place(removed[p]) < n - k);
            }
        }
        vstd::set_lib::lemma_len_subset(places.to_set(), all);
    }
}

/// `HEAD` is never removed; nor a version a tag stands for where tags are kept; nor one a
/// branch stands for where branch heads are kept; nor any at all without a limit.
pub proof fn law_gc_keeps_what_the_rules_name(
    store: VersionStore,
    rules: RetentionRules,
    report: GcReport,
    v: u64,
)
    requires
        store.wf(),
        store.is_gc_report(rules, report),
        ({
            ||| store.head == Some(v)
            ||| rules.keep_last is None
            ||| rules.keep_tagged && exists|i: int|
                0 <= i < store.tags.pairs().len() && (#[trigger] store.tags.pairs()[i]).1 == v
            ||| rules.keep_branch_heads && exists|i: int|
                0 <= i < store.branches.pairs().len() && (#[trigger] store.branches.pairs()[i]).1
                    == v
        }),
    ensures
        !report.removed_versions@.contains(v),
{
}

/// GC removes every version that no rule keeps: under a limit of `k`, one with at least `k`
/// newer versions that is not `HEAD`, has no tag where tags are kept, and is at the head of
/// no branch where branch heads are kept. Nothing else is removed.
pub proof fn law_gc_removes_what_no_rule_keeps(
    store: VersionStore,
    rules: RetentionRules,
    report: GcReport,
    k: usize,
    i: int,
)
    requires
        store.wf(),
        store.is_gc_report(rules, report),
        rules.keep_last == Some(k),
        0 <= i < store.commits@.len(),
    ensures
        ({
            let v = store.commits@[i].version;
            report.removed_versions@.contains(v) <==> {
                &&& newer_than(store.commits@, v) >= k
                &&& store.head != Some(v)
                &&& !(rules.keep_tagged && exists|j: int|
                    0 <= j < store.tags.pairs().len() && (#[trigger] store.tags.pairs()[j]).1 == v)
                &&& !(rules.keep_branch_heads && exists|j: int|
                    0 <= j < store.branches.pairs().len() && (
                    #[trigger] store.branches.pairs()[j]).1 == v)
            }
        }),
{
    let v = store.commits@[i].version;
    lemma_ascending(store);
    lemma_newer(store.commits@, i);
    assert(store.versions()[i] == v);
    assert(store.exists_version(v));
    assert forall|p: int| 0 <= p < store.versions().len() && #[trigger] store.versions()[p]
        == v implies p == i by {
        if p < i {
            assert(store.commits@[p].version < store.commits@[i].version);
        }
        if i < p {
            assert(store.commits@[i].version < store.commits@[p].version);
        }
    }
    if newer_than(store.commits@, v) < k {
        law_gc_keeps_the_most_recent(store, rules, report, k, i);
    }
}

/// A version that does not exist is not removed, and every removed version's segments are
/// orphaned exactly if no version that stays references them.
pub proof fn law_gc_orphans_what_nothing_references(
    store: VersionStore,
    rules: RetentionRules,
    report: GcReport,
    segment: u64,
)
    requires
        store.wf(),
        store.is_gc_report(rules, report),
    ensures
        report.orphan_segments@.contains(segment) <==> {
            &&& exists|i: int, j: int|
                0 <= i < store.commits@.len() && 0 <= j < store.commits@[i].segments@.len()
                    && report.removed_versions@.contains(store.commits@[i].version)
                    && (#[trigger] store.commits@[i].segments@[j]).id == segment
            &&& forall|i: int, j: int|
                0 <= i < store.commits@.len() && 0 <= j < store.commits@[i].segments@.len()
                    && !report.removed_versions@.contains(store.commits@[i].version) ==> (
                #[trigger] store.commits@[i].segments@[j]).id != segment
        },
        forall|v: u64| #[trigger]
            report.removed_versions@.contains(v) ==> exists|i: int|
                0 <= i < store.commits@.len() && (#[trigger] store.commits@[i]).version == v,
{
    assert forall|i: int| 0 <= i < store.commits@.len() implies
        #[trigger] report.removed_versions@.contains(store.commits@[i].version) == !store.retains(
        rules,
        store.commits@[i].version,
    ) by {
        assert(store.versions()[i] == store.commits@[i].version);
        assert(store.exists_version(store.commits@[i].version));
    }
    assert forall|i: int, s: u64| 0 <= i < store.commits@.len() implies
        #[trigger] store.commits@[i].references(s) == exists|j: int|
        0 <= j < store.commits@[i].segments@.len() && (
        #[trigger] store.commits@[i].segments@[j]).id == s by {
        let ids = crate::version::manifest::ids_of(store.commits@[i].segments@);
        if ids.contains(s) {
            let j = ids.index_of(s);
            assert(store.commits@[i].segments@[j].id == s);
        }
        if exists|j: int|
            0 <= j < store.commits@[i].segments@.len() && (
            #[trigger] store.commits@[i].segments@[j]).id == s {
            let j = choose|j: int|
                0 <= j < store.commits@[i].segments@.len() && (
                #[trigger] store.commits@[i].segments@[j]).id == s;
            assert(ids[j] == s);
        }
    }
    if store.dropped_segment(rules, segment) {
        let i = choose|i: int|
            0 <= i < store.commits@.len() && !store.retains(
                rules,
                (#[trigger] store.commits@[i]).version,
            ) && store.commits@[i].references(segment);
        assert(report.removed_versions@.contains(store.commits@[i].version));
        let j = choose|j: int|
            0 <= j < store.commits@[i].segments@.len() && (
            #[trigger] store.commits@[i].segments@[j]).id == segment;
        assert(store.commits@[i].segments@[j].id == segment);
    }
    if !store.kept_segment(rules, segment) {
        assert forall|i: int, j: int|
            0 <= i < store.commits@.len() && 0 <= j < store.commits@[i].segments@.len()
                && !report.removed_versions@.contains(store.commits@[i].version) implies (
        #[trigger] store.commits@[i].segments@[j]).id != segment by {
            if store.commits@[i].segments@[j].id == segment {
                assert(store.commits@[i].references(segment));
                assert(!report.removed_versions@.contains(store.commits@[i].version));
            }
        }
    } else {
        let i = choose|i: int|
            0 <= i < store.commits@.len() && store.retains(
                rules,
                (#[trigger] store.commits@[i]).version,
            ) && store.commits@[i].references(segment);
        assert(!report.removed_versions@.contains(store.commits@[i].version));
        let j = choose|j: int|
            0 <= j < store.commits@[i].segments@.len() && (
            #[trigger] store.commits@[i].segments@[j]).id == segment;
        assert(store.commits@[i].segments@[j].id == segment);
    }
    if exists|i: int, j: int|
        0 <= i < store.commits@.len() && 0 <= j < store.commits@[i].segments@.len()
            && report.removed_versions@.contains(store.commits@[i].version)
            && (#[trigger] store.commits@[i].segments@[j]).id == segment {
        let (i, j) = choose|i: int, j: int|
            0 <= i < store.commits@.len() && 0 <= j < store.commits@[i].segments@.len()
                && report.removed_versions@.contains(store.commits@[i].version)
                && (#[trigger] store.commits@[i].segments@[j]).id == segment;
        assert(store.commits@[i].references(segment));
        assert(report.removed_versions@.contains(store.commits@[i].version));
        assert(!store.retains(rules, store.commits@[i].version));
        assert(store.dropped_segment(rules, segment));
    }
    assert forall|v: u64| #[trigger] report.removed_versions@.contains(v) implies exists|i: int|
        0 <= i < store.commits@.len() && (#[trigger] store.commits@[i]).version == v by {
        let i = store.versions().index_of(v);
        assert(store.commits@[i].version == v);
    }
}

} // verus!
