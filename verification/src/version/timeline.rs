//! Laws of a version history: what holds over any sequence of commits, tags, branches and
//! GC passes.

use std::sync::Arc;

use vstd::prelude::*;

use crate::version::manifest::Manifest;
use crate::version::store;
use crate::version::RetentionRules;
use crate::version::VersionSelector;
use crate::version::VersionStore;

verus! {

/// One operation on a version store.
pub enum StoreStep {
    /// A commit of a manifest, with the tag it is given.
    Commit(Arc<Manifest>, Option<Seq<char>>),
    /// A tag is created or moved.
    Tag(Seq<char>, u64),
    /// A branch is created or moved.
    Branch(Seq<char>, u64),
    /// A GC pass.
    Gc(RetentionRules),
}

/// Whether an operation leads from one store to another, as the operations' own contracts
/// state it.
pub open spec fn leads_to(before: VersionStore, step: StoreStep, after: VersionStore) -> bool {
    match step {
        StoreStep::Commit(m, tag) => before.commits_to(after, m, tag),
        StoreStep::Tag(name, version) => {
            &&& before.exists_version(version)
            &&& after.commits == before.commits
            &&& after.head == before.head
            &&& after.branches == before.branches
            &&& after.next_version == before.next_version
            &&& after.tags.at(name) == Some(version)
            &&& forall|other: Seq<char>|
                other != name ==> #[trigger] after.tags.at(other) == before.tags.at(other)
        },
        StoreStep::Branch(name, version) => {
            &&& before.exists_version(version)
            &&& after.commits == before.commits
            &&& after.head == before.head
            &&& after.tags == before.tags
            &&& after.next_version == before.next_version
            &&& after.branches.at(name) == Some(version)
            &&& forall|other: Seq<char>|
                other != name ==> #[trigger] after.branches.at(other) == before.branches.at(other)
        },
        StoreStep::Gc(rules) => {
            &&& forall|m: Arc<Manifest>| #[trigger]
                after.commits@.contains(m) <==> before.commits@.contains(m) && before.retains(
                    rules,
                    m.version,
                )
            &&& after.head == before.head
            &&& after.branches == before.branches
            &&& after.tags == before.tags
            &&& after.next_version == before.next_version
        },
    }
}

/// Every version there is, or that a name stands for, was handed out before the next one.
pub open spec fn handed_out(store: VersionStore) -> bool {
    &&& forall|v: u64| #[trigger] store.exists_version(v) ==> v < store.next_version
    &&& forall|name: Seq<char>|
        (#[trigger] store.tags.at(name)) matches Some(v) ==> v < store.next_version
    &&& forall|name: Seq<char>|
        (#[trigger] store.branches.at(name)) matches Some(v) ==> v < store.next_version
    &&& store.head matches Some(v) ==> v < store.next_version
}

/// A new store has handed out nothing.
pub proof fn law_new_store_is_fresh(store: VersionStore)
    requires
        store.commits@.len() == 0,
        store.head is None,
        store.branches.pairs().len() == 0,
        store.tags.pairs().len() == 0,
    ensures
        handed_out(store),
{
}

/// Whether the stores follow each other by the steps.
pub open spec fn is_history(stores: Seq<VersionStore>, steps: Seq<StoreStep>) -> bool {
    &&& stores.len() == steps.len() + 1
    &&& forall|i: int| 0 <= i < stores.len() ==> (#[trigger] stores[i]).wf()
    &&& forall|i: int|
        0 <= i < steps.len() ==> leads_to(stores[i], #[trigger] steps[i], stores[i + 1])
    &&& handed_out(stores[0])
}

/// A version that exists is that of a manifest.
proof fn lemma_exists_version(store: VersionStore, v: u64)
    requires
        store.exists_version(v),
    ensures
        store.commits@.contains(store.manifest(v)),
        store.manifest(v).version == v,
{
    let i = store.versions().index_of(v);
    assert(store.commits@[i].version == v);
}

/// The next version never falls, and stays above every version there is.
proof fn lemma_next_version(stores: Seq<VersionStore>, steps: Seq<StoreStep>, i: int, j: int)
    requires
        is_history(stores, steps),
        0 <= i <= j < stores.len(),
    ensures
        stores[i].next_version <= stores[j].next_version,
        handed_out(stores[j]),
    decreases j,
{
    if j > 0 {
        let before = stores[j - 1];
        let after = stores[j];
        if i < j {
            lemma_next_version(stores, steps, i, j - 1);
        } else {
            lemma_next_version(stores, steps, j - 1, j - 1);
        }
        assert(leads_to(before, steps[j - 1], after));
        assert(before.wf() && after.wf());
        assert forall|v: u64| #[trigger] after.exists_version(v) implies v < after.next_version by {
            match steps[j - 1] {
                StoreStep::Commit(m, _) => {
                    store::lemma_with_commit(before.commits@, m);
                    assert(after.versions().contains(v) <==> v == m.version
                        || before.versions().contains(v));
                    if before.exists_version(v) {
                        assert(v < before.next_version);
                    }
                },
                StoreStep::Gc(_) => {
                    lemma_exists_version(after, v);
                    let m = after.manifest(v);
                    assert(before.commits@.contains(m));
                    store::lemma_manifest_unique(before, m);
                    assert(before.exists_version(v));
                },
                _ => {
                    assert(before.exists_version(v));
                },
            }
        }
        assert forall|name: Seq<char>| (#[trigger] after.tags.at(name)) is Some implies after.tags.at(
            name,
        )->0 < after.next_version by {
            if before.tags.at(name) is Some {
                assert(before.tags.at(name)->0 < before.next_version);
            }
        }
        assert forall|name: Seq<char>| (#[trigger] after.branches.at(name)) is Some implies after.branches.at(
            name,
        )->0 < after.next_version by {
            if before.branches.at(name) is Some {
                assert(before.branches.at(name)->0 < before.next_version);
            }
        }
    }
}

/// A version is never reused, even after a GC pass dropped it: over any sequence of
/// commits, tags, branches and GC passes, a commit's version is above that of every earlier
/// commit and above every version that existed at any time before.
pub proof fn law_versions_are_never_reused(
    stores: Seq<VersionStore>,
    steps: Seq<StoreStep>,
    i: int,
    j: int,
    v: u64,
)
    requires
        is_history(stores, steps),
        0 <= i <= j < steps.len(),
        steps[j] is Commit,
    ensures
        stores[i].exists_version(v) ==> v < steps[j]->Commit_0.version,
        i < j && steps[i] is Commit ==> steps[i]->Commit_0.version < steps[j]->Commit_0.version,
{
    lemma_next_version(stores, steps, i, j);
    lemma_next_version(stores, steps, i, i);
    assert(leads_to(stores[j], steps[j], stores[j + 1]));
    if i < j {
        lemma_next_version(stores, steps, i + 1, j);
        assert(leads_to(stores[i], steps[i], stores[i + 1]));
    }
}

/// A commit is a child of the head it was made on, becomes the head, and is found under
/// its version and its tag; every other version, tag and branch is as it was.
pub proof fn law_commit_extends_history(
    before: VersionStore,
    m: Arc<Manifest>,
    tag: Option<Seq<char>>,
    after: VersionStore,
)
    requires
        before.wf(),
        after.wf(),
        handed_out(before),
        before.commits_to(after, m, tag),
    ensures
        m.parent == before.head,
        !before.exists_version(m.version),
        after.exists_version(m.version),
        after.manifest(m.version) == m,
        after.head == Some(m.version),
        after.resolved(VersionSelector::Head) == Some(m.version),
        forall|t: String| tag == Some(t@) ==> #[trigger] after.resolved(VersionSelector::Tag(t)) == Some(
            m.version,
        ),
        forall|t: String| tag != Some(t@) ==> #[trigger] after.resolved(VersionSelector::Tag(t))
            == before.resolved(VersionSelector::Tag(t)),
        forall|b: String| #[trigger] after.resolved(VersionSelector::Branch(b)) == before.resolved(
            VersionSelector::Branch(b),
        ),
        forall|v: u64| #[trigger]
            before.exists_version(v) ==> after.exists_version(v) && after.manifest(v)
                == before.manifest(v),
{
    store::lemma_with_commit(before.commits@, m);
    assert(after.commits@.contains(m));
    store::lemma_manifest_unique(after, m);
    assert forall|v: u64| #[trigger] after.exists_version(v) <==> v == m.version
        || before.exists_version(v) by {
        assert(after.versions().contains(v) <==> v == m.version || before.versions().contains(v));
    }
    assert forall|t: String| tag != Some(t@) implies #[trigger] after.resolved(
        VersionSelector::Tag(t),
    ) == before.resolved(VersionSelector::Tag(t)) by {
        assert(after.tags.at(t@) == before.tags.at(t@));
    }
    assert forall|b: String| #[trigger] after.resolved(VersionSelector::Branch(b))
        == before.resolved(VersionSelector::Branch(b)) by {
        assert(after.branches.at(b@) == before.branches.at(b@));
    }
    assert forall|v: u64| #[trigger] before.exists_version(v) implies after.exists_version(v)
        && after.manifest(v) == before.manifest(v) by {
        lemma_exists_version(before, v);
        let kept = before.manifest(v);
        assert(after.commits@.contains(kept));
        store::lemma_manifest_unique(after, kept);
    }
}

/// After a GC pass a tag, a branch, a version id or the head stands for what it stood for
/// before, if that version was retained, and else for nothing.
pub proof fn law_names_follow_their_versions(
    before: VersionStore,
    rules: RetentionRules,
    after: VersionStore,
    selector: VersionSelector,
    v: u64,
)
    requires
        before.wf(),
        after.wf(),
        leads_to(before, StoreStep::Gc(rules), after),
    ensures
        after.resolved(selector) == Some(v) <==> before.resolved(selector) == Some(v)
            && before.retains(rules, v),
{
    if after.exists_version(v) {
        lemma_exists_version(after, v);
        store::lemma_manifest_unique(before, after.manifest(v));
    }
    if before.exists_version(v) && before.retains(rules, v) {
        lemma_exists_version(before, v);
        assert(after.commits@.contains(before.manifest(v)));
        store::lemma_manifest_unique(after, before.manifest(v));
    }
}

} // verus!
