//! The commit history: versions, branches, tags, diff, and GC.
//!
//! [`VersionStore`] is the in-memory registry of [`Manifest`]s plus the movable pointers
//! over them (`HEAD`, branches, tags). It owns no segments, so it is pure metadata: commits
//! are cheap, diffs are set operations, and GC is reachability over retained manifests.

use std::sync::Arc;

use vstd::prelude::*;
use vstd::string::StringExecFns;

use crate::id::GlobalId;
use crate::idset;
use crate::text;
use crate::version::deletion::DeletionVector;
use crate::version::manifest;
use crate::version::manifest::Manifest;
use crate::version::manifest::SegmentRef;
use crate::version::names::NameMap;

verus! {

/// A snapshot of a [`VersionStore`] for durable persistence.
pub struct VersionStoreSnapshot {
    /// All committed manifests.
    pub manifests: Vec<Arc<Manifest>>,
    /// The current `HEAD`.
    pub head: Option<u64>,
    /// Branch pointers.
    pub branches: NameMap,
    /// Tag pointers.
    pub tags: NameMap,
    /// The next version id to allocate.
    pub next_version: u64,
}

/// Selects a version to read: an explicit id, a tag, a branch head, or `HEAD`.
#[derive(Debug)]
pub enum VersionSelector {
    /// An explicit version id.
    Version(u64),
    /// A tag name.
    Tag(String),
    /// A branch name (its current head).
    Branch(String),
    /// The current `HEAD`.
    Head,
}

/// The result of diffing two versions' live id sets.
#[derive(Debug, Clone, PartialEq, Eq)]
pub struct Diff {
    /// The `from` version.
    pub from: u64,
    /// The `to` version.
    pub to: u64,
    /// Ids live in `to` but not `from`, ascending.
    pub added: Vec<u64>,
    /// Ids live in `from` but not `to`, ascending.
    pub removed: Vec<u64>,
}

/// Which versions to keep during GC. Defaults keep everything reachable.
#[derive(Debug, Clone, Copy, PartialEq, Eq, Structural)]
pub struct RetentionRules {
    /// Keep at least this many most-recent versions (`None` = all).
    pub keep_last: Option<usize>,
    /// Always keep tagged versions.
    pub keep_tagged: bool,
    /// Always keep branch heads.
    pub keep_branch_heads: bool,
}

impl Default for RetentionRules {
    fn default() -> (rules: RetentionRules)
        ensures
            rules == (RetentionRules {
                keep_last: None,
                keep_tagged: true,
                keep_branch_heads: true,
            }),
    {
        RetentionRules { keep_last: None, keep_tagged: true, keep_branch_heads: true }
    }
}

/// What a GC pass would remove.
#[derive(Debug, Clone, PartialEq, Eq)]
pub struct GcReport {
    /// Versions dropped from the history, ascending.
    pub removed_versions: Vec<u64>,
    /// Segment ids no longer referenced by any retained version, ascending.
    pub orphan_segments: Vec<u64>,
}

/// Errors from version operations.
#[derive(Debug, Clone, Copy, PartialEq, Eq, Structural)]
pub enum VersionError {
    /// The referenced version does not exist.
    NoSuchVersion(u64),
    /// The selector could not be resolved.
    Unresolvable,
}

impl VersionError {
    /// The message of an error.
    pub open spec fn message(self) -> Seq<char> {
        match self {
            VersionError::NoSuchVersion(v) => "no such version: "@ + text::decimal(v as nat),
            VersionError::Unresolvable => "could not resolve version selector"@,
        }
    }

    /// The message of the error.
    pub fn display(&self) -> (shown: String)
        ensures
            shown@ == self.message(),
    {
        match self {
            VersionError::NoSuchVersion(v) => "no such version: ".to_owned().concat(
                text::decimal_text(*v).as_str(),
            ),
            VersionError::Unresolvable => "could not resolve version selector".to_owned(),
        }
    }
}

impl VersionSelector {
    /// A selector as text: its kind, and what it names in brackets.
    pub open spec fn shown(self) -> Seq<char> {
        match self {
            VersionSelector::Version(v) => "Version("@ + text::decimal(v as nat) + ")"@,
            VersionSelector::Tag(t) => "Tag("@ + text::quoted(t@) + ")"@,
            VersionSelector::Branch(b) => "Branch("@ + text::quoted(b@) + ")"@,
            VersionSelector::Head => "Head"@,
        }
    }

    /// The selector as text.
    pub fn display(&self) -> (shown: String)
        ensures
            shown@ == self.shown(),
    {
        match self {
            VersionSelector::Version(v) => "Version(".to_owned().concat(
                text::decimal_text(*v).as_str(),
            ).concat(")"),
            VersionSelector::Tag(t) => "Tag(".to_owned().concat(
                text::quote(t.as_str()).as_str(),
            ).concat(")"),
            VersionSelector::Branch(b) => "Branch(".to_owned().concat(
                text::quote(b.as_str()).as_str(),
            ).concat(")"),
            VersionSelector::Head => "Head".to_owned(),
        }
    }
}

/// The version ids of manifests, in order.
pub open spec fn versions_of(commits: Seq<Arc<Manifest>>) -> Seq<u64> {
    Seq::new(commits.len(), |i: int| commits[i].version)
}

/// The commits with `m` put under its version: replacing the manifest that is there, or in
/// its place by version.
pub open spec fn with_commit(commits: Seq<Arc<Manifest>>, m: Arc<Manifest>) -> Seq<Arc<Manifest>>
    decreases commits.len(),
{
    if commits.len() == 0 {
        seq![m]
    } else if m.version < commits.last().version {
        with_commit(commits.drop_last(), m).push(commits.last())
    } else if m.version == commits.last().version {
        commits.drop_last().push(m)
    } else {
        commits.push(m)
    }
}

/// The commits with each manifest put under its version in turn.
pub open spec fn with_commits(
    commits: Seq<Arc<Manifest>>,
    manifests: Seq<Arc<Manifest>>,
) -> Seq<Arc<Manifest>>
    decreases manifests.len(),
{
    if manifests.len() == 0 {
        commits
    } else {
        with_commit(with_commits(commits, manifests.drop_last()), manifests.last())
    }
}

/// A manifest put under its version is the one found there; the others stay.
pub proof fn lemma_with_commit(commits: Seq<Arc<Manifest>>, m: Arc<Manifest>)
    requires
        idset::ascending(versions_of(commits)),
    ensures
        idset::ascending(versions_of(with_commit(commits, m))),
        forall|x: Arc<Manifest>| #[trigger]
            with_commit(commits, m).contains(x) <==> x == m || (commits.contains(x) && x.version
                != m.version),
        forall|v: u64| #[trigger]
            versions_of(with_commit(commits, m)).contains(v) <==> v == m.version || versions_of(
                commits,
            ).contains(v),
    decreases commits.len(),
{
    let after = with_commit(commits, m);
    if commits.len() == 0 {
        assert(after[0] == m);
        assert(versions_of(after)[0] == m.version);
    } else {
        let rest = commits.drop_last();
        let last = commits.last();
        assert(last == commits[commits.len() - 1]);
        assert(idset::ascending(versions_of(rest))) by {
            assert forall|i: int, j: int| 0 <= i < j < rest.len() implies (#[trigger] versions_of(
                rest,
            )[i]) < (#[trigger] versions_of(rest)[j]) by {
                assert(versions_of(commits)[i] < versions_of(commits)[j]);
            }
        }
        assert forall|i: int| 0 <= i < rest.len() implies (#[trigger] rest[i]).version < last.version by {
            assert(versions_of(commits)[i] < versions_of(commits)[commits.len() - 1]);
        }
        lemma_with_commit(rest, m);
        let inner = with_commit(rest, m);
        assert(idset::ascending(versions_of(after))) by {
            assert forall|i: int, j: int| 0 <= i < j < after.len() implies (#[trigger] versions_of(
                after,
            )[i]) < (#[trigger] versions_of(after)[j]) by {
                if m.version < last.version {
                    if j < inner.len() {
                        assert(versions_of(inner)[i] < versions_of(inner)[j]);
                    } else {
                        assert(inner.contains(inner[i]));
                        if inner[i] != m {
                            assert(rest.contains(inner[i]));
                            assert(rest[rest.index_of(inner[i])].version < last.version);
                        }
                    }
                } else if m.version == last.version {
                    if j < rest.len() {
                        assert(versions_of(rest)[i] < versions_of(rest)[j]);
                    } else {
                        assert(rest[i].version < last.version);
                    }
                } else {
                    if j < commits.len() {
                        assert(versions_of(commits)[i] < versions_of(commits)[j]);
                    } else if i < rest.len() {
                        assert(rest[i].version < last.version);
                    }
                }
            }
        }
        assert forall|x: Arc<Manifest>| #[trigger] after.contains(x) <==> x == m || (
        commits.contains(x) && x.version != m.version) by {
            if commits.contains(x) {
                let i = commits.index_of(x);
                if i < rest.len() {
                    assert(rest[i] == x);
                    assert(rest.contains(x));
                }
            }
            if rest.contains(x) {
                let i = rest.index_of(x);
                assert(commits[i] == x);
                assert(rest[i].version < last.version);
            }
            if m.version < last.version {
                if inner.contains(x) {
                    assert(after[inner.index_of(x)] == x);
                }
                if x == last {
                    assert(after[after.len() - 1] == x);
                }
                if after.contains(x) {
                    let i = after.index_of(x);
                    if i < inner.len() {
                        assert(inner[i] == x);
                        assert(inner.contains(x));
                    } else {
                        assert(commits.contains(last));
                    }
                }
            } else if m.version == last.version {
                if rest.contains(x) {
                    assert(after[rest.index_of(x)] == x);
                }
                if x == m {
                    assert(after[after.len() - 1] == x);
                }
                if after.contains(x) {
                    let i = after.index_of(x);
                    if i < rest.len() {
                        assert(rest[i] == x);
                        assert(rest.contains(x));
                    }
                }
            } else {
                if commits.contains(x) {
                    assert(after[commits.index_of(x)] == x);
                    if !rest.contains(x) {
                        assert(x == last);
                    }
                }
                if x == m {
                    assert(after[after.len() - 1] == x);
                }
                if after.contains(x) {
                    let i = after.index_of(x);
                    if i < commits.len() {
                        assert(commits[i] == x);
                    }
                }
            }
        }
        assert forall|v: u64| #[trigger] versions_of(after).contains(v) <==> v == m.version
            || versions_of(commits).contains(v) by {
            if versions_of(after).contains(v) {
                let i = versions_of(after).index_of(v);
                assert(after.contains(after[i]));
                if after[i] != m {
                    let j = commits.index_of(after[i]);
                    assert(versions_of(commits)[j] == v);
                }
            }
            if versions_of(commits).contains(v) && v != m.version {
                let j = versions_of(commits).index_of(v);
                assert(commits.contains(commits[j]));
                assert(after.contains(commits[j]));
                let i = after.index_of(commits[j]);
                assert(versions_of(after)[i] == v);
            }
            if v == m.version {
                assert(after.contains(m));
                let i = after.index_of(m);
                assert(versions_of(after)[i] == v);
            }
        }
    }
}

/// A committed manifest is the one found under its version.
pub proof fn lemma_manifest_unique(store: VersionStore, m: Arc<Manifest>)
    requires
        store.wf(),
        store.commits@.contains(m),
    ensures
        store.exists_version(m.version),
        store.manifest(m.version) == m,
{
    let i = store.commits@.index_of(m);
    assert(store.versions()[i] == m.version);
    let j = store.versions().index_of(m.version);
    if i < j {
        assert(store.versions()[i] < store.versions()[j]);
    }
    if j < i {
        assert(store.versions()[j] < store.versions()[i]);
    }
}

/// Putting ascending manifests into an empty history gives exactly those manifests.
pub proof fn lemma_with_commits_ascending(manifests: Seq<Arc<Manifest>>)
    requires
        idset::ascending(versions_of(manifests)),
    ensures
        with_commits(Seq::empty(), manifests) == manifests,
    decreases manifests.len(),
{
    if manifests.len() > 0 {
        let shorter = manifests.drop_last();
        assert(idset::ascending(versions_of(shorter))) by {
            assert forall|i: int, j: int| 0 <= i < j < shorter.len() implies (#[trigger] versions_of(
                shorter,
            )[i]) < (#[trigger] versions_of(shorter)[j]) by {
                assert(versions_of(manifests)[i] < versions_of(manifests)[j]);
            }
        }
        lemma_with_commits_ascending(shorter);
        if shorter.len() > 0 {
            assert(versions_of(manifests)[shorter.len() - 1] < versions_of(manifests)[manifests.len()
                - 1]);
        }
        assert(with_commit(shorter, manifests.last()) =~= manifests);
    } else {
        assert(with_commits(Seq::empty(), manifests) =~= manifests);
    }
}

/// Whether `v` is among the `k` greatest of an ascending list.
pub open spec fn among_last(versions: Seq<u64>, k: nat, v: u64) -> bool {
    exists|i: int| 0 <= i < versions.len() && i + k >= versions.len() && #[trigger] versions[i] == v
}

/// The commit history and its movable pointers.
pub struct VersionStore {
    /// The manifests, by ascending version.
    pub commits: Vec<Arc<Manifest>>,
    /// The current `HEAD`.
    pub head: Option<u64>,
    /// Branch pointers.
    pub branches: NameMap,
    /// Tag pointers.
    pub tags: NameMap,
    /// The next version id to allocate.
    pub next_version: u64,
}

impl VersionStore {
    /// The committed versions, ascending.
    pub open spec fn versions(&self) -> Seq<u64> {
        versions_of(self.commits@)
    }

    /// The history is in order, its manifests are well-formed, and names are distinct.
    pub open spec fn wf(&self) -> bool {
        &&& idset::ascending(self.versions())
        &&& self.branches.wf()
        &&& self.tags.wf()
        &&& forall|i: int| 0 <= i < self.commits@.len() ==> (#[trigger] self.commits@[i]).wf()
    }

    /// Whether a version exists.
    pub open spec fn exists_version(&self, v: u64) -> bool {
        self.versions().contains(v)
    }

    /// The manifest of an existing version.
    pub open spec fn manifest(&self, v: u64) -> Arc<Manifest> {
        self.commits@[self.versions().index_of(v)]
    }

    /// The version a selector names, whether or not it is still retained.
    pub open spec fn named(&self, selector: VersionSelector) -> Option<u64> {
        match selector {
            VersionSelector::Version(v) => Some(v),
            VersionSelector::Tag(t) => self.tags.at(t@),
            VersionSelector::Branch(b) => self.branches.at(b@),
            VersionSelector::Head => self.head,
        }
    }

    /// The version a selector stands for: the one it names, if that is a retained one. A
    /// name that a GC pass left behind stands for nothing.
    pub open spec fn resolved(&self, selector: VersionSelector) -> Option<u64> {
        match self.named(selector) {
            Some(v) => if self.exists_version(v) {
                Some(v)
            } else {
                None
            },
            None => None,
        }
    }

    /// Whether a version is kept under the rules. `HEAD` always is.
    pub open spec fn retains(&self, rules: RetentionRules, v: u64) -> bool {
        ||| self.head == Some(v)
        ||| rules.keep_branch_heads && self.branches.points_at(v)
        ||| rules.keep_tagged && self.tags.points_at(v)
        ||| match rules.keep_last {
            Some(k) => among_last(self.versions(), k as nat, v),
            None => self.exists_version(v),
        }
    }

    /// Whether a segment is referenced by a version that is kept.
    pub open spec fn kept_segment(&self, rules: RetentionRules, segment: u64) -> bool {
        exists|i: int|
            0 <= i < self.commits@.len() && self.retains(rules, (#[trigger] self.commits@[i]).version)
                && self.commits@[i].references(segment)
    }

    /// Whether a segment is referenced by a version that is dropped.
    pub open spec fn dropped_segment(&self, rules: RetentionRules, segment: u64) -> bool {
        exists|i: int|
            0 <= i < self.commits@.len() && !self.retains(rules, (#[trigger] self.commits@[i]).version)
                && self.commits@[i].references(segment)
    }

    /// What a GC pass under the rules removes.
    pub open spec fn is_gc_report(&self, rules: RetentionRules, report: GcReport) -> bool {
        &&& idset::ascending(report.removed_versions@)
        &&& idset::ascending(report.orphan_segments@)
        &&& forall|v: u64| #[trigger]
            report.removed_versions@.contains(v) <==> self.exists_version(v) && !self.retains(
                rules,
                v,
            )
        &&& forall|s: u64| #[trigger]
            report.orphan_segments@.contains(s) <==> self.dropped_segment(rules, s)
                && !self.kept_segment(rules, s)
    }

    /// Whether `after` is this store with `m` committed on top of `HEAD`, and tagged if a
    /// tag is given.
    pub open spec fn commits_to(
        &self,
        after: VersionStore,
        m: Arc<Manifest>,
        tag: Option<Seq<char>>,
    ) -> bool {
        &&& m.version == self.next_version
        &&& m.parent == self.head
        &&& after.commits@ == with_commit(self.commits@, m)
        &&& after.head == Some(m.version)
        &&& after.next_version == self.next_version + 1
        &&& after.branches == self.branches
        &&& forall|name: Seq<char>| #[trigger]
            after.tags.at(name) == if tag == Some(name) {
                Some(m.version)
            } else {
                self.tags.at(name)
            }
    }

    /// An empty store.
    pub fn new() -> (store: VersionStore)
        ensures
            store.wf(),
            store.commits@.len() == 0,
            store.head is None,
            store.next_version == 0,
            store.branches.pairs().len() == 0,
            store.tags.pairs().len() == 0,
    {
        VersionStore {
            commits: Vec::new(),
            head: None,
            branches: NameMap::new(),
            tags: NameMap::new(),
            next_version: 0,
        }
    }

    /// Puts a manifest under its version.
    fn put(&mut self, m: Arc<Manifest>)
        requires
            idset::ascending(old(self).versions()),
        ensures
            final(self).commits@ == with_commit(old(self).commits@, m),
            final(self).head == old(self).head,
            final(self).branches == old(self).branches,
            final(self).tags == old(self).tags,
            final(self).next_version == old(self).next_version,
    {
        let mut p: usize = self.commits.len();
        let ghost commits = self.commits@;
        let ghost target = with_commit(commits, m);
        proof {
            assert(commits.take(p as int) =~= commits);
            assert(target + commits.skip(p as int) =~= target);
        }
        while p > 0 && m.version < self.commits[p - 1].version
            invariant
                p <= commits.len(),
                commits == self.commits@,
                idset::ascending(versions_of(commits)),
                target == with_commit(commits.take(p as int), m) + commits.skip(p as int),
                target == with_commit(commits, m),
            decreases p,
        {
            proof {
                let shorter = commits.take(p as int);
                assert(shorter.drop_last() =~= commits.take(p - 1));
                assert(with_commit(commits.take(p - 1), m).push(commits[p - 1]) + commits.skip(
                    p as int,
                ) =~= with_commit(commits.take(p - 1), m) + commits.skip(p - 1));
            }
            p = p - 1;
        }
        if p > 0 && m.version == self.commits[p - 1].version {
            self.commits[p - 1] = m;
            proof {
                let shorter = commits.take(p as int);
                assert(shorter.last() == commits[p - 1]);
                assert(target =~= commits.update(p - 1, m));
            }
        } else {
            self.commits.insert(p, m);
            proof {
                let shorter = commits.take(p as int);
                if p > 0 {
                    assert(shorter.last() == commits[p - 1]);
                }
                assert(target =~= commits.insert(p as int, m));
            }
        }
    }

    /// Records a new commit on top of the current `HEAD`, advancing `HEAD` to it.
    pub fn commit(
        &mut self,
        trigger: String,
        message: Option<String>,
        tag: Option<String>,
        segments: Vec<SegmentRef>,
        deletions: DeletionVector,
        created_at_ms: u64,
    ) -> (m: Arc<Manifest>)
        requires
            old(self).wf(),
            deletions.wf(),
            old(self).next_version < u64::MAX,
        ensures
            final(self).wf(),
            old(self).commits_to(
                *final(self),
                m,
                match tag {
                    Some(name) => Some(name@),
                    None => None,
                },
            ),
            m.created_at_ms == created_at_ms,
            m.trigger == trigger,
            m.message == message,
            m.segments == segments,
            m.deletions == deletions,
    {
        let version: u64 = self.next_version;
        self.next_version = self.next_version + 1;
        let m = Arc::new(
            Manifest {
                version,
                parent: self.head,
                created_at_ms,
                trigger,
                message,
                segments,
                deletions,
            },
        );
        let ghost before = self.commits@;
        proof {
            lemma_with_commit(before, m);
        }
        self.put(m.clone());
        self.head = Some(version);
        proof {
            assert forall|i: int| 0 <= i < self.commits@.len() implies (#[trigger] self.commits@[i]).wf() by {
                assert(self.commits@.contains(self.commits@[i]));
                if self.commits@[i] != m {
                    let j = before.index_of(self.commits@[i]);
                    assert(before[j].wf());
                }
            }
        }
        if let Some(name) = tag {
            self.tags.set(name, version);
        }
        m
    }

    /// A snapshot of the whole store.
    pub fn snapshot(&self) -> (snapshot: VersionStoreSnapshot)
        ensures
            snapshot.manifests@ == self.commits@,
            snapshot.head == self.head,
            snapshot.branches.pairs() == self.branches.pairs(),
            snapshot.tags.pairs() == self.tags.pairs(),
            snapshot.next_version == self.next_version,
    {
        VersionStoreSnapshot {
            manifests: self.list(),
            head: self.head,
            branches: self.branches.copy(),
            tags: self.tags.copy(),
            next_version: self.next_version,
        }
    }

    /// Rebuilds a store from a snapshot (recovery). Where two manifests claim a version,
    /// the later one has it.
    pub fn from_snapshot(snapshot: VersionStoreSnapshot) -> (store: VersionStore)
        requires
            snapshot.branches.wf(),
            snapshot.tags.wf(),
            forall|i: int|
                0 <= i < snapshot.manifests@.len() ==> (#[trigger] snapshot.manifests@[i]).wf(),
        ensures
            store.wf(),
            store.commits@ == with_commits(Seq::empty(), snapshot.manifests@),
            store.head == snapshot.head,
            store.branches == snapshot.branches,
            store.tags == snapshot.tags,
            store.next_version == snapshot.next_version,
    {
        let mut store = VersionStore {
            commits: Vec::new(),
            head: snapshot.head,
            branches: snapshot.branches,
            tags: snapshot.tags,
            next_version: snapshot.next_version,
        };
        let manifests = snapshot.manifests;
        assert(with_commits(Seq::empty(), manifests@.take(0)) == Seq::<Arc<Manifest>>::empty());
        for i in 0..manifests.len()
            invariant
                store.wf(),
                store.head == snapshot.head,
                store.branches == snapshot.branches,
                store.tags == snapshot.tags,
                store.next_version == snapshot.next_version,
                forall|i: int| 0 <= i < manifests@.len() ==> (#[trigger] manifests@[i]).wf(),
                store.commits@ == with_commits(Seq::empty(), manifests@.take(i as int)),
        {
            let ghost before = store.commits@;
            let m = manifests[i].clone();
            proof {
                assert(manifests@.take(i + 1).drop_last() =~= manifests@.take(i as int));
                lemma_with_commit(before, m);
                assert(manifests@[i as int].wf());
            }
            store.put(m);
            proof {
                assert forall|j: int| 0 <= j < store.commits@.len() implies (
                #[trigger] store.commits@[j]).wf() by {
                    assert(store.commits@.contains(store.commits@[j]));
                    if store.commits@[j] != m {
                        let k = before.index_of(store.commits@[j]);
                        assert(before[k].wf());
                    }
                }
            }
        }
        assert(manifests@.take(manifests@.len() as int) =~= manifests@);
        store
    }

    /// All segment ids referenced by any version, ascending.
    pub fn all_referenced_segments(&self) -> (ids: Vec<u64>)
        ensures
            idset::ascending(ids@),
            forall|s: u64| #[trigger]
                ids@.contains(s) <==> exists|i: int|
                    0 <= i < self.commits@.len() && (#[trigger] self.commits@[i]).references(s),
    {
        let mut ids: Vec<u64> = Vec::new();
        for i in 0..self.commits.len()
            invariant
                idset::ascending(ids@),
                forall|s: u64| #[trigger]
                    ids@.contains(s) <==> exists|j: int|
                        0 <= j < i && (#[trigger] self.commits@[j]).references(s),
        {
            let ghost before = ids@;
            idset::include_all(&mut ids, &self.commits[i].segment_ids());
            proof {
                assert forall|s: u64| #[trigger]
                    ids@.contains(s) <==> exists|j: int|
                        0 <= j < i + 1 && (#[trigger] self.commits@[j]).references(s) by {
                    if ids@.contains(s) {
                        if before.contains(s) {
                            let j = choose|j: int|
                                0 <= j < i && (#[trigger] self.commits@[j]).references(s);
                            assert(self.commits@[j].references(s));
                        } else {
                            assert(self.commits@[i as int].references(s));
                        }
                    }
                    if exists|j: int|
                        0 <= j < i + 1 && (#[trigger] self.commits@[j]).references(s) {
                        let j = choose|j: int|
                            0 <= j < i + 1 && (#[trigger] self.commits@[j]).references(s);
                        if j < i {
                            assert(before.contains(s));
                        }
                    }
                }
            }
        }
        ids
    }

    /// The current `HEAD` version, if any commits exist.
    pub fn head(&self) -> (head: Option<u64>)
        ensures
            head == self.head,
    {
        self.head
    }

    /// The manifest for a version id.
    pub fn get(&self, version: u64) -> (m: Option<Arc<Manifest>>)
        requires
            self.wf(),
        ensures
            m is Some <==> self.exists_version(version),
            m matches Some(m) ==> m == self.manifest(version) && m.version == version && m.wf(),
    {
        let n: usize = self.commits.len();
        let mut i: usize = 0;
        while i < n
            invariant
                n == self.commits@.len(),
                i <= n,
                self.wf(),
                forall|j: int| 0 <= j < i ==> (#[trigger] self.versions()[j]) != version,
            decreases n - i,
        {
            if self.commits[i].version == version {
                proof {
                    assert(self.versions()[i as int] == version);
                    let k = self.versions().index_of(version);
                    if k < i {
                        assert(self.versions()[k] < self.versions()[i as int]);
                    }
                    if i < k {
                        assert(self.versions()[i as int] < self.versions()[k]);
                    }
                }
                return Some(self.commits[i].clone());
            }
            i = i + 1;
        }
        None
    }

    /// All manifests, oldest first.
    pub fn list(&self) -> (manifests: Vec<Arc<Manifest>>)
        ensures
            manifests@ == self.commits@,
    {
        let mut manifests: Vec<Arc<Manifest>> = Vec::with_capacity(self.commits.len());
        for i in 0..self.commits.len()
            invariant
                manifests@ == self.commits@.take(i as int),
        {
            manifests.push(self.commits[i].clone());
            assert(manifests@ =~= self.commits@.take(i + 1));
        }
        assert(manifests@ =~= self.commits@);
        manifests
    }

    /// The number of committed versions.
    pub fn len(&self) -> (n: usize)
        ensures
            n == self.versions().len(),
    {
        self.commits.len()
    }

    /// Whether there are no commits.
    pub fn is_empty(&self) -> (r: bool)
        ensures
            r == (self.versions().len() == 0),
    {
        self.commits.len() == 0
    }

    /// Whether a version exists.
    fn has_version(&self, version: u64) -> (r: bool)
        requires
            self.wf(),
        ensures
            r == self.exists_version(version),
    {
        self.get(version).is_some()
    }

    /// Resolves a selector to a concrete version id: always one that exists.
    pub fn resolve(&self, selector: &VersionSelector) -> (version: Option<u64>)
        requires
            self.wf(),
        ensures
            version == self.resolved(*selector),
            version matches Some(v) ==> self.exists_version(v),
    {
        let named = match selector {
            VersionSelector::Version(v) => Some(*v),
            VersionSelector::Tag(t) => self.tags.get(t),
            VersionSelector::Branch(b) => self.branches.get(b),
            VersionSelector::Head => self.head,
        };
        match named {
            Some(v) => if self.has_version(v) {
                Some(v)
            } else {
                None
            },
            None => None,
        }
    }

    /// Creates or moves a tag to a version. Errors if the version doesn't exist.
    pub fn set_tag(&mut self, name: String, version: u64) -> (r: Result<(), VersionError>)
        requires
            old(self).wf(),
        ensures
            final(self).wf(),
            r is Ok <==> old(self).exists_version(version),
            r matches Err(e) ==> e == VersionError::NoSuchVersion(version) && *final(self) == *old(
                self,
            ),
            final(self).commits == old(self).commits,
            final(self).head == old(self).head,
            final(self).branches == old(self).branches,
            final(self).next_version == old(self).next_version,
            r is Ok ==> final(self).tags.at(name@) == Some(version) && forall|other: Seq<char>|
                other != name@ ==> #[trigger] final(self).tags.at(other) == old(self).tags.at(other),
            r is Ok ==> final(self).tags.pairs().len() == old(self).tags.pairs().len() + if old(
                self,
            ).tags.at(name@) is Some {
                0int
            } else {
                1int
            },
    {
        if !self.has_version(version) {
            return Err(VersionError::NoSuchVersion(version));
        }
        self.tags.set(name, version);
        Ok(())
    }

    /// Creates or moves a branch pointer to a version. Errors if the version doesn't exist.
    pub fn set_branch(&mut self, name: String, version: u64) -> (r: Result<(), VersionError>)
        requires
            old(self).wf(),
        ensures
            final(self).wf(),
            r is Ok <==> old(self).exists_version(version),
            r matches Err(e) ==> e == VersionError::NoSuchVersion(version) && *final(self) == *old(
                self,
            ),
            final(self).commits == old(self).commits,
            final(self).head == old(self).head,
            final(self).tags == old(self).tags,
            final(self).next_version == old(self).next_version,
            r is Ok ==> final(self).branches.at(name@) == Some(version) && forall|other: Seq<char>|
                other != name@ ==> #[trigger] final(self).branches.at(other) == old(
                    self,
                ).branches.at(other),
            r is Ok ==> final(self).branches.pairs().len() == old(self).branches.pairs().len()
                + if old(self).branches.at(name@) is Some {
                0int
            } else {
                1int
            },
    {
        if !self.has_version(version) {
            return Err(VersionError::NoSuchVersion(version));
        }
        self.branches.set(name, version);
        Ok(())
    }

    /// The tag-to-version map.
    pub fn tags(&self) -> (tags: &NameMap)
        ensures
            *tags == self.tags,
    {
        &self.tags
    }

    /// The branch-to-version map.
    pub fn branches(&self) -> (branches: &NameMap)
        ensures
            *branches == self.branches,
    {
        &self.branches
    }

    /// The live global ids of a version (segment ranges minus its deletions), ascending.
    pub fn live_ids(m: &Manifest) -> (live: Vec<u64>)
        ensures
            idset::ascending(live@),
            forall|id: u64| #[trigger] live@.contains(id) <==> m.covers_live(id),
    {
        let mut live: Vec<u64> = Vec::new();
        for i in 0..m.segments.len()
            invariant
                idset::ascending(live@),
                forall|id: u64| #[trigger]
                    live@.contains(id) <==> !m.deletions.ids().contains(id) && exists|j: int|
                        0 <= j < i && (#[trigger] m.segments@[j]).id_lo <= id && id
                            <= m.segments@[j].id_hi,
        {
            let seg = m.segments[i];
            let ghost before = live@;
            let mut id: u64 = seg.id_lo;
            let mut more = seg.id_lo <= seg.id_hi;
            while more
                invariant
                    idset::ascending(live@),
                    seg == m.segments@[i as int],
                    seg.id_lo <= id,
                    more ==> id <= seg.id_hi,
                    forall|x: u64| #[trigger]
                        live@.contains(x) <==> before.contains(x) || (!m.deletions.ids().contains(x)
                            && seg.id_lo <= x && x <= seg.id_hi && (more ==> x < id)),
                decreases (if more { seg.id_hi - id + 1 } else { 0int }),
            {
                let ghost middle = live@;
                if !m.deletions.contains(GlobalId::new(id)) {
                    idset::include_id(&mut live, id);
                }
                proof {
                    assert forall|x: u64| #[trigger] live@.contains(x) <==> before.contains(x) || (
                    !m.deletions.ids().contains(x) && seg.id_lo <= x && x <= seg.id_hi && x <= id) by {
                        assert(middle.contains(x) <==> before.contains(x) || (
                        !m.deletions.ids().contains(x) && seg.id_lo <= x && x <= seg.id_hi && x
                            < id));
                    }
                }
                if id < seg.id_hi {
                    id = id + 1;
                } else {
                    more = false;
                }
            }
            proof {
                assert forall|x: u64| #[trigger]
                    live@.contains(x) <==> !m.deletions.ids().contains(x) && exists|j: int|
                        0 <= j < i + 1 && (#[trigger] m.segments@[j]).id_lo <= x && x
                            <= m.segments@[j].id_hi by {
                    if live@.contains(x) {
                        if before.contains(x) {
                            let j = choose|j: int|
                                0 <= j < i && (#[trigger] m.segments@[j]).id_lo <= x && x
                                    <= m.segments@[j].id_hi;
                            assert(m.segments@[j].id_lo <= x);
                        } else {
                            assert(m.segments@[i as int].id_lo <= x);
                        }
                    }
                    if !m.deletions.ids().contains(x) && exists|j: int|
                        0 <= j < i + 1 && (#[trigger] m.segments@[j]).id_lo <= x && x
                            <= m.segments@[j].id_hi {
                        let j = choose|j: int|
                            0 <= j < i + 1 && (#[trigger] m.segments@[j]).id_lo <= x && x
                                <= m.segments@[j].id_hi;
                        if j < i {
                            assert(before.contains(x));
                        }
                    }
                }
            }
        }
        live
    }

    /// Diffs two versions' live id sets, as far as the manifests tell them: by segment ranges
    /// and tombstones.
    pub fn diff(&self, from: u64, to: u64) -> (r: Result<Diff, VersionError>)
        requires
            self.wf(),
        ensures
            match r {
                Ok(d) => {
                    &&& self.exists_version(from)
                    &&& self.exists_version(to)
                    &&& d.from == from
                    &&& d.to == to
                    &&& idset::ascending(d.added@)
                    &&& idset::ascending(d.removed@)
                    &&& forall|id: u64| #[trigger]
                        d.added@.contains(id) <==> self.manifest(to).covers_live(id)
                            && !self.manifest(from).covers_live(id)
                    &&& forall|id: u64| #[trigger]
                        d.removed@.contains(id) <==> self.manifest(from).covers_live(id)
                            && !self.manifest(to).covers_live(id)
                },
                Err(e) => e == VersionError::NoSuchVersion(
                    if !self.exists_version(from) {
                        from
                    } else {
                        to
                    },
                ),
            },
            r is Ok <==> self.exists_version(from) && self.exists_version(to),
    {
        let a = match self.get(from) {
            Some(m) => m,
            None => {
                return Err(VersionError::NoSuchVersion(from));
            },
        };
        let b = match self.get(to) {
            Some(m) => m,
            None => {
                return Err(VersionError::NoSuchVersion(to));
            },
        };
        let la = VersionStore::live_ids(&a);
        let lb = VersionStore::live_ids(&b);
        Ok(Diff { from, to, added: idset::minus(&lb, &la), removed: idset::minus(&la, &lb) })
    }

    /// The versions kept under the rules, ascending.
    fn retained_versions(&self, rules: &RetentionRules) -> (kept: Vec<u64>)
        requires
            self.wf(),
        ensures
            idset::ascending(kept@),
            forall|v: u64| #[trigger] kept@.contains(v) <==> self.retains(*rules, v),
    {
        let mut kept: Vec<u64> = Vec::new();
        if let Some(h) = self.head {
            idset::include_id(&mut kept, h);
        }
        if rules.keep_branch_heads {
            idset::include_all(&mut kept, &self.branches.versions());
        }
        if rules.keep_tagged {
            idset::include_all(&mut kept, &self.tags.versions());
        }
        let ghost base = kept@;
        assert forall|v: u64| #[trigger] base.contains(v) <==> self.head == Some(v) || (
        rules.keep_branch_heads && self.branches.points_at(v)) || (rules.keep_tagged
            && self.tags.points_at(v)) by {}
        let n: usize = self.commits.len();
        let first: usize = match rules.keep_last {
            Some(k) => if k < n {
                n - k
            } else {
                0
            },
            None => 0,
        };
        let mut i: usize = first;
        while i < n
            invariant
                n == self.commits@.len(),
                first <= i <= n,
                idset::ascending(kept@),
                forall|v: u64| #[trigger]
                    kept@.contains(v) <==> base.contains(v) || exists|j: int|
                        first <= j < i && #[trigger] self.versions()[j] == v,
            decreases n - i,
        {
            let ghost before = kept@;
            idset::include_id(&mut kept, self.commits[i].version);
            proof {
                assert forall|v: u64| #[trigger]
                    kept@.contains(v) <==> base.contains(v) || exists|j: int|
                        first <= j < i + 1 && #[trigger] self.versions()[j] == v by {
                    assert(before.contains(v) <==> base.contains(v) || exists|j: int|
                        first <= j < i && #[trigger] self.versions()[j] == v);
                    if v == self.commits@[i as int].version {
                        assert(self.versions()[i as int] == v);
                    }
                    if exists|j: int| first <= j < i + 1 && #[trigger] self.versions()[j] == v {
                        let j = choose|j: int|
                            first <= j < i + 1 && #[trigger] self.versions()[j] == v;
                        if j < i {
                            assert(self.versions()[j] == v);
                        }
                    }
                }
            }
            i = i + 1;
        }
        proof {
            assert forall|v: u64| #[trigger] kept@.contains(v) <==> self.retains(*rules, v) by {
                if exists|j: int| first <= j < n && #[trigger] self.versions()[j] == v {
                    let j = choose|j: int| first <= j < n && #[trigger] self.versions()[j] == v;
                    assert(self.versions().contains(v));
                    if let Some(k) = rules.keep_last {
                        assert(among_last(self.versions(), k as nat, v)) by {
                            assert(self.versions()[j] == v);
                        }
                    }
                }
                match rules.keep_last {
                    Some(k) => {
                        if among_last(self.versions(), k as nat, v) {
                            let j = choose|j: int|
                                0 <= j < self.versions().len() && j + k >= self.versions().len()
                                    && #[trigger] self.versions()[j] == v;
                            assert(first <= j < n && self.versions()[j] == v);
                        }
                    },
                    None => {
                        if self.exists_version(v) {
                            let j = self.versions().index_of(v);
                            assert(first <= j < n && self.versions()[j] == v);
                        }
                    },
                }
            }
        }
        kept
    }

    /// Computes a GC pass without mutating: which versions would be dropped and which
    /// segments would become orphaned. Never lists a segment still referenced by a retained
    /// version.
    pub fn plan_gc(&self, rules: &RetentionRules) -> (report: GcReport)
        requires
            self.wf(),
        ensures
            self.is_gc_report(*rules, report),
    {
        let kept = self.retained_versions(rules);
        let mut removed_versions: Vec<u64> = Vec::new();
        let mut kept_segments: Vec<u64> = Vec::new();
        let mut dropped_segments: Vec<u64> = Vec::new();
        for i in 0..self.commits.len()
            invariant
                self.wf(),
                idset::ascending(kept@),
                forall|v: u64| #[trigger] kept@.contains(v) <==> self.retains(*rules, v),
                idset::ascending(removed_versions@),
                idset::ascending(kept_segments@),
                idset::ascending(dropped_segments@),
                forall|v: u64| #[trigger]
                    removed_versions@.contains(v) <==> !self.retains(*rules, v) && exists|j: int|
                        0 <= j < i && #[trigger] self.versions()[j] == v,
                forall|s: u64| #[trigger]
                    kept_segments@.contains(s) <==> exists|j: int|
                        0 <= j < i && self.retains(*rules, (#[trigger] self.commits@[j]).version)
                            && self.commits@[j].references(s),
                forall|s: u64| #[trigger]
                    dropped_segments@.contains(s) <==> exists|j: int|
                        0 <= j < i && !self.retains(*rules, (#[trigger] self.commits@[j]).version)
                            && self.commits@[j].references(s),
        {
            let ghost removed0 = removed_versions@;
            let ghost kept0 = kept_segments@;
            let ghost dropped0 = dropped_segments@;
            let m = self.commits[i].clone();
            let ids = m.segment_ids();
            if idset::holds(&kept, m.version) {
                idset::include_all(&mut kept_segments, &ids);
            } else {
                idset::include_id(&mut removed_versions, m.version);
                idset::include_all(&mut dropped_segments, &ids);
            }
            proof {
                assert(self.versions()[i as int] == m.version);
                assert forall|v: u64| #[trigger]
                    removed_versions@.contains(v) <==> !self.retains(*rules, v) && exists|j: int|
                        0 <= j < i + 1 && #[trigger] self.versions()[j] == v by {
                    assert(removed0.contains(v) <==> !self.retains(*rules, v) && exists|j: int|
                        0 <= j < i && #[trigger] self.versions()[j] == v);
                    if exists|j: int| 0 <= j < i + 1 && #[trigger] self.versions()[j] == v {
                        let j = choose|j: int| 0 <= j < i + 1 && #[trigger] self.versions()[j] == v;
                        if j < i {
                            assert(self.versions()[j] == v);
                        }
                    }
                }
                assert forall|s: u64| #[trigger]
                    kept_segments@.contains(s) <==> exists|j: int|
                        0 <= j < i + 1 && self.retains(
                            *rules,
                            (#[trigger] self.commits@[j]).version,
                        ) && self.commits@[j].references(s) by {
                    if kept_segments@.contains(s) {
                        if kept0.contains(s) {
                            let j = choose|j: int|
                                0 <= j < i && self.retains(
                                    *rules,
                                    (#[trigger] self.commits@[j]).version,
                                ) && self.commits@[j].references(s);
                            assert(self.commits@[j].references(s));
                        } else {
                            assert(self.commits@[i as int].references(s));
                        }
                    }
                    if exists|j: int|
                        0 <= j < i + 1 && self.retains(
                            *rules,
                            (#[trigger] self.commits@[j]).version,
                        ) && self.commits@[j].references(s) {
                        let j = choose|j: int|
                            0 <= j < i + 1 && self.retains(
                                *rules,
                                (#[trigger] self.commits@[j]).version,
                            ) && self.commits@[j].references(s);
                        if j < i {
                            assert(kept0.contains(s));
                        }
                    }
                }
                assert forall|s: u64| #[trigger]
                    dropped_segments@.contains(s) <==> exists|j: int|
                        0 <= j < i + 1 && !self.retains(
                            *rules,
                            (#[trigger] self.commits@[j]).version,
                        ) && self.commits@[j].references(s) by {
                    if dropped_segments@.contains(s) {
                        if dropped0.contains(s) {
                            let j = choose|j: int|
                                0 <= j < i && !self.retains(
                                    *rules,
                                    (#[trigger] self.commits@[j]).version,
                                ) && self.commits@[j].references(s);
                            assert(self.commits@[j].references(s));
                        } else {
                            assert(self.commits@[i as int].references(s));
                        }
                    }
                    if exists|j: int|
                        0 <= j < i + 1 && !self.retains(
                            *rules,
                            (#[trigger] self.commits@[j]).version,
                        ) && self.commits@[j].references(s) {
                        let j = choose|j: int|
                            0 <= j < i + 1 && !self.retains(
                                *rules,
                                (#[trigger] self.commits@[j]).version,
                            ) && self.commits@[j].references(s);
                        if j < i {
                            assert(dropped0.contains(s));
                        }
                    }
                }
            }
        }
        proof {
            assert forall|v: u64| #[trigger]
                removed_versions@.contains(v) <==> self.exists_version(v) && !self.retains(
                    *rules,
                    v,
                ) by {
                if self.exists_version(v) {
                    let j = self.versions().index_of(v);
                    assert(self.versions()[j] == v);
                }
            }
        }
        GcReport {
            removed_versions,
            orphan_segments: idset::minus(&dropped_segments, &kept_segments),
        }
    }

    /// Applies a GC pass, dropping non-retained manifests. Returns the orphaned segment ids
    /// the caller may now delete from storage.
    pub fn gc(&mut self, rules: &RetentionRules) -> (report: GcReport)
        requires
            old(self).wf(),
        ensures
            final(self).wf(),
            old(self).is_gc_report(*rules, report),
            forall|m: Arc<Manifest>| #[trigger]
                final(self).commits@.contains(m) <==> old(self).commits@.contains(m) && old(
                    self,
                ).retains(*rules, m.version),
            final(self).head == old(self).head,
            final(self).branches == old(self).branches,
            final(self).tags == old(self).tags,
            final(self).next_version == old(self).next_version,
    {
        let report = self.plan_gc(rules);
        let mut kept: Vec<Arc<Manifest>> = Vec::new();
        let ghost commits = self.commits@;
        for i in 0..self.commits.len()
            invariant
                *self == *old(self),
                self.wf(),
                commits == self.commits@,
                self.is_gc_report(*rules, report),
                idset::ascending(versions_of(kept@)),
                forall|m: Arc<Manifest>| #[trigger]
                    kept@.contains(m) <==> commits.take(i as int).contains(m) && self.retains(
                        *rules,
                        m.version,
                    ),
        {
            let ghost before = kept@;
            let m = self.commits[i].clone();
            proof {
                assert(self.versions()[i as int] == m.version);
                assert(self.exists_version(m.version));
            }
            if !idset::holds(&report.removed_versions, m.version) {
                kept.push(m);
                proof {
                    assert forall|p: int, q: int| 0 <= p < q < kept@.len() implies (
                    #[trigger] versions_of(kept@)[p]) < (#[trigger] versions_of(kept@)[q]) by {
                        if q < before.len() {
                            assert(versions_of(before)[p] < versions_of(before)[q]);
                        } else {
                            assert(before.contains(before[p]));
                            let k = commits.take(i as int).index_of(before[p]);
                            assert(commits[k] == before[p]);
                            assert(self.versions()[k] < self.versions()[i as int]);
                        }
                    }
                }
            }
            proof {
                let prefix = commits.take(i as int);
                let longer = commits.take(i + 1);
                assert forall|x: Arc<Manifest>| #[trigger]
                    kept@.contains(x) <==> longer.contains(x) && self.retains(*rules, x.version) by {
                    assert(before.contains(x) <==> prefix.contains(x) && self.retains(
                        *rules,
                        x.version,
                    ));
                    if before.contains(x) {
                        assert(kept@[before.index_of(x)] == x);
                    }
                    if prefix.contains(x) {
                        assert(longer[prefix.index_of(x)] == x);
                    }
                    if longer.contains(x) {
                        let j = longer.index_of(x);
                        if j < i {
                            assert(prefix[j] == x);
                        } else if self.retains(*rules, x.version) {
                            assert(kept@[kept@.len() - 1] == x);
                        }
                    }
                    if kept@.contains(x) {
                        let j = kept@.index_of(x);
                        if j < before.len() {
                            assert(before[j] == x);
                        } else {
                            assert(longer[i as int] == x);
                        }
                    }
                }
            }
        }
        proof {
            assert(commits.take(commits.len() as int) =~= commits);
            assert forall|i: int| 0 <= i < kept@.len() implies (#[trigger] kept@[i]).wf() by {
                assert(kept@.contains(kept@[i]));
                let j = commits.index_of(kept@[i]);
                assert(commits[j].wf());
            }
        }
        self.commits = kept;
        report
    }
}

/// A snapshot restores the store it was taken of: the same commits, pointers and next
/// version.
pub proof fn law_snapshot_round_trip(
    store: VersionStore,
    snapshot: VersionStoreSnapshot,
    restored: VersionStore,
)
    requires
        store.wf(),
        snapshot.manifests@ == store.commits@,
        snapshot.head == store.head,
        snapshot.branches.pairs() == store.branches.pairs(),
        snapshot.tags.pairs() == store.tags.pairs(),
        snapshot.next_version == store.next_version,
        restored.commits@ == with_commits(Seq::empty(), snapshot.manifests@),
        restored.head == snapshot.head,
        restored.branches == snapshot.branches,
        restored.tags == snapshot.tags,
        restored.next_version == snapshot.next_version,
    ensures
        restored.commits@ == store.commits@,
        restored.head == store.head,
        restored.next_version == store.next_version,
        forall|name: Seq<char>| restored.branches.at(name) == store.branches.at(name),
        forall|name: Seq<char>| restored.tags.at(name) == store.tags.at(name),
        forall|s: VersionSelector| #[trigger] restored.resolved(s) == store.resolved(s),
{
    lemma_with_commits_ascending(store.commits@);
}

/// While every existing version is below the next one, a commit reuses no version and
/// leaves every earlier manifest as it was.
pub proof fn law_commit_preserves_history(store: VersionStore, m: Arc<Manifest>)
    requires
        store.wf(),
        m.version == store.next_version,
        forall|v: u64| store.exists_version(v) ==> v < store.next_version,
    ensures
        with_commit(store.commits@, m) == store.commits@.push(m),
        !store.exists_version(m.version),
{
    if store.commits@.len() > 0 {
        assert(store.versions()[store.commits@.len() - 1] == store.commits@.last().version);
        assert(store.exists_version(store.commits@.last().version));
    }
    assert(with_commit(store.commits@, m) =~= store.commits@.push(m));
}

/// A version that is tagged (when tags are kept), at the head of a branch (when branch
/// heads are kept), or `HEAD` itself survives GC, and GC orphans none of its segments.
pub proof fn law_gc_guards_protect(
    store: VersionStore,
    rules: RetentionRules,
    report: GcReport,
    v: u64,
    segment: u64,
)
    requires
        store.wf(),
        store.is_gc_report(rules, report),
        store.exists_version(v),
        store.head == Some(v) || (rules.keep_tagged && store.tags.points_at(v)) || (
        rules.keep_branch_heads && store.branches.points_at(v)),
        store.manifest(v).references(segment),
    ensures
        !report.removed_versions@.contains(v),
        !report.orphan_segments@.contains(segment),
{
    let i = store.versions().index_of(v);
    assert(store.commits@[i].version == v);
    assert(store.retains(rules, store.commits@[i].version));
    assert(store.kept_segment(rules, segment));
}

/// Without a limit on how many versions are kept, GC removes nothing.
pub proof fn law_gc_keeps_all_by_default(
    store: VersionStore,
    rules: RetentionRules,
    report: GcReport,
    v: u64,
)
    requires
        store.is_gc_report(rules, report),
        rules.keep_last is None,
    ensures
        !report.removed_versions@.contains(v),
{
}

/// Diffing a version with itself finds nothing, and swapping the two versions swaps what
/// was added with what was removed.
pub proof fn law_diff_is_symmetric(store: VersionStore, a: u64, b: u64, ab: Diff, ba: Diff)
    requires
        idset::ascending(ab.added@),
        idset::ascending(ba.removed@),
        forall|id: u64| #[trigger]
            ab.added@.contains(id) <==> store.manifest(b).covers_live(id) && !store.manifest(
                a,
            ).covers_live(id),
        forall|id: u64| #[trigger]
            ba.removed@.contains(id) <==> store.manifest(b).covers_live(id) && !store.manifest(
                a,
            ).covers_live(id),
    ensures
        ab.added@ == ba.removed@,
        a == b ==> ab.added@.len() == 0,
{
    idset::law_ascending_unique(ab.added@, ba.removed@);
    if a == b && ab.added@.len() > 0 {
        assert(ab.added@.contains(ab.added@[0]));
    }
}

} // verus!
