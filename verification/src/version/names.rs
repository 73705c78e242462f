//! Named version pointers: branches and tags.

use vstd::prelude::*;

verus! {

/// A name and the version it points at.
pub struct Pointer {
    /// The name.
    pub name: String,
    /// The version.
    pub version: u64,
}

/// Pointers as mathematical pairs.
pub open spec fn pairs_of(entries: Seq<Pointer>) -> Seq<(Seq<char>, u64)> {
    Seq::new(entries.len(), |i: int| (entries[i].name@, entries[i].version))
}

/// The version that a list of pairs gives a name.
pub open spec fn lookup(pairs: Seq<(Seq<char>, u64)>, name: Seq<char>) -> Option<u64>
    decreases pairs.len(),
{
    if pairs.len() == 0 {
        None
    } else if pairs.last().0 == name {
        Some(pairs.last().1)
    } else {
        lookup(pairs.drop_last(), name)
    }
}

/// No name occurs twice.
pub open spec fn distinct_names(pairs: Seq<(Seq<char>, u64)>) -> bool {
    forall|i: int, j: int| 0 <= i < j < pairs.len() ==> (#[trigger] pairs[i]).0 != (#[trigger] pairs[j]).0
}

/// Among distinct names, each pair is what its name looks up.
pub proof fn lemma_lookup(pairs: Seq<(Seq<char>, u64)>, name: Seq<char>)
    requires
        distinct_names(pairs),
    ensures
        forall|i: int|
            0 <= i < pairs.len() && (#[trigger] pairs[i]).0 == name ==> lookup(pairs, name) == Some(
                pairs[i].1,
            ),
        lookup(pairs, name) is None <==> (forall|i: int|
            0 <= i < pairs.len() ==> (#[trigger] pairs[i]).0 != name),
        lookup(pairs, name) matches Some(v) ==> exists|i: int|
            0 <= i < pairs.len() && #[trigger] pairs[i] == (name, v),
    decreases pairs.len(),
{
    if pairs.len() > 0 {
        let shorter = pairs.drop_last();
        assert(distinct_names(shorter)) by {
            assert forall|i: int, j: int| 0 <= i < j < shorter.len() implies (#[trigger] shorter[i]).0 != (
            #[trigger] shorter[j]).0 by {
                assert(pairs[i].0 != pairs[j].0);
            }
        }
        lemma_lookup(shorter, name);
        assert(pairs.last() == pairs[pairs.len() - 1]);
        assert forall|i: int| 0 <= i < pairs.len() && (#[trigger] pairs[i]).0 == name implies lookup(
            pairs,
            name,
        ) == Some(pairs[i].1) by {
            if i < shorter.len() {
                assert(shorter[i] == pairs[i]);
                assert(pairs[i].0 != pairs[pairs.len() - 1].0);
            }
        }
        if pairs.last().0 == name {
            assert(pairs[pairs.len() - 1] == (name, pairs.last().1));
        } else {
            if let Some(v) = lookup(shorter, name) {
                let i = choose|i: int| 0 <= i < shorter.len() && #[trigger] shorter[i] == (name, v);
                assert(pairs[i] == (name, v));
            } else {
                assert forall|i: int| 0 <= i < pairs.len() implies (#[trigger] pairs[i]).0 != name by {
                    if i < shorter.len() {
                        assert(shorter[i].0 != name);
                    }
                }
            }
        }
    }
}

/// A map from names to versions.
pub struct NameMap {
    /// The pointers, in order of first appearance.
    pub entries: Vec<Pointer>,
}

impl NameMap {
    /// The name-version pairs, in order of first appearance.
    pub open spec fn pairs(&self) -> Seq<(Seq<char>, u64)> {
        pairs_of(self.entries@)
    }

    /// No name occurs twice.
    pub open spec fn wf(&self) -> bool {
        distinct_names(self.pairs())
    }

    /// The version a name points at.
    pub open spec fn at(&self, name: Seq<char>) -> Option<u64> {
        lookup(self.pairs(), name)
    }

    /// Whether some name points at a version.
    pub open spec fn points_at(&self, version: u64) -> bool {
        exists|i: int| 0 <= i < self.pairs().len() && (#[trigger] self.pairs()[i]).1 == version
    }

    /// An empty map.
    pub fn new() -> (map: NameMap)
        ensures
            map.wf(),
            map.pairs() == Seq::<(Seq<char>, u64)>::empty(),
    {
        let map = NameMap { entries: Vec::new() };
        assert(map.pairs() =~= Seq::<(Seq<char>, u64)>::empty());
        map
    }

    /// The number of names.
    pub fn len(&self) -> (n: usize)
        ensures
            n == self.pairs().len(),
    {
        self.entries.len()
    }

    /// Whether there are no names.
    pub fn is_empty(&self) -> (r: bool)
        ensures
            r == (self.pairs().len() == 0),
    {
        self.entries.len() == 0
    }

    fn position(&self, name: &String) -> (p: usize)
        ensures
            p <= self.entries@.len(),
            p < self.entries@.len() ==> self.entries@[p as int].name@ == name@,
            forall|i: int| 0 <= i < p ==> (#[trigger] self.entries@[i]).name@ != name@,
    {
        let n: usize = self.entries.len();
        let mut i: usize = 0;
        while i < n
            invariant
                n == self.entries@.len(),
                i <= n,
                forall|j: int| 0 <= j < i ==> (#[trigger] self.entries@[j]).name@ != name@,
            decreases n - i,
        {
            if self.entries[i].name == *name {
                return i;
            }
            i = i + 1;
        }
        n
    }

    /// The version a name points at.
    pub fn get(&self, name: &String) -> (version: Option<u64>)
        requires
            self.wf(),
        ensures
            version == self.at(name@),
    {
        let p: usize = self.position(name);
        proof {
            lemma_lookup(self.pairs(), name@);
        }
        if p < self.entries.len() {
            assert(self.pairs()[p as int].0 == name@);
            Some(self.entries[p].version)
        } else {
            assert forall|i: int| 0 <= i < self.pairs().len() implies (#[trigger] self.pairs()[i]).0
                != name@ by {
                assert(self.entries@[i].name@ != name@);
            }
            None
        }
    }

    /// Points a name at a version, moving it if it exists.
    pub fn set(&mut self, name: String, version: u64)
        requires
            old(self).wf(),
        ensures
            final(self).wf(),
            final(self).at(name@) == Some(version),
            forall|other: Seq<char>|
                other != name@ ==> #[trigger] final(self).at(other) == old(self).at(other),
            final(self).pairs().len() == old(self).pairs().len() + if old(self).at(name@) is Some {
                0int
            } else {
                1int
            },
    {
        let ghost before = self.pairs();
        let ghost label = name@;
        let p: usize = self.position(&name);
        proof {
            lemma_lookup(before, label);
        }
        if p < self.entries.len() {
            assert(before[p as int].0 == label);
            self.entries[p] = Pointer { name, version };
            assert(self.pairs() =~= before.update(p as int, (label, version)));
        } else {
            assert forall|i: int| 0 <= i < before.len() implies (#[trigger] before[i]).0 != label by {
                assert(self.entries@[i].name@ != label);
            }
            self.entries.push(Pointer { name, version });
            assert(self.pairs() =~= before.push((label, version)));
        }
        proof {
            let after = self.pairs();
            assert(distinct_names(after)) by {
                assert forall|i: int, j: int| 0 <= i < j < after.len() implies (#[trigger] after[i]).0
                    != (#[trigger] after[j]).0 by {
                    if j < before.len() {
                        assert(before[i].0 != before[j].0);
                    }
                }
            }
            lemma_lookup(after, label);
            assert(after[p as int] == (label, version));
            assert forall|other: Seq<char>| other != label implies #[trigger] lookup(after, other)
                == lookup(before, other) by {
                lemma_lookup(after, other);
                lemma_lookup(before, other);
                if let Some(v) = lookup(before, other) {
                    let i = choose|i: int| 0 <= i < before.len() && #[trigger] before[i] == (other, v);
                    assert(after[i] == (other, v));
                }
                if let Some(v) = lookup(after, other) {
                    let i = choose|i: int| 0 <= i < after.len() && #[trigger] after[i] == (other, v);
                    assert(i < before.len());
                    assert(before[i] == (other, v));
                }
            }
        }
    }

    /// The versions pointed at.
    pub fn versions(&self) -> (versions: Vec<u64>)
        ensures
            forall|v: u64| versions@.contains(v) <==> self.points_at(v),
    {
        let mut versions: Vec<u64> = Vec::with_capacity(self.entries.len());
        for i in 0..self.entries.len()
            invariant
                versions@.len() == i,
                forall|j: int| 0 <= j < i ==> (#[trigger] versions@[j]) == self.entries@[j].version,
        {
            versions.push(self.entries[i].version);
        }
        proof {
            assert forall|v: u64| versions@.contains(v) <==> self.points_at(v) by {
                if versions@.contains(v) {
                    let i = versions@.index_of(v);
                    assert(self.pairs()[i].1 == v);
                }
                if self.points_at(v) {
                    let i = choose|i: int|
                        0 <= i < self.pairs().len() && (#[trigger] self.pairs()[i]).1 == v;
                    assert(versions@[i] == v);
                }
            }
        }
        versions
    }

    /// A copy with the same pairs.
    pub fn copy(&self) -> (copy: NameMap)
        ensures
            copy.pairs() == self.pairs(),
    {
        let mut entries: Vec<Pointer> = Vec::with_capacity(self.entries.len());
        for i in 0..self.entries.len()
            invariant
                entries@.len() == i,
                forall|j: int|
                    0 <= j < i ==> (#[trigger] entries@[j]).name@ == self.entries@[j].name@
                        && entries@[j].version == self.entries@[j].version,
        {
            entries.push(
                Pointer {
                    name: self.entries[i].name.clone(),
                    version: self.entries[i].version,
                },
            );
        }
        let copy = NameMap { entries };
        assert(copy.pairs() =~= self.pairs());
        copy
    }
}

} // verus!
