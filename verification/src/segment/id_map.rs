//! Local-to-global id mapping within a segment.
//!
//! Each segment numbers its rows with dense, segment-local [`LocalId`]s, which is what
//! the index and vector storage use. The collection assigns every point a stable,
//! monotonic [`GlobalId`]. [`IdMap`] is the per-segment bridge between the two.

use std::collections::HashMap;

use vstd::prelude::*;
use vstd::std_specs::hash::*;

use crate::id::GlobalId;
use crate::id::LocalId;

verus! {

broadcast use vstd::std_specs::hash::group_hash_axioms;

/// The last position at which `id` occurs, if any.
pub open spec fn last_position(ids: Seq<GlobalId>, id: u64) -> Option<int>
    decreases ids.len(),
{
    if ids.len() == 0 {
        None
    } else if ids.last().0 == id {
        Some(ids.len() - 1)
    } else {
        last_position(ids.drop_last(), id)
    }
}

/// A position found holds the id, and an id is found if and only if it occurs.
pub proof fn lemma_last_position(ids: Seq<GlobalId>, id: u64)
    ensures
        last_position(ids, id) matches Some(i) ==> 0 <= i < ids.len() && ids[i] == GlobalId(id),
        last_position(ids, id) is Some <==> ids.contains(GlobalId(id)),
        forall|j: int|
            last_position(ids, id) matches Some(i) ==> i < j < ids.len() ==> (#[trigger] ids[j])
                != GlobalId(id),
    decreases ids.len(),
{
    if ids.len() > 0 {
        let shorter = ids.drop_last();
        lemma_last_position(shorter, id);
        if ids.last().0 == id {
            assert(ids[ids.len() - 1] == GlobalId(id));
        } else {
            if shorter.contains(GlobalId(id)) {
                assert(ids[shorter.index_of(GlobalId(id))] == GlobalId(id));
            }
            if ids.contains(GlobalId(id)) {
                let i = ids.index_of(GlobalId(id));
                assert(shorter[i] == GlobalId(id));
            }
            if let Some(i) = last_position(ids, id) {
                assert forall|j: int| i < j < ids.len() implies (#[trigger] ids[j]) != GlobalId(id) by {
                    if j < shorter.len() {
                        assert(shorter[j] == ids[j]);
                    }
                }
            }
        }
    }
}

/// A mapping between a segment's local row ids and collection-global ids.
pub struct IdMap {
    /// The global id of each row.
    pub local_to_global: Vec<GlobalId>,
    /// The row of each global id.
    pub global_to_local: HashMap<u64, u32>,
}

impl IdMap {
    /// The global ids, by row.
    pub open spec fn ids(&self) -> Seq<GlobalId> {
        self.local_to_global@
    }

    /// The reverse mapping agrees with the row list, and every row has a `u32` id.
    pub open spec fn wf(&self) -> bool {
        &&& self.ids().len() <= u32::MAX + 1
        &&& forall|g: u64| #[trigger]
            self.global_to_local@.contains_key(g) <==> last_position(self.ids(), g) is Some
        &&& forall|g: u64| #[trigger]
            self.global_to_local@.contains_key(g) ==> last_position(self.ids(), g) == Some(
                self.global_to_local@[g] as int,
            )
    }

    /// Creates an empty map.
    pub fn new() -> (map: IdMap)
        ensures
            map.wf(),
            map.ids() == Seq::<GlobalId>::empty(),
    {
        IdMap { local_to_global: Vec::new(), global_to_local: HashMap::new() }
    }

    /// Creates an empty map with room for `capacity` entries.
    pub fn with_capacity(capacity: usize) -> (map: IdMap)
        ensures
            map.wf(),
            map.ids() == Seq::<GlobalId>::empty(),
    {
        IdMap {
            local_to_global: Vec::with_capacity(capacity),
            global_to_local: HashMap::with_capacity(capacity),
        }
    }

    /// Appends `global`, assigning it the next local id. Every other id keeps its own.
    pub fn push(&mut self, global: GlobalId) -> (local: LocalId)
        requires
            old(self).wf(),
            old(self).ids().len() <= u32::MAX,
            !old(self).ids().contains(global),
        ensures
            final(self).wf(),
            final(self).ids() == old(self).ids().push(global),
            local.0 == old(self).ids().len(),
            last_position(final(self).ids(), global.0) == Some(local.0 as int),
            forall|other: u64|
                other != global.0 ==> #[trigger] last_position(final(self).ids(), other)
                    == last_position(old(self).ids(), other),
    {
        let ghost before = self.ids();
        let local = self.assign(global);
        assert(self.ids().drop_last() =~= before);
        local
    }

    /// Appends a row for `global`. An id that already has a row is mapped to the new one from
    /// then on.
    pub(crate) fn assign(&mut self, global: GlobalId) -> (local: LocalId)
        requires
            old(self).wf(),
            old(self).ids().len() <= u32::MAX,
        ensures
            final(self).wf(),
            final(self).ids() == old(self).ids().push(global),
            local.0 == old(self).ids().len(),
    {
        let local = LocalId::new(self.local_to_global.len() as u32);
        let ghost before = self.ids();
        let ghost map = self.global_to_local@;
        self.local_to_global.push(global);
        let _ = self.global_to_local.insert(global.get(), local.get());
        proof {
            assert(self.ids().drop_last() =~= before);
            assert(self.ids().last() == global);
            assert forall|g: u64| #[trigger] self.global_to_local@.contains_key(g) <==> last_position(
                self.ids(),
                g,
            ) is Some by {
                assert(map.contains_key(g) <==> last_position(before, g) is Some);
            }
            assert forall|g: u64| #[trigger]
                self.global_to_local@.contains_key(g) implies last_position(self.ids(), g) == Some(
                self.global_to_local@[g] as int,
            ) by {
                if g != global.0 {
                    assert(map.contains_key(g));
                }
            }
        }
        local
    }

    /// The global id for a local id, or `None` if out of range.
    pub fn to_global(&self, local: LocalId) -> (global: Option<GlobalId>)
        ensures
            global == if local.0 < self.ids().len() {
                Some(self.ids()[local.0 as int])
            } else {
                None
            },
    {
        if (local.get() as usize) < self.local_to_global.len() {
            Some(self.local_to_global[local.get() as usize])
        } else {
            None
        }
    }

    /// The global id for a local id known to be in range.
    pub fn global_at(&self, local: LocalId) -> (global: GlobalId)
        requires
            local.0 < self.ids().len(),
        ensures
            global == self.ids()[local.0 as int],
    {
        self.local_to_global[local.get() as usize]
    }

    /// The local id for a global id, or `None` if not present.
    pub fn to_local(&self, global: GlobalId) -> (local: Option<LocalId>)
        requires
            self.wf(),
        ensures
            match local {
                Some(l) => last_position(self.ids(), global.0) == Some(l.0 as int) && l.0
                    < self.ids().len() && self.ids()[l.0 as int] == global,
                None => last_position(self.ids(), global.0) is None && !self.ids().contains(global),
            },
    {
        proof {
            lemma_last_position(self.ids(), global.0);
            assert(GlobalId(global.0) == global);
        }
        match self.global_to_local.get(&global.get()) {
            Some(l) => Some(LocalId::new(*l)),
            None => None,
        }
    }

    /// The local-to-global mapping as a slice indexed by local id.
    pub fn global_ids(&self) -> (ids: &[GlobalId])
        ensures
            ids@ == self.ids(),
    {
        self.local_to_global.as_slice()
    }

    /// Rebuilds an id map from a local-to-global list (e.g. when loading a segment).
    pub fn from_global_ids(global_ids: Vec<GlobalId>) -> (map: IdMap)
        requires
            global_ids@.len() <= u32::MAX + 1,
        ensures
            map.wf(),
            map.ids() == global_ids@,
    {
        let mut map = IdMap::with_capacity(global_ids.len());
        for i in 0..global_ids.len()
            invariant
                global_ids@.len() <= u32::MAX + 1,
                map.wf(),
                map.ids() == global_ids@.take(i as int),
        {
            let _ = map.assign(global_ids[i]);
            assert(map.ids() =~= global_ids@.take(i + 1));
        }
        assert(global_ids@.take(global_ids@.len() as int) =~= global_ids@);
        map
    }

    /// The number of mapped points.
    pub fn len(&self) -> (n: usize)
        ensures
            n == self.ids().len(),
    {
        self.local_to_global.len()
    }

    /// Whether the map is empty.
    pub fn is_empty(&self) -> (r: bool)
        ensures
            r == (self.ids().len() == 0),
    {
        self.local_to_global.len() == 0
    }
}

impl Default for IdMap {
    fn default() -> (map: IdMap)
        ensures
            map.wf(),
            map.ids() == Seq::<GlobalId>::empty(),
    {
        IdMap::new()
    }
}

/// Where no global id occurs twice, the mapping is a bijection: a global id is mapped to a
/// row if and only if that row has the global id.
pub proof fn law_distinct_ids_are_a_bijection(map: IdMap, local: u32, global: u64)
    requires
        map.wf(),
        map.ids().no_duplicates(),
    ensures
        last_position(map.ids(), global) == Some(local as int) <==> local < map.ids().len()
            && map.ids()[local as int] == GlobalId(global),
{
    lemma_last_position(map.ids(), global);
    if local < map.ids().len() && map.ids()[local as int] == GlobalId(global) {
        assert(map.ids().contains(GlobalId(global)));
    }
}

/// Pushing distinct ids keeps them distinct.
pub proof fn law_push_keeps_ids_distinct(ids: Seq<GlobalId>, global: GlobalId)
    requires
        ids.no_duplicates(),
        !ids.contains(global),
    ensures
        ids.push(global).no_duplicates(),
{
    let longer = ids.push(global);
    assert forall|i: int, j: int|
        0 <= i < longer.len() && 0 <= j < longer.len() && i != j implies longer[i] != longer[j] by {
        if i < ids.len() {
            assert(ids.contains(ids[i]));
        }
        if j < ids.len() {
            assert(ids.contains(ids[j]));
        }
    }
}

} // verus!
