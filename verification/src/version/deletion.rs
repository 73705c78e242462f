//! Per-version deletion vectors.
//!
//! A delete is **not** a mutation of an (immutable) segment: it is a tombstone recorded in
//! a [`DeletionVector`] over collection-global ids, layered on top of the segments. A
//! version freezes a *clone* of the live deletion vector, so deletes made after a commit
//! can never change what an older version sees.

use vstd::prelude::*;
use roaring::RoaringTreemap;

use crate::bitmap;
use crate::id::GlobalId;
use crate::idset;

verus! {

/// A compressed set of tombstoned global ids.
pub struct DeletionVector {
    /// The tombstones.
    pub tombstones: RoaringTreemap,
}

/// Raw ids as global ids.
pub open spec fn global_ids_of(raw: Seq<u64>) -> Seq<GlobalId> {
    Seq::new(raw.len(), |i: int| GlobalId(raw[i]))
}

fn to_global_ids(raw: &Vec<u64>) -> (ids: Vec<GlobalId>)
    ensures
        ids@ == global_ids_of(raw@),
{
    let mut ids: Vec<GlobalId> = Vec::with_capacity(raw.len());
    for i in 0..raw.len()
        invariant
            ids@ == global_ids_of(raw@).take(i as int),
    {
        ids.push(GlobalId::new(raw[i]));
        assert(ids@ =~= global_ids_of(raw@).take(i + 1));
    }
    assert(ids@ =~= global_ids_of(raw@));
    ids
}

impl DeletionVector {
    /// The tombstoned ids.
    pub open spec fn ids(&self) -> Set<u64> {
        bitmap::treemap_ids(self.tombstones)
    }

    /// There are finitely many tombstones.
    pub open spec fn wf(&self) -> bool {
        self.ids().finite()
    }

    /// An empty deletion vector.
    pub fn new() -> (dv: DeletionVector)
        ensures
            dv.wf(),
            dv.ids() == Set::<u64>::empty(),
    {
        DeletionVector { tombstones: RoaringTreemap::new() }
    }

    /// Marks `id` deleted; returns `true` if it was newly added.
    pub fn insert(&mut self, id: GlobalId) -> (newly: bool)
        requires
            old(self).wf(),
        ensures
            final(self).wf(),
            final(self).ids() == old(self).ids().insert(id.0),
            newly == !old(self).ids().contains(id.0),
    {
        self.tombstones.insert(id.get())
    }

    /// Whether `id` is tombstoned.
    pub fn contains(&self, id: GlobalId) -> (r: bool)
        ensures
            r == self.ids().contains(id.0),
    {
        self.tombstones.contains(id.get())
    }

    /// The number of tombstoned ids.
    pub fn len(&self) -> (count: u64)
        requires
            self.ids().len() <= u64::MAX,
        ensures
            count == self.ids().len(),
    {
        self.tombstones.len()
    }

    /// Whether nothing is tombstoned.
    pub fn is_empty(&self) -> (r: bool)
        ensures
            r == (self.ids() == Set::<u64>::empty()),
    {
        bitmap::treemap_is_empty(&self.tombstones)
    }

    /// The tombstoned ids in ascending order.
    pub fn iter(&self) -> (ids: Vec<GlobalId>)
        ensures
            exists|raw: Seq<u64>| #[trigger]
                global_ids_of(raw) == ids@ && idset::ascending(raw) && forall|x: u64|
                    raw.contains(x) <==> self.ids().contains(x),
    {
        let raw = self.raw_ids();
        let ids = to_global_ids(&raw);
        assert(global_ids_of(raw@) == ids@);
        ids
    }

    /// The tombstoned raw ids in ascending order: the form in which a deletion vector is
    /// stored.
    pub fn raw_ids(&self) -> (raw: Vec<u64>)
        ensures
            idset::ascending(raw@),
            forall|x: u64| raw@.contains(x) <==> self.ids().contains(x),
    {
        bitmap::treemap_values(&self.tombstones)
    }

    /// Rebuilds a deletion vector from stored raw ids, in any order.
    pub fn from_raw_ids(raw: &Vec<u64>) -> (dv: DeletionVector)
        ensures
            dv.wf(),
            dv.ids() == raw@.to_set(),
    {
        let mut dv = DeletionVector::new();
        assert(raw@.take(0).to_set() =~= Set::<u64>::empty());
        for i in 0..raw.len()
            invariant
                dv.wf(),
                dv.ids() == raw@.take(i as int).to_set(),
        {
            let _ = dv.insert(GlobalId::new(raw[i]));
            proof {
                let prefix = raw@.take(i as int);
                let longer = raw@.take(i + 1);
                assert(longer =~= prefix.push(raw@[i as int]));
                assert forall|y: u64| longer.to_set().contains(y) <==> prefix.to_set().insert(
                    raw@[i as int],
                ).contains(y) by {
                    if prefix.contains(y) {
                        assert(longer[prefix.index_of(y)] == y);
                    }
                    if y == raw@[i as int] {
                        assert(longer[i as int] == y);
                    }
                    if longer.contains(y) {
                        let j = longer.index_of(y);
                        if j < i {
                            assert(prefix[j] == y);
                        }
                    }
                }
                assert(longer.to_set() =~= prefix.to_set().insert(raw@[i as int]));
            }
        }
        assert(raw@.take(raw@.len() as int) =~= raw@);
        dv
    }

    /// The ids tombstoned in `self` but not in `other`, ascending.
    pub fn difference(&self, other: &DeletionVector) -> (ids: Vec<GlobalId>)
        ensures
            exists|raw: Seq<u64>| #[trigger]
                global_ids_of(raw) == ids@ && idset::ascending(raw) && forall|x: u64|
                    raw.contains(x) <==> self.ids().contains(x) && !other.ids().contains(x),
    {
        let rest = bitmap::treemap_difference(&self.tombstones, &other.tombstones);
        let raw = bitmap::treemap_values(&rest);
        let ids = to_global_ids(&raw);
        assert(global_ids_of(raw@) == ids@);
        ids
    }
}

impl Clone for DeletionVector {
    fn clone(&self) -> (copy: DeletionVector)
        ensures
            copy.ids() == self.ids(),
    {
        DeletionVector { tombstones: self.tombstones.clone() }
    }
}

impl Default for DeletionVector {
    fn default() -> (dv: DeletionVector)
        ensures
            dv.wf(),
            dv.ids() == Set::<u64>::empty(),
    {
        DeletionVector::new()
    }
}

/// Storing a deletion vector as its raw ids and rebuilding it gives the same tombstones.
pub proof fn law_raw_ids_round_trip(dv: DeletionVector, raw: Seq<u64>, back: DeletionVector)
    requires
        forall|x: u64| raw.contains(x) <==> dv.ids().contains(x),
        back.ids() == raw.to_set(),
    ensures
        back.ids() == dv.ids(),
{
    assert(back.ids() =~= dv.ids());
}

} // verus!
