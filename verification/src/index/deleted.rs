//! Soft-delete tracking.
//!
//! Sealed segments are immutable, so a delete cannot physically remove a row; it sets a
//! tombstone in a [`SoftDeleteSet`]. Search traverses *through* tombstones (to keep the
//! graph connected) but never returns them. When enough rows are tombstoned
//! ([`should_rebuild`]) the segment is worth rebuilding.

use std::sync::Arc;

use vstd::prelude::*;
use vstd::arithmetic::power2::*;
use roaring::RoaringBitmap;

use crate::bitmap;
use crate::id::PointId;
use crate::ordered;

verus! {

/// The exact condition under which the quotient of the two counts, each rounded to
/// binary32 and the quotient rounded too, is at least the binary32 value of 0.30.
///
/// That value is `10066330 / 2^25`. Its significand is even, so a quotient rounds to it
/// or above exactly from the midpoint with its predecessor on, `20132659 / 2^26`.
pub open spec fn ratio_reaches_threshold(deleted: nat, total: nat) -> bool {
    total > 0 && deleted > 0 && ordered::rounded_to_binary32(deleted) * 0x400_0000 >= 20132659
        * ordered::rounded_to_binary32(total)
}

/// The integer that `v` becomes when rounded to binary32.
fn round_to_binary32(v: u64) -> (r: u128)
    requires
        v > 0,
    ensures
        r == ordered::rounded_to_binary32(v as nat),
        r <= 0x1_0000_0000_0000_0000,
{
    let (exponent, significand) = ordered::binary32_parts(v);
    if exponent <= 23 {
        v as u128
    } else {
        let mut unit: u128 = 1;
        let mut i: u32 = 23;
        proof {
            lemma2_to64();
        }
        while i < exponent
            invariant
                23 <= i <= exponent < 64,
                unit == pow2((i - 23) as nat),
                unit <= 0x200_0000_0000,
            decreases exponent - i,
        {
            proof {
                lemma_pow2_unfold((i + 1 - 23) as nat);
                lemma2_to64_rest();
                if i + 1 - 23 < 41 {
                    lemma_pow2_strictly_increases((i + 1 - 23) as nat, 41);
                }
            }
            unit = unit * 2;
            i = i + 1;
        }
        proof {
            lemma2_to64_rest();
            if exponent - 23 < 40 {
                lemma_pow2_strictly_increases((exponent - 23) as nat, 40);
            }
            assert(significand * unit <= 0x100_0000 * 0x100_0000_0000) by (nonlinear_arith)
                requires
                    significand <= 0x100_0000,
                    unit <= 0x100_0000_0000,
            ;
        }
        (significand as u128) * unit
    }
}

/// Returns whether a segment with the given counts has accumulated enough tombstones to
/// warrant a rebuild: the ratio of tombstones, in single precision, has reached 0.30.
pub fn should_rebuild(deleted: usize, total: usize) -> (r: bool)
    ensures
        r == ratio_reaches_threshold(deleted as nat, total as nat),
{
    if total == 0 || deleted == 0 {
        return false;
    }
    round_to_binary32(deleted as u64) * 0x400_0000 >= 20132659 * round_to_binary32(total as u64)
}

/// Within the range where counts are exact in single precision, the threshold is the
/// plain inequality, up to the half unit in the last place of the constant.
pub proof fn law_rebuild_threshold_is_exact_below_2_24(deleted: nat, total: nat)
    requires
        0 < deleted < 0x100_0000,
        0 < total < 0x100_0000,
    ensures
        ratio_reaches_threshold(deleted, total) <==> deleted * 0x400_0000 >= 20132659 * total,
{
    ordered::lemma_exponent_bounds(deleted);
    ordered::lemma_exponent_bounds(total);
    lemma2_to64();
    if ordered::exponent_of(deleted) > 24 {
        lemma_pow2_strictly_increases(24, ordered::exponent_of(deleted));
    }
    if ordered::exponent_of(total) > 24 {
        lemma_pow2_strictly_increases(24, ordered::exponent_of(total));
    }
}

/// A point-in-time-snapshottable set of tombstoned segment-local ids.
pub struct SoftDeleteSet {
    /// The tombstoned ids.
    pub bitmap: Arc<RoaringBitmap>,
}

impl SoftDeleteSet {
    /// The tombstoned ids.
    pub open spec fn ids(&self) -> Set<u32> {
        bitmap::bitmap_ids(*self.bitmap)
    }

    /// There are finitely many tombstones.
    pub open spec fn wf(&self) -> bool {
        self.ids().finite()
    }

    /// Creates an empty set.
    pub fn new() -> (set: SoftDeleteSet)
        ensures
            set.wf(),
            set.ids() == Set::<u32>::empty(),
    {
        SoftDeleteSet { bitmap: Arc::new(RoaringBitmap::new()) }
    }

    /// Marks `id` deleted. Returns `true` if it was newly tombstoned, `false` if it was
    /// already deleted. Snapshots taken before are unaffected.
    pub fn delete(&mut self, id: PointId) -> (newly: bool)
        requires
            old(self).wf(),
        ensures
            final(self).wf(),
            final(self).ids() == old(self).ids().insert(id.0),
            newly == !old(self).ids().contains(id.0),
    {
        let current: &RoaringBitmap = &self.bitmap;
        let mut next = current.clone();
        let newly = next.insert(id.get());
        self.bitmap = Arc::new(next);
        newly
    }

    /// Whether `id` is currently tombstoned.
    pub fn is_deleted(&self, id: PointId) -> (r: bool)
        ensures
            r == self.ids().contains(id.0),
    {
        self.bitmap.contains(id.get())
    }

    /// The number of tombstoned ids.
    pub fn deleted_count(&self) -> (count: usize)
        ensures
            self.ids().len() <= usize::MAX ==> count == self.ids().len(),
    {
        self.bitmap.len() as usize
    }

    /// Takes a cheap, immutable, point-in-time snapshot of the tombstone set. Deletes
    /// made after this call do not affect the returned snapshot.
    pub fn snapshot(&self) -> (snapshot: Arc<RoaringBitmap>)
        ensures
            bitmap::bitmap_ids(*snapshot) == self.ids(),
            snapshot == self.bitmap,
    {
        self.bitmap.clone()
    }
}

impl Default for SoftDeleteSet {
    fn default() -> (set: SoftDeleteSet)
        ensures
            set.wf(),
            set.ids() == Set::<u32>::empty(),
    {
        SoftDeleteSet::new()
    }
}

} // verus!
