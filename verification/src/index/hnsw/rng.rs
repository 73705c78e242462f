//! Deterministic per-point level assignment.
//!
//! HNSW assigns each point a maximum layer drawn from an exponential distribution. For
//! reproducible builds the "randomness" must be a **pure function of the point id and a
//! seed**, never a shared generator advanced during insertion.

use vstd::prelude::*;

use crate::distance::Kernel;

verus! {

/// The increment of SplitMix64.
pub const GOLDEN_GAMMA: u64 = 0x9E37_79B9_7F4A_7C15;

/// The maximum layer ever assigned, a safety clamp on the exponential tail.
pub const MAX_LEVEL: usize = 16;

/// The SplitMix64 hash.
pub open spec fn splitmix(x: u64) -> u64 {
    let s = x.wrapping_add(GOLDEN_GAMMA);
    let a = (s ^ (s >> 30)).wrapping_mul(0xBF58_476D_1CE4_E5B9);
    let b = (a ^ (a >> 27)).wrapping_mul(0x94D0_49BB_1331_11EB);
    b ^ (b >> 31)
}

/// The 53-bit uniform value of a point under a seed.
pub open spec fn uniform_of(id: u32, seed: u64) -> u64 {
    splitmix(seed ^ ((id as u64).wrapping_add(1)).wrapping_mul(GOLDEN_GAMMA)) >> 11
}

/// The layer assigned to a point.
pub open spec fn level_of<K: Kernel>(kernel: K, id: u32, seed: u64, m: nat) -> nat {
    let drawn = kernel.spec_level(uniform_of(id, seed), m);
    if drawn <= MAX_LEVEL {
        drawn
    } else {
        MAX_LEVEL as nat
    }
}

/// SplitMix64: a fast, well-distributed integer hash.
pub fn splitmix64(x: u64) -> (h: u64)
    ensures
        h == splitmix(x),
{
    let s: u64 = x.wrapping_add(GOLDEN_GAMMA);
    let a: u64 = (s ^ (s >> 30)).wrapping_mul(0xBF58_476D_1CE4_E5B9);
    let b: u64 = (a ^ (a >> 27)).wrapping_mul(0x94D0_49BB_1331_11EB);
    b ^ (b >> 31)
}

/// Deterministically assigns the layer level for `id` given `seed` and out-degree `m`,
/// clamped to [`MAX_LEVEL`].
pub fn level_for<K: Kernel>(kernel: &K, id: u32, seed: u64, m: usize) -> (level: usize)
    ensures
        level == level_of(*kernel, id, seed, m as nat),
        level <= MAX_LEVEL,
{
    let h: u64 = splitmix64(
        seed ^ ((id as u64).wrapping_add(1)).wrapping_mul(GOLDEN_GAMMA),
    );
    let drawn: usize = kernel.level(h >> 11, m);
    if drawn <= MAX_LEVEL {
        drawn
    } else {
        MAX_LEVEL
    }
}

} // verus!
