//! HNSW construction and search parameters.

use vstd::prelude::*;

verus! {

/// HNSW construction and search parameters.
#[derive(Debug, Clone, Copy, PartialEq, Eq, Structural)]
pub struct HnswConfig {
    /// Target out-degree on the upper layers.
    pub m: usize,
    /// Maximum out-degree on layer 0 (conventionally `2*m`).
    pub m_max0: usize,
    /// Beam width while building.
    pub ef_construction: usize,
    /// Default beam width while searching (always raised to at least `k`).
    pub ef_search: usize,
    /// Seed for the deterministic level assignment.
    pub seed: u64,
    /// Whether to top up pruned candidates to the degree bound.
    pub keep_pruned: bool,
    /// Whether to store an int8-quantized copy and rank by quantized distance with an
    /// exact rescore.
    pub quantization: bool,
}

/// Whether quantization is on where a stored config does not say.
pub fn default_quantization() -> (on: bool)
    ensures
        on,
{
    true
}

impl HnswConfig {
    /// The degree bound of a layer.
    pub open spec fn degree_bound(self, layer: nat) -> nat {
        if layer == 0 {
            self.m_max0 as nat
        } else {
            self.m as nat
        }
    }

    /// The degree bound of a layer.
    pub fn max_conn(&self, layer: usize) -> (bound: usize)
        ensures
            bound == self.degree_bound(layer as nat),
    {
        if layer == 0 {
            self.m_max0
        } else {
            self.m
        }
    }
}

impl Default for HnswConfig {
    fn default() -> (config: HnswConfig)
        ensures
            config == (HnswConfig {
                m: 16,
                m_max0: 32,
                ef_construction: 128,
                ef_search: 64,
                seed: 0x5EED_1234_5678_9ABC,
                keep_pruned: true,
                quantization: true,
            }),
    {
        HnswConfig {
            m: 16,
            m_max0: 32,
            ef_construction: 128,
            ef_search: 64,
            seed: 0x5EED_1234_5678_9ABC,
            keep_pruned: true,
            quantization: true,
        }
    }
}

} // verus!
