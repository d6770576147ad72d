//! Distributed inference: how tiles are spread over workers and how overlapping tile
//! predictions are blended.

use vstd::prelude::*;

verus! {

/// How to blend overlapping tile predictions.
#[derive(Debug, Clone, Copy, PartialEq, Eq, Structural)]
pub enum BlendMode {
    /// Use the maximum confidence value.
    Max,
    /// Average overlapping predictions.
    Average,
    /// Use center-weighted blending (higher weight in center, lower at edges).
    CenterWeighted,
}

/// Configuration for distributed inference.
#[derive(Debug, Clone, Copy, PartialEq, Eq, Structural)]
pub struct DistributedConfig {
    /// Number of worker threads (0 = auto-detect).
    pub num_workers: usize,
    /// Whether to merge overlapping tile results.
    pub merge_overlaps: bool,
    /// Tile overlap blending mode.
    pub blend_mode: BlendMode,
}

impl Default for DistributedConfig {
    /// Workers chosen automatically, overlaps merged, center-weighted blending.
    fn default() -> (r: Self)
        ensures
            r.num_workers == 0,
            r.merge_overlaps,
            r.blend_mode == BlendMode::CenterWeighted,
    {
        Self { num_workers: 0, merge_overlaps: true, blend_mode: BlendMode::CenterWeighted }
    }
}

} // verus!
