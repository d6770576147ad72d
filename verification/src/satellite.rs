//! Satellite platforms and mosaic compositing methods.

use vstd::prelude::*;

verus! {

/// Supported satellite sensors.
#[derive(Debug, Clone, Copy, PartialEq, Eq, Structural)]
pub enum Sensor {
    Sentinel2A,
    Sentinel2B,
    Landsat8,
    Landsat9,
    PlanetScope,
    WorldView3,
    Generic,
}

/// Compositing method for overlapping pixels of a mosaic.
#[derive(Debug, Clone, Copy, PartialEq, Eq, Structural)]
pub enum CompositeMethod {
    /// Use value from last image (paint-over order)
    Last,
    /// Average of all valid values
    Average,
    /// Median of all valid values
    Median,
    /// Minimum value (best for cloud removal in some cases)
    Min,
    /// Maximum value (useful for NDVI composites)
    Max,
}

} // verus!
