//! Verified raster and vector logic for geospatial feature extraction.

pub mod grid;
pub mod cog;
pub mod window;
pub mod polygonize;
pub mod model;
pub mod catalog;
pub mod pipeline;
pub mod confidence;
pub mod satellite;
pub mod explain;
pub mod distributed;
