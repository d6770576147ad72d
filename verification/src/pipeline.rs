//! Processing pipeline: the configuration of an end-to-end inference workflow, and the
//! features it gathers from each tile's segmentation.

use vstd::prelude::*;
use crate::grid::SegmentationMask;
use crate::model::ModelConfig;
use crate::polygonize::{PixelRegion, polygonize_all, region_within, spec_polygonize_all};
use crate::window::WindowConfig;

verus! {

/// A complete inference pipeline.
pub struct Pipeline {
    /// Model configuration.
    pub config: ModelConfig,
    /// Tile extraction configuration.
    pub window_config: WindowConfig,
    /// Minimum region area in pixels: smaller regions are dropped.
    pub min_area: u64,
}

/// A region moved by `(dx, dy)`: from tile coordinates to image coordinates.
pub open spec fn offset_region(r: PixelRegion, dx: int, dy: int) -> PixelRegion {
    PixelRegion {
        class_id: r.class_id,
        min_x: (r.min_x + dx) as usize,
        min_y: (r.min_y + dy) as usize,
        max_x: (r.max_x + dx) as usize,
        max_y: (r.max_y + dy) as usize,
        pixel_count: r.pixel_count,
    }
}

/// The features of one tile: the regions of every class of the model in the tile's mask,
/// in image coordinates; none when the mask cannot be polygonized.
pub open spec fn spec_tile_features(
    p: Pipeline,
    m: SegmentationMask,
    origin_x: u32,
    origin_y: u32,
) -> Seq<PixelRegion> {
    match spec_polygonize_all(m, p.config.classes@.len(), p.min_area) {
        Ok(v) => v.map_values(|r: PixelRegion| offset_region(r, origin_x as int, origin_y as int)),
        Err(_) => seq![],
    }
}

impl Pipeline {
    /// Create a new pipeline with default window settings: tiles as wide as the model's
    /// input, overlapping by a quarter of it, and regions of at least 10 pixels.
    pub fn new(config: ModelConfig) -> (r: Self)
        ensures
            r.config == config,
            r.window_config.tile_width == config.input.width,
            r.window_config.tile_height == config.input.width,
            r.window_config.overlap == config.input.width / 4,
            r.min_area == 10,
    {
        let tile_size = config.input.width;
        Self { config, window_config: WindowConfig::new(tile_size, tile_size / 4), min_area: 10 }
    }

    /// The vector features of the tile at `(origin_x, origin_y)` whose segmentation is
    /// `mask`, in image coordinates.
    pub fn tile_features(&self, mask: &SegmentationMask, origin_x: u32, origin_y: u32) -> (r: Vec<
        PixelRegion,
    >)
        requires
            mask.cols() + origin_x <= usize::MAX,
            mask.rows() + origin_y <= usize::MAX,
        ensures
            r@ == spec_tile_features(*self, *mask, origin_x, origin_y),
    {
        let mut out: Vec<PixelRegion> = Vec::new();
        match polygonize_all(mask, self.config.classes.len(), self.min_area) {
            Ok(features) => {
                let dx = origin_x as usize;
                let dy = origin_y as usize;
                let mut i: usize = 0;
                while i < features.len()
                    invariant
                        i <= features@.len(),
                        dx == origin_x,
                        dy == origin_y,
                        mask.cols() + origin_x <= usize::MAX,
                        mask.rows() + origin_y <= usize::MAX,
                        forall|k: int|
                            0 <= k < features@.len() ==> region_within(
                                #[trigger] features@[k],
                                *mask,
                                features@[k].class_id,
                                self.min_area,
                            ),
                        out@ == features@.take(i as int).map_values(
                            |r: PixelRegion| offset_region(r, origin_x as int, origin_y as int),
                        ),
                    decreases features@.len() - i,
                {
                    let f = features[i];
                    assert(region_within(features@[i as int], *mask, f.class_id, self.min_area));
                    out.push(
                        PixelRegion {
                            class_id: f.class_id,
                            min_x: f.min_x + dx,
                            min_y: f.min_y + dy,
                            max_x: f.max_x + dx,
                            max_y: f.max_y + dy,
                            pixel_count: f.pixel_count,
                        },
                    );
                    proof {
                        assert(features@.take(i + 1) =~= features@.take(i as int).push(f));
                        assert(out@ =~= features@.take(i + 1).map_values(
                            |r: PixelRegion| offset_region(r, origin_x as int, origin_y as int),
                        ));
                    }
                    i = i + 1;
                }
                proof {
                    assert(features@.take(features@.len() as int) =~= features@);
                }
            },
            Err(_) => {},
        }
        out
    }
}

} // verus!
