# panoptes

Geospatial feature extraction from satellite and aerial imagery, with the integer logic
of the pipeline verified in Verus.

## Layout

- `src/` — the verified library.
  - `cog.rs` — Cloud-Optimized GeoTIFF metadata read from the bytes of a file: the
    header, the IFD chain, tile tables of each overview level, raw tiles, and the tiles
    that cover a pixel box.
  - `window.rs` — the sliding-window grid of overlapping tiles over a large image.
  - `grid.rs` — segmentation masks (an `ndarray::Array2<u8>` behind a small trusted
    interface) and nearest-neighbour resizing.
  - `polygonize.rs` — the 4-connected regions of a class in a mask, with pixel counts
    and bounding boxes, found by flood fill in row-major order.
  - `confidence.rs` — the pixel counts behind IoU, pixel accuracy and class distributions.
  - `model.rs`, `catalog.rs` — model metadata and the built-in model catalog.
  - `pipeline.rs` — pipeline configuration and the features gathered from a tile's mask.
  - `explain.rs` — the patches of an occlusion-sensitivity pass and how many of them
    cover each pixel, with the kinds of explanation maps.
  - `distributed.rs`, `satellite.rs` — configuration and method types.
- `app/` — the command-line program and everything that works on floating-point
  tensors or does I/O: image decoding, inference engines, change detection, spectral
  indices, pan-sharpening, pyramids, blending, GeoJSON output, polygon simplification.
- `tests/` — tests of the library.

## Not included

The ONNX Runtime inference engine (`OnnxEngine` and its `OnnxError`), which is built
only with the optional `onnx` feature on top of the `ort` crate, is left out: neither
the library nor the program here carries it. Inference runs through the other engines
in `app/`.
