use panoptes::confidence::{accuracy_counts, class_counts, iou_counts};
use panoptes::grid::{resize_mask, SegmentationMask};
use panoptes::pipeline::Pipeline;
use panoptes::catalog::building_segmentation;
use panoptes::distributed::{BlendMode, DistributedConfig};

fn mask_from(rows: usize, cols: usize, f: impl Fn(usize, usize) -> u8) -> SegmentationMask {
    let mut cells = Vec::new();
    for y in 0..rows {
        for x in 0..cols {
            cells.push(f(y, x));
        }
    }
    SegmentationMask::from_cells(rows, cols, cells)
}

fn ratio(num: u64, den: u64) -> f32 {
    if den == 0 {
        1.0
    } else {
        num as f32 / den as f32
    }
}

#[test]
fn test_iou_perfect() {
    let mask = mask_from(4, 4, |_, _| 1);
    let gt = mask_from(4, 4, |_, _| 1);
    let c = iou_counts(&mask, &gt, 1);
    assert!((ratio(c.intersection, c.union) - 1.0).abs() < 1e-5);
}

#[test]
fn test_iou_no_overlap() {
    let pred = mask_from(4, 4, |_, _| 0);
    let gt = mask_from(4, 4, |_, _| 1);
    let c = iou_counts(&pred, &gt, 1);
    assert!((ratio(c.intersection, c.union) - 0.0).abs() < 1e-5);
}

#[test]
fn test_pixel_accuracy() {
    let pred = mask_from(4, 4, |y, _| if y < 2 { 0 } else { 1 });
    let gt = mask_from(4, 4, |y, _| if y < 3 { 0 } else { 1 });
    // 12 correct (rows 0-1 both 0, row 3 both 1), 4 wrong (row 2: pred=1, gt=0)
    let c = accuracy_counts(&pred, &gt);
    let acc = c.correct as f32 / c.total as f32;
    assert!((acc - 0.75).abs() < 0.01);
}

#[test]
fn iou_counts_are_symmetric_and_exact() {
    let pred = mask_from(4, 4, |y, _| if y < 2 { 0 } else { 1 });
    let gt = mask_from(4, 4, |y, _| if y < 3 { 0 } else { 1 });
    let a = iou_counts(&pred, &gt, 1);
    let b = iou_counts(&gt, &pred, 1);
    assert_eq!((a.intersection, a.union), (4, 8));
    assert_eq!(a, b);
    let same = iou_counts(&pred, &pred, 0);
    assert_eq!(same.intersection, same.union);
    // Both masks empty of the class: nothing in the union.
    assert_eq!(iou_counts(&pred, &gt, 7).union, 0);
}

#[test]
fn class_counts_of_a_mask() {
    let mask = mask_from(4, 4, |y, _| if y < 2 { 0 } else { 1 });
    assert_eq!(class_counts(&mask, 2), vec![(0, 8), (1, 8)]);
    let mask = mask_from(2, 3, |_, x| (x * 2) as u8);
    assert_eq!(class_counts(&mask, 3), vec![(0, 2), (2, 2)]);
    assert_eq!(class_counts(&mask, 0), vec![]);
}

#[test]
fn resize_nearest_neighbour() {
    let mask = mask_from(2, 2, |y, x| (y * 2 + x) as u8);
    let big = resize_mask(&mask, 4, 4);
    assert_eq!(big.dims(), (4, 4));
    assert_eq!(
        big.to_cells(),
        vec![0, 0, 1, 1, 0, 0, 1, 1, 2, 2, 3, 3, 2, 2, 3, 3]
    );
    let same = resize_mask(&mask, 2, 2);
    assert_eq!(same.to_cells(), mask.to_cells());
    let small = resize_mask(&big, 1, 2);
    assert_eq!(small.to_cells(), vec![0, 1]);
}

#[test]
fn tile_features_in_image_coordinates() {
    let pipeline = Pipeline::new(building_segmentation());
    let mask = mask_from(4, 4, |y, x| if y >= 1 && x >= 2 { 1 } else { 0 });
    let mut p = pipeline;
    p.min_area = 2;
    let f = p.tile_features(&mask, 100, 200);
    assert_eq!(f.len(), 2);
    // Class 0 first (the background), then the building, shifted by the tile origin.
    assert_eq!((f[0].class_id, f[0].min_x, f[0].min_y, f[0].pixel_count), (0, 100, 200, 10));
    assert_eq!(
        (f[1].class_id, f[1].min_x, f[1].min_y, f[1].max_x, f[1].max_y, f[1].pixel_count),
        (1, 102, 201, 103, 203, 6)
    );
    // An empty mask yields no feature.
    assert!(p.tile_features(&SegmentationMask::zeros(0, 0), 0, 0).is_empty());
}

#[test]
fn distributed_config_default() {
    let d = DistributedConfig::default();
    assert_eq!(d.num_workers, 0);
    assert!(d.merge_overlaps);
    assert_eq!(d.blend_mode, BlendMode::CenterWeighted);
}
