use panoptes::grid::SegmentationMask;
use panoptes::polygonize::{polygonize_all, polygonize_class, PolygonizeError};

fn mask_from(rows: usize, cols: usize, f: impl Fn(usize, usize) -> u8) -> SegmentationMask {
    let mut cells = Vec::new();
    for y in 0..rows {
        for x in 0..cols {
            cells.push(f(y, x));
        }
    }
    SegmentationMask::from_cells(rows, cols, cells)
}

#[test]
fn test_polygonize_single_class() {
    // Fill a 5x5 block with class 1
    let mask = mask_from(10, 10, |y, x| if (2..7).contains(&y) && (2..7).contains(&x) { 1 } else { 0 });
    let features = polygonize_class(&mask, 1, 1).unwrap();
    assert_eq!(features.len(), 1);
    assert_eq!(features[0].class_id, 1);
    assert_eq!(features[0].pixel_count, 25);
}

#[test]
fn test_polygonize_min_area_filter() {
    let mask = mask_from(10, 10, |y, x| if y == 5 && (x == 5 || x == 6) { 1 } else { 0 });
    let features = polygonize_class(&mask, 1, 5).unwrap();
    assert_eq!(features.len(), 0); // Too small
}

#[test]
fn test_polygonize_empty() {
    let mask = SegmentationMask::zeros(10, 10);
    let features = polygonize_class(&mask, 1, 1).unwrap();
    assert_eq!(features.len(), 0);
}

#[test]
fn regions_in_scan_order_with_bounding_boxes() {
    // Two regions of class 1: an L shape at the top right and a bar at the bottom left.
    let rows = [
        "000011",
        "000001",
        "000001",
        "110000",
        "000000",
    ];
    let mask = mask_from(5, 6, |y, x| (rows[y].as_bytes()[x] - b'0') as u8);
    let features = polygonize_class(&mask, 1, 1).unwrap();
    assert_eq!(features.len(), 2);
    assert_eq!(
        (features[0].min_x, features[0].min_y, features[0].max_x, features[0].max_y, features[0].pixel_count),
        (4, 0, 5, 2, 4)
    );
    assert_eq!(
        (features[1].min_x, features[1].min_y, features[1].max_x, features[1].max_y, features[1].pixel_count),
        (0, 3, 1, 3, 2)
    );
    // Diagonal neighbours are not connected.
    let diag = mask_from(2, 2, |y, x| if y == x { 1 } else { 0 });
    assert_eq!(polygonize_class(&diag, 1, 1).unwrap().len(), 2);
}

#[test]
fn polygonize_all_classes_in_order() {
    let mask = mask_from(3, 3, |y, _| y as u8);
    let all = polygonize_all(&mask, 3, 1).unwrap();
    assert_eq!(all.len(), 3);
    for (k, f) in all.iter().enumerate() {
        assert_eq!(f.class_id as usize, k);
        assert_eq!((f.min_x, f.max_x, f.min_y, f.max_y, f.pixel_count), (0, 2, k, k, 3));
    }
    assert_eq!(polygonize_all(&mask, 0, 1).unwrap().len(), 0);
}

#[test]
fn polygonize_empty_mask_error() {
    let mask = SegmentationMask::zeros(0, 4);
    assert!(matches!(polygonize_class(&mask, 1, 1), Err(PolygonizeError::EmptyMask)));
    assert!(matches!(polygonize_all(&mask, 2, 1), Err(PolygonizeError::EmptyMask)));
    assert_eq!(polygonize_all(&mask, 0, 1).unwrap().len(), 0);
}
