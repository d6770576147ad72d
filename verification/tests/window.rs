use panoptes::window::{tile_count, tile_origins, WindowConfig};

#[test]
fn test_tile_count() {
    let config = WindowConfig::new(64, 0);
    assert_eq!(tile_count(128, 128, &config), 4);
    assert_eq!(tile_count(256, 256, &config), 16);
}

#[test]
fn test_extract_tiles_no_overlap() {
    // An image of 3 x 128 x 128.
    let config = WindowConfig::new(64, 0);
    let tiles = tile_origins(128, 128, &config);
    assert_eq!(tiles.len(), 4); // 2x2 grid
    assert_eq!(tiles[0].0, 0);
    assert_eq!(tiles[0].1, 0);
    assert_eq!(tiles[1].0, 64);
    assert_eq!(tiles[3].0, 64);
    assert_eq!(tiles[3].1, 64);
}

#[test]
fn test_extract_tiles_with_overlap() {
    let config = WindowConfig::new(64, 32);
    let tiles = tile_origins(128, 128, &config);
    // stride = 32, so (128-64)/32 + 1 = 3 per axis = 9 tiles
    assert_eq!(tiles.len(), 9);
}

#[test]
fn strides_and_counts_agree() {
    let config = WindowConfig { tile_width: 50, tile_height: 30, overlap: 10 };
    assert_eq!(config.stride_x(), 40);
    assert_eq!(config.stride_y(), 20);
    // Columns at 0, 40, 80 (130 wide); rows at 0, 20, 40 (70 high).
    let origins = tile_origins(130, 70, &config);
    assert_eq!(origins.len(), tile_count(130, 70, &config));
    assert_eq!(origins.len(), 9);
    assert_eq!(origins[0], (0, 0));
    assert_eq!(origins[2], (80, 0));
    assert_eq!(origins[8], (80, 40));
    for (x, y) in origins {
        assert!(x + 50 <= 130 && y + 30 <= 70);
    }
}

#[test]
fn image_smaller_than_a_tile() {
    let config = WindowConfig::new(64, 16);
    assert_eq!(tile_count(63, 500, &config), 0);
    assert!(tile_origins(63, 500, &config).is_empty());
    assert!(tile_origins(500, 10, &config).is_empty());
}
