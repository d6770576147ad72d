use panoptes::explain::{occlusion_cover_counts, occlusion_patches};

#[test]
fn occlusion_patches_tile_the_image() {
    let patches = occlusion_patches(32, 32, 8, 8);
    assert_eq!(patches.len(), 16);
    assert_eq!(patches[0], (0, 0));
    assert_eq!(patches[1], (8, 0));
    assert_eq!(patches[3], (24, 0));
    assert_eq!(patches[4], (0, 8));
    assert_eq!(patches[15], (24, 24));
}

#[test]
fn occlusion_patches_overlap_with_a_short_stride() {
    // Rows and columns at 0, 2, 4 for a 4-pixel patch over 8 x 10 pixels: x up to 6.
    let patches = occlusion_patches(10, 8, 4, 2);
    assert_eq!(patches.len(), 12);
    assert_eq!(patches[3], (6, 0));
    assert_eq!(patches[4], (0, 2));
    assert_eq!(patches[11], (6, 4));
}

#[test]
fn occlusion_patches_skip_with_a_long_stride() {
    // Stride 5 with 2-pixel patches over 9 x 9: positions 0 and 5.
    let patches = occlusion_patches(9, 9, 2, 5);
    assert_eq!(patches, vec![(0, 0), (5, 0), (0, 5), (5, 5)]);
}

#[test]
fn occlusion_patches_none_when_the_patch_is_too_large() {
    assert!(occlusion_patches(4, 32, 8, 8).is_empty());
    // Taller than the image: the stride does not matter.
    assert!(occlusion_patches(32, 4, 8, 0).is_empty());
}

#[test]
fn occlusion_cover_counts_count_overlaps() {
    // 4-pixel patches at 0 and 2 along each axis of a 6 x 6 image.
    let counts = occlusion_cover_counts(6, 6, 4, 2);
    assert_eq!(counts.len(), 6);
    assert_eq!(counts[0], vec![1, 1, 2, 2, 1, 1]);
    assert_eq!(counts[2], vec![2, 2, 4, 4, 2, 2]);
    assert_eq!(counts[5], vec![1, 1, 2, 2, 1, 1]);
}

#[test]
fn occlusion_cover_counts_leave_gaps_uncovered() {
    // Patches of 2 at 0 and 5 over 7 x 7: pixels 2..5 and 7.. are never covered.
    let counts = occlusion_cover_counts(7, 7, 2, 5);
    assert_eq!(counts[0], vec![1, 1, 0, 0, 0, 1, 1]);
    assert_eq!(counts[3], vec![0; 7]);
    assert!(occlusion_cover_counts(3, 3, 4, 0).iter().all(|row| row.iter().all(|&c| c == 0)));
}
