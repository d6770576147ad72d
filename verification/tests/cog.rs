use panoptes::cog::{
    parse_cog_metadata, parse_cog_outcome, read_raw_tile, tiles_for_bounds, CogError, CogMetadata,
    CogParseOutcome, OverviewLevel,
};

fn create_minimal_tiff() -> Vec<u8> {
    let mut data = Vec::new();
    // Little-endian TIFF header
    data.extend_from_slice(b"II"); // Byte order
    data.extend_from_slice(&42u16.to_le_bytes()); // Magic
    data.extend_from_slice(&8u32.to_le_bytes()); // IFD offset

    // IFD with 4 entries
    data.extend_from_slice(&4u16.to_le_bytes()); // Entry count

    // Tag 256: ImageWidth = 512
    data.extend_from_slice(&256u16.to_le_bytes());
    data.extend_from_slice(&4u16.to_le_bytes()); // LONG
    data.extend_from_slice(&1u32.to_le_bytes());
    data.extend_from_slice(&512u32.to_le_bytes());

    // Tag 257: ImageLength = 512
    data.extend_from_slice(&257u16.to_le_bytes());
    data.extend_from_slice(&4u16.to_le_bytes());
    data.extend_from_slice(&1u32.to_le_bytes());
    data.extend_from_slice(&512u32.to_le_bytes());

    // Tag 322: TileWidth = 256
    data.extend_from_slice(&322u16.to_le_bytes());
    data.extend_from_slice(&4u16.to_le_bytes());
    data.extend_from_slice(&1u32.to_le_bytes());
    data.extend_from_slice(&256u32.to_le_bytes());

    // Tag 323: TileLength = 256
    data.extend_from_slice(&323u16.to_le_bytes());
    data.extend_from_slice(&4u16.to_le_bytes());
    data.extend_from_slice(&1u32.to_le_bytes());
    data.extend_from_slice(&256u32.to_le_bytes());

    // Next IFD offset = 0 (no more IFDs)
    data.extend_from_slice(&0u32.to_le_bytes());

    data
}

fn entry_le(data: &mut Vec<u8>, tag: u16, data_type: u16, count: u32, value: u32) {
    data.extend_from_slice(&tag.to_le_bytes());
    data.extend_from_slice(&data_type.to_le_bytes());
    data.extend_from_slice(&count.to_le_bytes());
    data.extend_from_slice(&value.to_le_bytes());
}

fn entry_be(data: &mut Vec<u8>, tag: u16, data_type: u16, count: u32, value: u32) {
    data.extend_from_slice(&tag.to_be_bytes());
    data.extend_from_slice(&data_type.to_be_bytes());
    data.extend_from_slice(&count.to_be_bytes());
    data.extend_from_slice(&value.to_be_bytes());
}

#[test]
fn test_parse_minimal_tiff() {
    let data = create_minimal_tiff();
    let metadata = parse_cog_metadata(&data).unwrap();
    assert_eq!(metadata.levels.len(), 1);
    assert_eq!(metadata.levels[0].width, 512);
    assert_eq!(metadata.levels[0].height, 512);
    assert_eq!(metadata.levels[0].tile_width, 256);
    assert_eq!(metadata.levels[0].tiles_across, 2);
    assert_eq!(metadata.levels[0].tiles_down, 2);
}

#[test]
fn test_tiles_for_bounds() {
    let level = OverviewLevel {
        level: 0,
        width: 1024,
        height: 1024,
        tile_width: 256,
        tile_height: 256,
        tiles_across: 4,
        tiles_down: 4,
        tile_offsets: vec![],
        tile_byte_counts: vec![],
    };

    let indices = tiles_for_bounds(&level, 0, 0, 512, 512);
    assert_eq!(indices.len(), 4); // 2x2 tiles
    assert_eq!(indices, vec![0, 1, 4, 5]);
}

#[test]
fn tiles_for_bounds_clips_to_grid_and_rounds_up() {
    let level = OverviewLevel {
        level: 0,
        width: 1000,
        height: 600,
        tile_width: 256,
        tile_height: 256,
        tiles_across: 4,
        tiles_down: 3,
        tile_offsets: vec![],
        tile_byte_counts: vec![],
    };
    // Columns 1..4 (1000 / 256 rounded up, clipped to 4), rows 2..3 (clipped to 3).
    assert_eq!(tiles_for_bounds(&level, 300, 600, 5000, 5000), vec![9, 10, 11]);
    // An empty box covers no tile.
    assert_eq!(tiles_for_bounds(&level, 100, 100, 100, 0), Vec::<usize>::new());
}

#[test]
fn parse_defaults_and_sample_fields() {
    let mut data = Vec::new();
    data.extend_from_slice(b"II");
    data.extend_from_slice(&42u16.to_le_bytes());
    data.extend_from_slice(&8u32.to_le_bytes());
    data.extend_from_slice(&5u16.to_le_bytes());
    entry_le(&mut data, 256, 4, 1, 600);
    entry_le(&mut data, 257, 4, 1, 300);
    entry_le(&mut data, 258, 3, 1, 16);
    entry_le(&mut data, 259, 3, 1, 7);
    entry_le(&mut data, 277, 3, 1, 4);
    data.extend_from_slice(&0u32.to_le_bytes());
    let m = parse_cog_metadata(&data).unwrap();
    assert_eq!(m.bits_per_sample, 16);
    assert_eq!(m.compression, 7);
    assert_eq!(m.samples_per_pixel, 4);
    let l = &m.levels[0];
    // Tiles default to 256 x 256: 600 / 256 and 300 / 256 rounded up.
    assert_eq!((l.tile_width, l.tile_height), (256, 256));
    assert_eq!((l.tiles_across, l.tiles_down), (3, 2));
    assert_eq!(l.level, 0);
}

#[test]
fn parse_offset_arrays_and_two_levels_big_endian() {
    let mut data = Vec::new();
    data.extend_from_slice(b"MM");
    data.extend_from_slice(&42u16.to_be_bytes());
    data.extend_from_slice(&8u32.to_be_bytes());
    // IFD 0 at 8: 4 entries, tile offsets (SHORT x 2) and byte counts (LONG8 x 2).
    data.extend_from_slice(&4u16.to_be_bytes());
    entry_be(&mut data, 256, 4, 1, 512);
    entry_be(&mut data, 257, 4, 1, 256);
    entry_be(&mut data, 324, 3, 2, 100);
    entry_be(&mut data, 325, 16, 2, 104);
    let next_at = data.len();
    data.extend_from_slice(&0u32.to_be_bytes());
    while data.len() < 100 {
        data.push(0);
    }
    data.extend_from_slice(&300u16.to_be_bytes());
    data.extend_from_slice(&400u16.to_be_bytes());
    data.extend_from_slice(&11u64.to_be_bytes());
    data.extend_from_slice(&22u64.to_be_bytes());
    // IFD 1: a single entry with a one-element tile offset table.
    let second = data.len() as u32;
    data[next_at..next_at + 4].copy_from_slice(&second.to_be_bytes());
    data.extend_from_slice(&1u16.to_be_bytes());
    entry_be(&mut data, 324, 4, 1, 777);
    data.extend_from_slice(&0u32.to_be_bytes());

    let m = parse_cog_metadata(&data).unwrap();
    assert_eq!(m.levels.len(), 2);
    assert_eq!(m.levels[0].tile_offsets, vec![300, 400]);
    assert_eq!(m.levels[0].tile_byte_counts, vec![11, 22]);
    assert_eq!((m.levels[0].tiles_across, m.levels[0].tiles_down), (2, 1));
    assert_eq!(m.levels[1].level, 1);
    assert_eq!(m.levels[1].tile_offsets, vec![777]);
    assert_eq!(m.levels[1].width, 0);
    assert_eq!(m.levels[1].tiles_across, 0);
}

#[test]
fn parse_rejects_bad_headers() {
    assert!(matches!(parse_cog_metadata(b"II*"), Err(CogError::UnexpectedEof)));
    assert!(matches!(parse_cog_metadata(b"XX*\0\x08\0\0\0"), Err(CogError::InvalidHeader)));
    assert!(matches!(parse_cog_metadata(b"II\x2b\0\x08\0\0\0"), Err(CogError::InvalidHeader)));
    // The first IFD lies beyond the data.
    assert!(matches!(parse_cog_metadata(b"II*\0\x40\0\0\0"), Err(CogError::UnexpectedEof)));
    // No IFD at all: offset 0 ends the chain at once.
    let m = parse_cog_metadata(b"II*\0\0\0\0\0").unwrap();
    assert!(m.levels.is_empty());
    assert_eq!((m.samples_per_pixel, m.bits_per_sample, m.compression), (1, 8, 1));
}

#[test]
fn parse_truncated_entry_and_offset_table() {
    let mut data = create_minimal_tiff();
    data.truncate(8 + 2 + 12 * 3 + 5);
    assert!(matches!(parse_cog_metadata(&data), Err(CogError::UnexpectedEof)));

    let mut data = Vec::new();
    data.extend_from_slice(b"II");
    data.extend_from_slice(&42u16.to_le_bytes());
    data.extend_from_slice(&8u32.to_le_bytes());
    data.extend_from_slice(&1u16.to_le_bytes());
    entry_le(&mut data, 325, 4, 3, 1000);
    data.extend_from_slice(&0u32.to_le_bytes());
    assert!(matches!(parse_cog_metadata(&data), Err(CogError::UnexpectedEof)));
}

#[test]
fn parse_outcome_zero_tile_and_endless_chain() {
    let mut data = Vec::new();
    data.extend_from_slice(b"II");
    data.extend_from_slice(&42u16.to_le_bytes());
    data.extend_from_slice(&8u32.to_le_bytes());
    data.extend_from_slice(&1u16.to_le_bytes());
    entry_le(&mut data, 322, 4, 1, 0);
    data.extend_from_slice(&0u32.to_le_bytes());
    assert!(matches!(parse_cog_outcome(&data), CogParseOutcome::ZeroTileSize));

    // An IFD whose next offset points back at itself.
    let mut data = Vec::new();
    data.extend_from_slice(b"II");
    data.extend_from_slice(&42u16.to_le_bytes());
    data.extend_from_slice(&8u32.to_le_bytes());
    data.extend_from_slice(&0u16.to_le_bytes());
    data.extend_from_slice(&8u32.to_le_bytes());
    assert!(matches!(parse_cog_outcome(&data), CogParseOutcome::EndlessChain));

    assert!(matches!(
        parse_cog_outcome(&create_minimal_tiff()),
        CogParseOutcome::Parsed(Ok(_))
    ));
}

fn metadata_with_tile(offset: u64, length: u64) -> CogMetadata {
    CogMetadata {
        levels: vec![OverviewLevel {
            level: 0,
            width: 1,
            height: 1,
            tile_width: 1,
            tile_height: 1,
            tiles_across: 1,
            tiles_down: 1,
            tile_offsets: vec![offset],
            tile_byte_counts: vec![length],
        }],
        samples_per_pixel: 1,
        bits_per_sample: 8,
        compression: 1,
    }
}

#[test]
fn read_raw_tile_bytes_and_errors() {
    let data: Vec<u8> = (0u8..20).collect();
    let meta = metadata_with_tile(5, 4);
    assert_eq!(read_raw_tile(&data, &meta, 0, 0).unwrap(), vec![5, 6, 7, 8]);
    assert!(matches!(read_raw_tile(&data, &meta, 1, 0), Err(CogError::TileNotFound(0))));
    assert!(matches!(read_raw_tile(&data, &meta, 0, 3), Err(CogError::TileNotFound(3))));
    let past_end = metadata_with_tile(18, 4);
    assert!(matches!(read_raw_tile(&data, &past_end, 0, 0), Err(CogError::UnexpectedEof)));
    let empty = metadata_with_tile(20, 0);
    assert_eq!(read_raw_tile(&data, &empty, 0, 0).unwrap(), Vec::<u8>::new());
    // A tile of 0 bytes reads as empty even when its offset lies past the end of the data.
    let empty_past_end = metadata_with_tile(1000, 0);
    assert_eq!(read_raw_tile(&data, &empty_past_end, 0, 0).unwrap(), Vec::<u8>::new());
}

#[test]
fn two_ifds_pointing_at_each_other_never_end() {
    let mut data = Vec::new();
    data.extend_from_slice(b"MM");
    data.extend_from_slice(&42u16.to_be_bytes());
    data.extend_from_slice(&8u32.to_be_bytes());
    // IFD at 8 (no entries) leads to 14; IFD at 14 leads back to 8.
    data.extend_from_slice(&0u16.to_be_bytes());
    data.extend_from_slice(&14u32.to_be_bytes());
    data.extend_from_slice(&0u16.to_be_bytes());
    data.extend_from_slice(&8u32.to_be_bytes());
    assert!(matches!(parse_cog_outcome(&data), CogParseOutcome::EndlessChain));
    // Ending the second IFD's chain instead gives two levels.
    data[16..20].copy_from_slice(&0u32.to_be_bytes());
    let m = parse_cog_metadata(&data).unwrap();
    assert_eq!(m.levels.len(), 2);
    assert_eq!((m.levels[0].level, m.levels[1].level), (0, 1));
}
