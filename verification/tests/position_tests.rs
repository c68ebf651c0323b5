use anvil_region::position::{RegionChunkPosition, RegionPosition};
use anvil_region::provider::region_pos_from_filename;

#[test]
fn position_test_position_parse() {
    let pos = RegionPosition::from_filename("r.0.0.mca").unwrap();
    assert_eq!(RegionPosition { x: 0, z: 0 }, pos)
}

#[test]
#[should_panic]
fn position_test_position_parse_invalid_format() {
    RegionPosition::from_filename("this is not a valid region.filename").unwrap();
}

#[test]
fn provider_test_position_parse() {
    let pos = region_pos_from_filename("r.-1.1.mca").unwrap();
    assert_eq!(RegionPosition { x: -1, z: 1 }, pos)
}

#[test]
#[should_panic]
fn provider_test_position_parse_invalid_format() {
    region_pos_from_filename("this is not a valid region.filename").unwrap();
}

#[test]
fn filename_formats_signed_decimal() {
    assert_eq!(RegionPosition::new(0, 0).filename(), "r.0.0.mca");
    assert_eq!(RegionPosition::new(-1, 1).filename(), "r.-1.1.mca");
    assert_eq!(RegionPosition::new(127, -302).filename(), "r.127.-302.mca");
    assert_eq!(
        RegionPosition::new(i32::MIN, i32::MAX).filename(),
        "r.-2147483648.2147483647.mca"
    );
}

#[test]
fn filename_parse_round_trip() {
    for &(x, z) in &[(0, 0), (-1, 1), (12, -34), (i32::MIN, i32::MAX)] {
        let name = RegionPosition::new(x, z).filename();
        let parsed = RegionPosition::from_filename(&name).unwrap();
        assert_eq!(parsed, RegionPosition { x, z });
    }
}

#[test]
fn filename_parse_rejects_bad_names() {
    assert!(RegionPosition::from_filename("r.0.0.mcb").is_err());
    assert!(RegionPosition::from_filename("s.0.0.mca").is_err());
    assert!(RegionPosition::from_filename("r.0.mca").is_err());
    assert!(RegionPosition::from_filename("r..0.mca").is_err());
    assert!(RegionPosition::from_filename("r.0.0.0.mca").is_err());
    assert!(RegionPosition::from_filename("r.+12.7.mca").is_ok());
    assert!(RegionPosition::from_filename("r.2147483648.0.mca").is_err());
    assert!(RegionPosition::from_filename("r.-2147483648.0.mca").is_ok());
}

#[test]
fn region_position_from_chunk_position_rounds_down() {
    assert_eq!(
        RegionPosition::from_chunk_position(4, 2),
        RegionPosition { x: 0, z: 0 }
    );
    assert_eq!(
        RegionPosition::from_chunk_position(31, 16),
        RegionPosition { x: 0, z: 0 }
    );
    assert_eq!(
        RegionPosition::from_chunk_position(32, -1),
        RegionPosition { x: 1, z: -1 }
    );
    assert_eq!(
        RegionPosition::from_chunk_position(-33, -32),
        RegionPosition { x: -2, z: -1 }
    );
}

#[test]
fn region_chunk_position_wraps_negative_coordinates() {
    assert_eq!(
        RegionChunkPosition::from_chunk_position(4, 2),
        RegionChunkPosition { x: 4, z: 2 }
    );
    assert_eq!(
        RegionChunkPosition::from_chunk_position(-1, -33),
        RegionChunkPosition { x: 31, z: 31 }
    );
    assert_eq!(
        RegionChunkPosition::from_chunk_position(32, 63),
        RegionChunkPosition { x: 0, z: 31 }
    );
}

#[test]
fn metadata_index_formula() {
    assert_eq!(RegionChunkPosition::new(0, 0).metadata_index(), 0);
    assert_eq!(RegionChunkPosition::new(15, 15).metadata_index(), 495);
    assert_eq!(RegionChunkPosition::new(31, 31).metadata_index(), 1023);
    assert_eq!(RegionChunkPosition::new(0, 8).metadata_index(), 256);
}
