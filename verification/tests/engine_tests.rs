use anvil_region::error::{ChunkReadError, ChunkWriteError};
use anvil_region::region::{ChunkMetadata, Region};
use anvil_region::source::MemorySource;
use nbt::CompoundTag;

fn write_be32(buffer: &mut Vec<u8>, offset: usize, value: u32) {
    let bytes = value.to_be_bytes();
    buffer[offset..offset + 4].copy_from_slice(&bytes);
}

fn set_location_word(buffer: &mut Vec<u8>, slot: usize, start_sector: u32, sectors: u32) {
    write_be32(buffer, 4 * slot, (start_sector << 8) | sectors);
}

#[test]
fn empty_init_all_absent_header_bitmap() {
    let region = Region::load(0, 0, MemorySource::empty());

    for z in 0..32u8 {
        for x in 0..32u8 {
            assert_eq!(region.get_metadata(x, z), ChunkMetadata::new(0, 0, 0));
        }
    }
    assert_eq!(region.used_sectors().to_bools(), vec![true, true]);
    assert_eq!(region.source_len(), 0);
}

#[test]
fn header_read_slot_256_location_word() {
    // Slot 256 holds the location word (61 << 8) | 2 = 15618 and the
    // timestamp 1570215508.
    let mut buffer = vec![0u8; 63 * 4096];
    write_be32(&mut buffer, 4 * 256, 15618);
    write_be32(&mut buffer, 4096 + 4 * 256, 1570215508);

    let region = Region::load(0, 0, MemorySource::new(buffer));
    assert_eq!(region.get_metadata(0, 8), ChunkMetadata::new(61, 2, 1570215508));
}

#[test]
fn read_absent_chunk_on_empty_source() {
    let region = Region::load(0, 0, MemorySource::empty());
    match region.read_chunk(0, 0) {
        Err(ChunkReadError::ChunkNotFound {
            region_chunk_x: 0,
            region_chunk_z: 0,
        }) => {}
        other => panic!("Expected `ChunkNotFound` but got `{:?}`", other.err()),
    }
}

#[test]
fn write_then_read_yields_same_payload() {
    let mut region = Region::load(0, 0, MemorySource::empty());

    let mut tag = CompoundTag::new();
    tag.insert_bool("bool", true);
    tag.insert_str("str", "test");
    region.write_chunk(15, 15, tag).unwrap();

    assert_eq!(region.source_len(), 12288);
    assert_eq!(region.used_sectors().len(), 3);

    let read = region.read_chunk(15, 15).unwrap();
    assert!(read.get_bool("bool").unwrap());
    assert_eq!(read.get_str("str").unwrap(), "test");
}

#[test]
fn last_write_wins() {
    let mut region = Region::load(0, 0, MemorySource::empty());

    let mut first = CompoundTag::new();
    first.insert_str("payload", "first");
    let mut second = CompoundTag::new();
    second.insert_str("payload", "second");

    region.write_chunk(7, 3, first).unwrap();
    region.write_chunk(7, 3, second).unwrap();

    let read = region.read_chunk(7, 3).unwrap();
    assert_eq!(read.get_str("payload").unwrap(), "second");
}

#[test]
fn write_does_not_affect_other_slots() {
    let mut region = Region::load(0, 0, MemorySource::empty());

    let mut kept = CompoundTag::new();
    kept.insert_i32("value", 41);
    region.write_chunk(1, 1, kept).unwrap();

    let mut other = CompoundTag::new();
    let mut i32_vec = Vec::new();
    for i in 0..3000 {
        i32_vec.push(i);
    }
    other.insert_i32_vec("filler", i32_vec);
    region.write_chunk(2, 2, other).unwrap();

    let read = region.read_chunk(1, 1).unwrap();
    assert_eq!(read.get_i32("value").unwrap(), 41);
    match region.read_chunk(0, 0) {
        Err(ChunkReadError::ChunkNotFound { .. }) => {}
        other => panic!("Expected `ChunkNotFound` but got `{:?}`", other.err()),
    }
}

#[test]
fn gap_of_one_sector_is_reused() {
    // Sectors 2 and 4 occupied, sector 3 free, file length 5 sectors.
    let mut buffer = vec![0u8; 8192 + 4096 * 3];
    set_location_word(&mut buffer, 0, 2, 1);
    set_location_word(&mut buffer, 1, 4, 1);
    let mut region = Region::load(0, 0, MemorySource::new(buffer));

    let mut tag = CompoundTag::new();
    tag.insert_str("fresh", "slot");
    region.write_chunk(15, 15, tag).unwrap();

    assert_eq!(region.get_metadata(15, 15).start_sector_index, 3);
    assert_eq!(region.get_metadata(15, 15).sectors, 1);
    assert_eq!(region.source_len(), 8192 + 4096 * 3);
}

#[test]
fn relocate_on_grow_frees_old_range() {
    let mut region = Region::load(0, 0, MemorySource::empty());

    let mut small = CompoundTag::new();
    small.insert_str("small", "payload");
    region.write_chunk(15, 15, small).unwrap();
    let before = region.get_metadata(15, 15);
    assert_eq!(before.start_sector_index, 2);
    assert_eq!(before.sectors, 1);
    assert_eq!(region.source_len(), 12288);

    let mut big = CompoundTag::new();
    let mut i32_vec = Vec::new();
    for i in 0..3000 {
        i32_vec.push(i);
    }
    big.insert_i32_vec("filler", i32_vec);
    region.write_chunk(15, 15, big).unwrap();

    let md = region.get_metadata(15, 15);
    assert_eq!(md.sectors, 2);
    assert_eq!(md.start_sector_index, 2);
    // The file grew by exactly one sector: the freed sector plus one new one.
    assert_eq!(region.source_len(), 16384);
    assert_eq!(region.used_sectors().len(), 4);
}

#[test]
fn write_rejects_slab_over_the_sector_cap() {
    let mut region = Region::load(0, 0, MemorySource::empty());
    let data = vec![2u8; 2_000_000];
    match region.write_chunk_data(0, 0, &data, 0) {
        Err(ChunkWriteError::LengthExceedsMaximum { length }) => {
            assert_eq!(length, 2_000_004);
        }
        other => panic!("Expected `LengthExceedsMaximum` but got `{:?}`", other),
    }
    // The boundary: 255 sectors is the largest slab the header can state.
    let fits = vec![2u8; 1044475];
    assert!(region.write_chunk_data(1, 0, &fits, 0).is_ok());
    let too_big = vec![2u8; 1044476];
    assert!(region.write_chunk_data(2, 0, &too_big, 0).is_err());
}

#[test]
fn read_rejects_unknown_compression_scheme() {
    let mut region = Region::load(0, 0, MemorySource::empty());
    region.write_chunk_data(0, 0, &vec![3u8, 10, 20, 30], 0).unwrap();
    match region.read_chunk(0, 0) {
        Err(ChunkReadError::UnsupportedCompressionScheme {
            compression_scheme,
        }) => {
            assert_eq!(compression_scheme, 3);
        }
        other => panic!(
            "Expected `UnsupportedCompressionScheme` but got `{:?}`",
            other.err()
        ),
    }
}

#[test]
fn read_rejects_length_over_slot_bound() {
    // One slot of one sector whose slab claims 5000 bytes.
    let mut buffer = vec![0u8; 12288];
    set_location_word(&mut buffer, 0, 2, 1);
    write_be32(&mut buffer, 8192, 5000);
    let region = Region::load(0, 0, MemorySource::new(buffer));

    match region.read_chunk(0, 0) {
        Err(ChunkReadError::LengthExceedsMaximum {
            length,
            maximum_length,
        }) => {
            assert_eq!(length, 5000);
            assert_eq!(maximum_length, 4096);
        }
        other => panic!("Expected `LengthExceedsMaximum` but got `{:?}`", other.err()),
    }
}

#[test]
fn read_accepts_gzip_scheme() {
    let mut region = Region::load(0, 0, MemorySource::empty());

    let mut tag = CompoundTag::new();
    tag.insert_str("scheme", "gzip");
    let mut compressed = Vec::new();
    nbt::encode::write_gzip_compound_tag(&mut compressed, &tag).unwrap();
    let mut data = vec![1u8];
    data.extend_from_slice(&compressed);

    region.write_chunk_data(5, 5, &data, 7).unwrap();
    assert_eq!(region.get_metadata(5, 5).last_modified_timestamp, 7);

    let read = region.read_chunk(5, 5).unwrap();
    assert_eq!(read.get_str("scheme").unwrap(), "gzip");
}

#[test]
fn load_drops_corrupt_header_entries() {
    let mut buffer = vec![0u8; 8192 + 4096 * 4];
    // A sane slot.
    set_location_word(&mut buffer, 0, 2, 1);
    // Absence is count 0 and start 0 together: a count without a start is
    // corruption and loads as absent.
    set_location_word(&mut buffer, 1, 0, 3);
    // A slab may not point into the header sectors.
    set_location_word(&mut buffer, 2, 1, 1);
    // Nor past the end of the file.
    set_location_word(&mut buffer, 3, 5, 2);
    // Nor overlap an earlier accepted slab.
    set_location_word(&mut buffer, 4, 2, 2);

    let region = Region::load(0, 0, MemorySource::new(buffer));

    assert_eq!(region.get_metadata(0, 0), ChunkMetadata::new(2, 1, 0));
    assert_eq!(region.get_metadata(1, 0), ChunkMetadata::new(0, 0, 0));
    assert_eq!(region.get_metadata(2, 0), ChunkMetadata::new(0, 0, 0));
    assert_eq!(region.get_metadata(3, 0), ChunkMetadata::new(0, 0, 0));
    assert_eq!(region.get_metadata(4, 0), ChunkMetadata::new(0, 0, 0));
    // The bitmap marks the header and the one accepted slab.
    assert_eq!(
        region.used_sectors().to_bools(),
        vec![true, true, true, false, false, false]
    );
}

#[test]
fn source_round_trips_big_endian_words() {
    let mut source = MemorySource::new(vec![0u8; 8]);
    source.write_u32_be(0, 15618);
    source.write_u32_be(4, 0xDEADBEEF);
    assert_eq!(source.read_u32_be(0), 15618);
    assert_eq!(source.read_u32_be(4), 0xDEADBEEF);
    let bytes = source.into_bytes();
    assert_eq!(&bytes[0..4], &[0, 0, 61, 2]);
    assert_eq!(&bytes[4..8], &[0xDE, 0xAD, 0xBE, 0xEF]);
}

#[test]
fn error_messages() {
    let e = ChunkReadError::ChunkNotFound { region_chunk_x: 14, region_chunk_z: 12 };
    assert_eq!(e.message(), "Chunk 14, 12 not found");
    let e = ChunkReadError::LengthExceedsMaximum { length: 5000, maximum_length: 4096 };
    assert_eq!(e.message(), "Chunk length of 5000 exceeds maximum (4096)");
    let e = ChunkReadError::UnsupportedCompressionScheme { compression_scheme: 3 };
    assert_eq!(e.message(), "Unsupported compression scheme: 3");
    let e = ChunkWriteError::LengthExceedsMaximum { length: 2_000_004 };
    assert_eq!(e.message(), "Chunk length of 2000004 exceeds maximum (1mb)");
}

#[test]
fn read_chunk_level_coordinates() {
    let mut region = Region::load(0, 0, MemorySource::empty());
    let mut level = CompoundTag::new();
    level.insert_i32("xPos", 15);
    level.insert_i32("zPos", 3);
    let mut chunk = CompoundTag::new();
    chunk.insert_compound_tag("Level", level);
    region.write_chunk(15, 3, chunk).unwrap();

    let read = region.read_chunk(15, 3).unwrap();
    let level = read.get_compound_tag("Level").unwrap();
    assert_eq!(level.get_i32("xPos").unwrap(), 15);
    assert_eq!(level.get_i32("zPos").unwrap(), 3);
}
