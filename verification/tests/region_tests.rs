use anvil_region::region::{metadata_index, used_sectors, ChunkMetadata, Region};
use anvil_region::source::MemorySource;
use nbt::CompoundTag;

fn write_be32(buffer: &mut Vec<u8>, offset: usize, value: u32) {
    let bytes = value.to_be_bytes();
    buffer[offset..offset + 4].copy_from_slice(&bytes);
}

fn set_location_word(buffer: &mut Vec<u8>, slot: usize, start_sector: u32, sectors: u32) {
    write_be32(buffer, 4 * slot, (start_sector << 8) | sectors);
}

fn set_timestamp_word(buffer: &mut Vec<u8>, slot: usize, timestamp: u32) {
    write_be32(buffer, 4096 + 4 * slot, timestamp);
}

fn pack_first_word(bits: &[bool]) -> u64 {
    let mut word: u64 = 0;
    for (i, b) in bits.iter().enumerate().take(64) {
        if *b {
            word |= 1u64 << i;
        }
    }
    word
}

fn small_tag() -> CompoundTag {
    let mut tag = CompoundTag::new();
    tag.insert_bool("test_bool", true);
    tag.insert_str("test_str", "test");
    tag
}

#[test]
fn test_header_read() {
    let expected_data = vec![
        ChunkMetadata::new(61, 2, 1570215508),
        ChunkMetadata::new(102, 2, 1570215511),
        ChunkMetadata::new(177, 2, 1570215515),
        ChunkMetadata::new(265, 2, 1570215519),
        ChunkMetadata::new(56, 2, 1570215508),
    ];

    // The same slots and words the shipped region fixture holds: slots 256
    // onward, with the file long enough to cover every referenced sector.
    let mut buffer = vec![0u8; 267 * 4096];
    let starts = [61u32, 102, 177, 265, 56];
    let stamps = [1570215508u32, 1570215511, 1570215515, 1570215519, 1570215508];
    for i in 0..5 {
        set_location_word(&mut buffer, 256 + i, starts[i], 2);
        set_timestamp_word(&mut buffer, 256 + i, stamps[i]);
    }

    let region = Region::load(0, 0, MemorySource::new(buffer));

    for (index, expected_chunk_metadata) in expected_data.iter().enumerate() {
        let chunk_metadata = region.get_metadata(index as u8, 8);
        assert_eq!(&chunk_metadata, expected_chunk_metadata);
    }
}

#[test]
fn test_read_chunk_not_found() {
    let region = Region::load(0, 0, MemorySource::new(vec![0u8; 8192]));
    let load_error = region.read_chunk(14, 12).err().unwrap();

    match load_error {
        anvil_region::error::ChunkReadError::ChunkNotFound {
            region_chunk_x,
            region_chunk_z,
        } => {
            assert_eq!(region_chunk_x, 14);
            assert_eq!(region_chunk_z, 12);
        }
        _ => panic!("Expected `ChunkNotFound` but got `{:?}`", load_error),
    }
}

#[test]
fn test_update_metadata() {
    let source = MemorySource::new(vec![0u8; 8192]);
    let mut region = Region::load(1, 1, source);

    let mut metadata = ChunkMetadata::new(500, 10, 0);
    metadata.update_last_modified_timestamp();

    region.update_metadata(15, 15, metadata);

    let chunks_metadata = Region::read_header(&MemorySource::new(region.source_bytes()));
    let metadata_index = metadata_index(15, 15);

    // In memory metadata.
    assert_eq!(region.get_metadata(15, 15), metadata);
    // Written to file metadata.
    assert_eq!(chunks_metadata[metadata_index], metadata);
}

#[test]
fn test_write_chunk_with_source_extend() {
    let mut region = Region::load(1, 1, MemorySource::empty());

    let write_compound_tag = small_tag();
    region.write_chunk(15, 15, write_compound_tag).unwrap();

    assert_eq!(region.source_len(), 8192 + 4096);
    assert_eq!(region.used_sectors().len(), 3);

    let read_compound_tag = region.read_chunk(15, 15).unwrap();

    assert!(read_compound_tag.get_bool("test_bool").unwrap());
    assert_eq!(read_compound_tag.get_str("test_str").unwrap(), "test");
}

#[test]
fn test_write_chunk_same_sector() {
    let mut region = Region::load(1, 1, MemorySource::empty());

    let mut write_compound_tag_1 = small_tag();
    write_compound_tag_1.insert_f32("test_f32", 1.23);

    region.write_chunk(15, 15, write_compound_tag_1).unwrap();

    let write_compound_tag_2 = small_tag();
    region.write_chunk(15, 15, write_compound_tag_2).unwrap();

    assert_eq!(region.source_len(), 8192 + 4096);
    assert_eq!(region.used_sectors().len(), 3);

    let read_compound_tag = region.read_chunk(15, 15).unwrap();

    assert!(read_compound_tag.get_bool("test_bool").unwrap());
    assert_eq!(read_compound_tag.get_str("test_str").unwrap(), "test");
    assert!(!read_compound_tag.contains_key("test_f32"));
}

#[test]
fn test_write_chunk_same_sector_with_source_expand() {
    let mut region = Region::load(1, 1, MemorySource::empty());

    let write_compound_tag_1 = small_tag();
    region.write_chunk(15, 15, write_compound_tag_1).unwrap();

    let mut write_compound_tag_2 = CompoundTag::new();
    let mut i32_vec = Vec::new();

    // Extending chunk to second sector.
    // Due compression we need to write more than 1024 ints.
    for i in 0..3000 {
        i32_vec.push(i)
    }

    write_compound_tag_2.insert_i32_vec("test_i32_vec", i32_vec);

    region.write_chunk(15, 15, write_compound_tag_2).unwrap();

    assert_eq!(region.source_len(), 8192 + 4096 * 2);
    assert_eq!(region.used_sectors().len(), 4);
}

#[test]
fn test_write_chunk_with_insert_in_middle_gap() {
    // Sectors 3 and 4 hold slabs of two other slots, sector 2 is a gap.
    let mut buffer = vec![0u8; 8192 + 4096 * 3];
    set_location_word(&mut buffer, 0, 3, 1);
    set_location_word(&mut buffer, 1, 4, 1);
    let mut region = Region::load(1, 1, MemorySource::new(buffer));

    let write_compound_tag = small_tag();
    region.write_chunk(15, 15, write_compound_tag).unwrap();

    let bits = region.used_sectors();
    for i in 0..5 {
        assert!(bits.get(i));
    }

    assert_eq!(region.source_len(), 8192 + 4096 * 3);
    assert_eq!(region.used_sectors().len(), 5);
}

#[test]
fn test_write_chunk_not_enough_gap() {
    let mut region = Region::load(1, 1, MemorySource::empty());

    let write_compound_tag_1 = small_tag();
    region.write_chunk(15, 15, write_compound_tag_1.clone()).unwrap();
    region.write_chunk(0, 0, write_compound_tag_1).unwrap();

    let mut write_compound_tag_2 = CompoundTag::new();
    let mut i32_vec = Vec::new();

    // Extending chunk to second sector.
    // Due compression we need to write more than 1024 ints.
    for i in 0..3000 {
        i32_vec.push(i)
    }

    write_compound_tag_2.insert_i32_vec("test_i32_vec", i32_vec);

    region.write_chunk(15, 15, write_compound_tag_2).unwrap();

    assert_eq!(pack_first_word(&region.used_sectors().to_bools()), 0b00111011);
    assert_eq!(region.used_sectors().len(), 6);
    assert_eq!(region.source_len(), 8192 + 4096 * 4);
}

#[test]
fn test_used_sectors_only_header() {
    let empty_chunks_metadata = Vec::new();
    let bits = used_sectors(8, &empty_chunks_metadata);

    // Two sectors are used for header data.
    assert_eq!(pack_first_word(&bits.to_bools()), 0b00000011);
}

#[test]
fn test_used_sectors_all() {
    let chunks_metadata = vec![ChunkMetadata::new(2, 6, 0)];
    let bits = used_sectors(8, &chunks_metadata);

    assert_eq!(pack_first_word(&bits.to_bools()), 0b11111111);
}

#[test]
fn test_used_sectors_partially() {
    let chunks_metadata = vec![ChunkMetadata::new(3, 3, 0), ChunkMetadata::new(8, 1, 0)];

    let bits = used_sectors(10, &chunks_metadata);

    assert_eq!(pack_first_word(&bits.to_bools()), 0b100111011);
}

#[test]
fn test_len() {
    let source = MemorySource::new(vec![1, 2, 3, 4, 5]);
    let len = source.len();

    assert_eq!(len, 5);
}

#[test]
fn test_extend_len() {
    let mut source = MemorySource::new(vec![1, 2, 3, 4, 5]);
    source.extend_len(10);
    let len = source.len();

    assert_eq!(len, 10);
}
