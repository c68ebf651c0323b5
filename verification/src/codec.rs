//! The boundary to the payload codec (the `nbt` crate) and to the system
//! clock. A chunk payload is an opaque compound tag; the engine neither
//! parses nor builds one, it only asks the codec to compress or decompress.

use nbt::decode::TagDecodeError;
use nbt::CompoundTag;
use vstd::prelude::*;

verus! {

#[verifier::external_type_specification]
#[verifier::external_body]
pub struct ExCompoundTag(CompoundTag);

#[verifier::external_type_specification]
#[verifier::external_body]
pub struct ExTagDecodeError(TagDecodeError);

#[verifier::external_type_specification]
#[verifier::external_body]
pub struct ExIoError(std::io::Error);

/// Relies on nbt's `read_gzip_compound_tag`: decodes a compound tag from a
/// gzip-compressed byte stream.
#[verifier::external_body]
pub fn read_gzip_compound_tag(bytes: &Vec<u8>) -> Result<CompoundTag, TagDecodeError> {
    nbt::decode::read_gzip_compound_tag(&mut std::io::Cursor::new(bytes.as_slice()))
}

/// Relies on nbt's `read_zlib_compound_tag`: decodes a compound tag from a
/// zlib-compressed byte stream.
#[verifier::external_body]
pub fn read_zlib_compound_tag(bytes: &Vec<u8>) -> Result<CompoundTag, TagDecodeError> {
    nbt::decode::read_zlib_compound_tag(&mut std::io::Cursor::new(bytes.as_slice()))
}

/// Relies on nbt's `write_zlib_compound_tag`: encodes the tag and compresses
/// it as a zlib stream into a fresh byte buffer.
#[verifier::external_body]
pub fn write_zlib_compound_tag(tag: &CompoundTag) -> Result<Vec<u8>, std::io::Error> {
    let mut buffer: Vec<u8> = Vec::new();
    nbt::encode::write_zlib_compound_tag(&mut buffer, tag)?;
    Ok(buffer)
}

/// Relies on std's `SystemTime::now`, `duration_since` and `as_secs`:
/// seconds of wall-clock time since the Unix epoch, truncated to 32 bits,
/// or 0 when the clock reads before the epoch. Nothing is promised of the
/// value: it depends on the machine's clock.
#[verifier::external_body]
pub fn epoch_seconds_now() -> u32 {
    match std::time::SystemTime::now().duration_since(std::time::UNIX_EPOCH) {
        Ok(d) => d.as_secs() as u32,
        Err(_) => 0,
    }
}

} // verus!
