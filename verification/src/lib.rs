//! Storage engine for the Anvil region file format: a sector-packed container
//! holding a 32x32 grid of independently compressed chunk payloads together
//! with per-slot location and modification-time metadata.
//!
//! The engine itself operates on an in-memory byte source ([`source::MemorySource`]).
//! Opening files or archives and copying their bytes into such a source is left
//! to the embedding program.

use vstd::prelude::*;

pub mod allocator;
pub mod bits;
pub mod codec;
pub mod error;
pub mod laws;
pub mod position;
pub mod provider;
pub mod region;
pub mod source;

verus! {

/// Number of chunk slots in one region (32 * 32).
pub const REGION_CHUNKS: usize = 1024;

/// Length of the fixed region header in bytes: 1024 location words followed
/// by 1024 timestamp words, four bytes each.
pub const REGION_HEADER_BYTES: usize = 8192;

/// Length of one allocation sector in bytes.
pub const SECTOR_BYTES: usize = 4096;

/// Maximum length in bytes of one chunk slab (256 sectors, 1 MiB).
pub const CHUNK_MAXIMUM_BYTES: u32 = 1048576;

/// Gzip compression scheme marker.
pub const GZIP_COMPRESSION_TYPE: u8 = 1;

/// Zlib compression scheme marker.
pub const ZLIB_COMPRESSION_TYPE: u8 = 2;

} // verus!
