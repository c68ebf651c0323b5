//! The two error taxonomies of the engine: one for reading a chunk, one for
//! writing it.

use crate::position::{append_u64, dec_digits};
use nbt::decode::TagDecodeError;
use vstd::prelude::*;

verus! {

/// Possible errors while loading a chunk.
#[derive(Debug)]
pub enum ChunkReadError {
    /// No chunk is stored at the given coordinates inside the region.
    ///
    /// This is the only error expected during normal operation: callers use
    /// it to tell "not yet generated" from corruption.
    ChunkNotFound { region_chunk_x: u8, region_chunk_z: u8 },
    /// The slab's declared length is zero, overruns the slot's sectors or
    /// the 1 MiB ceiling, or runs past the end of the file.
    ///
    /// The region file is corrupted.
    LengthExceedsMaximum {
        /// Declared chunk length.
        length: u32,
        /// Largest length the slot admits.
        maximum_length: u32,
    },
    /// The scheme byte is neither gzip nor zlib.
    ///
    /// The region file is corrupted, or uses a compression scheme this
    /// engine does not know.
    UnsupportedCompressionScheme {
        /// The scheme byte that was read.
        compression_scheme: u8,
    },
    /// I/O failure in the embedding program's byte store.
    IOError { io_error: std::io::Error },
    /// The payload codec failed to decode the compressed bytes.
    TagDecodeError { tag_decode_error: TagDecodeError },
}

impl ChunkReadError {
    /// The error's description, as a diagnostic line shows it.
    pub open spec fn message_view(self) -> Seq<char> {
        match self {
            ChunkReadError::ChunkNotFound { region_chunk_x, region_chunk_z } => "Chunk "@
                + dec_digits(region_chunk_x as int) + ", "@ + dec_digits(region_chunk_z as int)
                + " not found"@,
            ChunkReadError::LengthExceedsMaximum { length, maximum_length } => "Chunk length of "@
                + dec_digits(length as int) + " exceeds maximum ("@ + dec_digits(
                maximum_length as int,
            ) + ")"@,
            ChunkReadError::UnsupportedCompressionScheme { compression_scheme } =>
                "Unsupported compression scheme: "@ + dec_digits(compression_scheme as int),
            ChunkReadError::IOError { .. } => "IO Error"@,
            ChunkReadError::TagDecodeError { .. } => "Failed to decode nbt"@,
        }
    }

    /// Renders the error's description.
    pub fn message(&self) -> (r: String)
        ensures
            r@ == self.message_view(),
    {
        match self {
            ChunkReadError::ChunkNotFound { region_chunk_x, region_chunk_z } => {
                proof {
                    reveal_strlit("Chunk ");
                    reveal_strlit(", ");
                    reveal_strlit(" not found");
                }
                let mut s = String::new();
                s.append("Chunk ");
                append_u64(&mut s, *region_chunk_x as u64);
                s.append(", ");
                append_u64(&mut s, *region_chunk_z as u64);
                s.append(" not found");
                s
            },
            ChunkReadError::LengthExceedsMaximum { length, maximum_length } => {
                proof {
                    reveal_strlit("Chunk length of ");
                    reveal_strlit(" exceeds maximum (");
                    reveal_strlit(")");
                }
                let mut s = String::new();
                s.append("Chunk length of ");
                append_u64(&mut s, *length as u64);
                s.append(" exceeds maximum (");
                append_u64(&mut s, *maximum_length as u64);
                s.append(")");
                s
            },
            ChunkReadError::UnsupportedCompressionScheme { compression_scheme } => {
                proof {
                    reveal_strlit("Unsupported compression scheme: ");
                }
                let mut s = String::new();
                s.append("Unsupported compression scheme: ");
                append_u64(&mut s, *compression_scheme as u64);
                s
            },
            ChunkReadError::IOError { .. } => {
                proof {
                    reveal_strlit("IO Error");
                }
                String::from_str("IO Error")
            },
            ChunkReadError::TagDecodeError { .. } => {
                proof {
                    reveal_strlit("Failed to decode nbt");
                }
                String::from_str("Failed to decode nbt")
            },
        }
    }
}

/// Possible errors while saving a chunk.
#[derive(Debug)]
pub enum ChunkWriteError {
    /// The compressed slab does not fit the format's limits: it is larger
    /// than 1 MiB, or needs more than 255 sectors. The caller must shrink
    /// the payload.
    LengthExceedsMaximum {
        /// Length the slab would have had.
        length: u32,
    },
    /// I/O failure in the embedding program's byte store.
    IOError { io_error: std::io::Error },
}

impl ChunkWriteError {
    /// The error's description, as a diagnostic line shows it.
    pub open spec fn message_view(self) -> Seq<char> {
        match self {
            ChunkWriteError::LengthExceedsMaximum { length } => "Chunk length of "@ + dec_digits(
                length as int,
            ) + " exceeds maximum (1mb)"@,
            ChunkWriteError::IOError { .. } => "IO Error"@,
        }
    }

    /// Renders the error's description.
    pub fn message(&self) -> (r: String)
        ensures
            r@ == self.message_view(),
    {
        match self {
            ChunkWriteError::LengthExceedsMaximum { length } => {
                proof {
                    reveal_strlit("Chunk length of ");
                    reveal_strlit(" exceeds maximum (1mb)");
                }
                let mut s = String::new();
                s.append("Chunk length of ");
                append_u64(&mut s, *length as u64);
                s.append(" exceeds maximum (1mb)");
                s
            },
            ChunkWriteError::IOError { .. } => {
                proof {
                    reveal_strlit("IO Error");
                }
                String::from_str("IO Error")
            },
        }
    }
}

} // verus!
