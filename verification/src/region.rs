//! The region engine: a 32x32 grid of chunk slots stored in a sector-packed
//! byte source, with per-slot location and modification-time metadata, a
//! derived bitmap of occupied sectors, and first-fit allocation of slabs.

use crate::allocator::{
    alloc_bits, alloc_grow, alloc_start, first_fit_from, lemma_first_fit_from_some,
    lemma_tail_free_bounds, mark_range, tail_free,
};
use crate::bits::{bit_seq, SectorBits};
use crate::codec::{epoch_seconds_now, read_gzip_compound_tag, read_zlib_compound_tag,
    write_zlib_compound_tag};
use crate::error::{ChunkReadError, ChunkWriteError};
use crate::source::{be32_val, u32_be_bytes, zero_bytes, MemorySource};
use crate::{CHUNK_MAXIMUM_BYTES, REGION_CHUNKS, REGION_HEADER_BYTES, SECTOR_BYTES};
use nbt::CompoundTag;
use vstd::prelude::*;

verus! {

/// One slot's metadata, as held in the region header: where the chunk's
/// slab starts, how many sectors it spans, and when it was last written.
/// A slot with `sectors == 0` holds no chunk.
#[derive(Copy, Clone, Debug, PartialEq, Eq, Structural)]
pub struct ChunkMetadata {
    /// Sector index at which the chunk's slab starts; 0 when absent.
    pub start_sector_index: u32,
    /// Number of contiguous sectors the slab spans; 0 when absent.
    pub sectors: u8,
    /// Seconds since the Unix epoch of the last write; 0 when never written.
    pub last_modified_timestamp: u32,
}

impl ChunkMetadata {
    pub fn new(start_sector_index: u32, sectors: u8, last_modified_timestamp: u32) -> (r:
        ChunkMetadata)
        ensures
            r == (ChunkMetadata { start_sector_index, sectors, last_modified_timestamp }),
    {
        ChunkMetadata { start_sector_index, sectors, last_modified_timestamp }
    }

    /// Stamps the slot with the wall clock, seconds since the Unix epoch.
    pub fn update_last_modified_timestamp(&mut self)
        ensures
            final(self).start_sector_index == old(self).start_sector_index,
            final(self).sectors == old(self).sectors,
    {
        self.last_modified_timestamp = epoch_seconds_now();
    }

    /// A slot with no sectors holds no chunk.
    pub fn is_empty(&self) -> (r: bool)
        ensures
            r == !slot_present(*self),
    {
        self.sectors == 0
    }
}

/// The slot holds a chunk.
pub open spec fn slot_present(md: ChunkMetadata) -> bool {
    md.sectors != 0
}

/// The slot holds a chunk whose slab covers sector `k`.
pub open spec fn slot_covers(md: ChunkMetadata, k: int) -> bool {
    slot_present(md) && md.start_sector_index <= k < md.start_sector_index + md.sectors
}

/// Some slot of the table covers sector `k`.
pub open spec fn some_slot_covers(mds: Seq<ChunkMetadata>, k: int) -> bool {
    exists|i: int| 0 <= i < mds.len() && slot_covers(#[trigger] mds[i], k)
}

/// The two slots' sector ranges do not overlap.
pub open spec fn slots_disjoint(a: ChunkMetadata, b: ChunkMetadata) -> bool {
    ||| a.start_sector_index + a.sectors <= b.start_sector_index
    ||| b.start_sector_index + b.sectors <= a.start_sector_index
}

/// Either the slot is absent with a zeroed start, or its slab starts past
/// the header and lies inside the file.
pub open spec fn slot_wf(md: ChunkMetadata, data_len: int) -> bool {
    if md.sectors == 0 {
        md.start_sector_index == 0
    } else {
        md.start_sector_index >= 2 && (md.start_sector_index + md.sectors) * 4096 <= data_len
    }
}

/// `s` with the bytes of `[off, off + patch.len())` replaced by `patch`.
pub open spec fn overwrite(s: Seq<u8>, off: int, patch: Seq<u8>) -> Seq<u8> {
    Seq::new(
        s.len(),
        |i: int|
            if off <= i < off + patch.len() {
                patch[i - off]
            } else {
                s[i]
            },
    )
}

/// The location word of slot `i` as stored in the header.
pub open spec fn raw_location_word(data: Seq<u8>, i: int) -> int {
    be32_val(data.subrange(4 * i, 4 * i + 4))
}

/// The timestamp word of slot `i` as stored in the header.
pub open spec fn raw_timestamp_word(data: Seq<u8>, i: int) -> int {
    be32_val(data.subrange(4096 + 4 * i, 4096 + 4 * i + 4))
}

/// Slot `i`'s metadata exactly as the header stores it; all-absent when the
/// source is shorter than the header.
pub open spec fn raw_slot(data: Seq<u8>, i: int) -> ChunkMetadata {
    if data.len() < 8192 {
        ChunkMetadata { start_sector_index: 0, sectors: 0, last_modified_timestamp: 0 }
    } else {
        ChunkMetadata {
            start_sector_index: (raw_location_word(data, i) / 256) as u32,
            sectors: (raw_location_word(data, i) % 256) as u8,
            last_modified_timestamp: raw_timestamp_word(data, i) as u32,
        }
    }
}

/// A header entry the engine can trust: present, past the header sectors,
/// and wholly inside the file.
pub open spec fn slot_sane(md: ChunkMetadata, data_len: int) -> bool {
    md.sectors > 0 && md.start_sector_index >= 2 && (md.start_sector_index + md.sectors) * 4096
        <= data_len
}

/// Loading accepts slot `i` when its raw entry is sane and does not overlap
/// any accepted earlier slot; anything else is treated as corruption and
/// loaded as absent.
pub open spec fn slot_accepted(data: Seq<u8>, i: int) -> bool
    decreases i,
{
    &&& slot_sane(raw_slot(data, i), data.len() as int)
    &&& forall|j: int|
        0 <= j < i && slot_accepted(data, j) ==> slots_disjoint(
            raw_slot(data, i),
            #[trigger] raw_slot(data, j),
        )
}

/// What slot `i` holds after loading: its raw entry when accepted, else an
/// absent slot that keeps the stored timestamp.
pub open spec fn loaded_slot(data: Seq<u8>, i: int) -> ChunkMetadata {
    if slot_accepted(data, i) {
        raw_slot(data, i)
    } else {
        ChunkMetadata {
            start_sector_index: 0,
            sectors: 0,
            last_modified_timestamp: raw_slot(data, i).last_modified_timestamp,
        }
    }
}

/// The smaller of two values.
pub open spec fn spec_min(a: int, b: int) -> int {
    if a <= b {
        a
    } else {
        b
    }
}

/// Byte offset at which the slot's slab starts.
pub open spec fn slab_offset(md: ChunkMetadata) -> int {
    md.start_sector_index * 4096
}

/// Largest slab length the slot admits: its sector span, capped at 1 MiB.
pub open spec fn max_slab_length(md: ChunkMetadata) -> int {
    spec_min(md.sectors * 4096, 1048576)
}

/// The length field stored at the head of the slot's slab.
pub open spec fn stored_length(data: Seq<u8>, md: ChunkMetadata) -> int {
    be32_val(data.subrange(slab_offset(md), slab_offset(md) + 4))
}

/// The slab's declared bytes stay inside its own sectors.
pub open spec fn slab_contained(data: Seq<u8>, md: ChunkMetadata) -> bool {
    stored_length(data, md) + 4 <= md.sectors * 4096
}

/// What is stored for a slot: the compression scheme byte and the compressed
/// payload bytes, when the slot is present and its slab is readable; `None`
/// when the slot is absent or its length field is unusable.
pub open spec fn slot_payload(data: Seq<u8>, md: ChunkMetadata) -> Option<(u8, Seq<u8>)> {
    if !slot_present(md) {
        None
    } else {
        let off = slab_offset(md);
        let len = stored_length(data, md);
        if len == 0 || len > max_slab_length(md) || off + 4 + len > data.len() {
            None
        } else {
            Some((data[off + 4], data.subrange(off + 5, off + 4 + len)))
        }
    }
}

/// The bytes a slab holds on disk: the four-byte big-endian length field,
/// the scheme byte and compressed bytes, and zero padding filling the
/// slab's sectors.
pub open spec fn slab_bytes(data: Seq<u8>, sectors_required: int) -> Seq<u8> {
    u32_be_bytes(data.len() as u32) + data + zero_bytes(
        (sectors_required * 4096 - data.len() - 4) as nat,
    )
}

/// The header bytes after persisting one slot: its location word, and one
/// sector onward its timestamp word.
pub open spec fn header_patch(src: Seq<u8>, idx: int, md: ChunkMetadata) -> Seq<u8> {
    overwrite(
        overwrite(
            src,
            4 * idx,
            u32_be_bytes((md.start_sector_index * 256 + md.sectors) as u32),
        ),
        4096 + 4 * idx,
        u32_be_bytes(md.last_modified_timestamp),
    )
}

/// A readable, contained slab is read the same from any byte source that
/// agrees with the original on the slab's sectors and is at least as long.
pub proof fn lemma_payload_unchanged(d1: Seq<u8>, d2: Seq<u8>, md: ChunkMetadata)
    requires
        slot_payload(d1, md) is Some,
        slab_contained(d1, md),
        slab_offset(md) + md.sectors * 4096 <= d1.len(),
        d2.len() >= d1.len(),
        forall|i: int|
            slab_offset(md) <= i < slab_offset(md) + md.sectors * 4096 ==> d1[i] == #[trigger] d2[i],
    ensures
        slot_payload(d2, md) == slot_payload(d1, md),
{
    let off = slab_offset(md);
    assert(d1.subrange(off, off + 4) =~= d2.subrange(off, off + 4));
    let len = stored_length(d1, md);
    assert(stored_length(d2, md) == len);
    assert(off + 4 + len <= off + md.sectors * 4096);
    assert(d1[off + 4] == d2[off + 4]);
    assert(d1.subrange(off + 5, off + 4 + len) =~= d2.subrange(off + 5, off + 4 + len));
}

/// A slab freshly written for a slot decodes to exactly the bytes that went
/// in: the first byte of the scratch buffer is the scheme, the rest the
/// compressed payload.
pub proof fn lemma_written_payload(src: Seq<u8>, md: ChunkMetadata, data: Seq<u8>)
    requires
        slot_present(md),
        md.start_sector_index >= 2,
        1 <= data.len(),
        data.len() < 0x100000,
        data.len() + 4 <= md.sectors * 4096,
        slab_offset(md) + md.sectors * 4096 <= src.len(),
        forall|i: int|
            slab_offset(md) <= i < slab_offset(md) + md.sectors * 4096 ==> #[trigger] src[i]
                == slab_bytes(data, md.sectors as int)[i - slab_offset(md)],
    ensures
        slot_payload(src, md) == Some((data[0], data.subrange(1, data.len() as int))),
        slab_contained(src, md),
{
    let off = slab_offset(md);
    let slab = slab_bytes(data, md.sectors as int);
    crate::source::lemma_be32_round_trip(data.len() as u32);
    assert(src.subrange(off, off + 4) =~= u32_be_bytes(data.len() as u32));
    let len = stored_length(src, md);
    assert(len == data.len());
    assert(len <= max_slab_length(md));
    assert(src[off + 4] == slab[4]);
    assert(slab[4] == data[0]);
    assert(src.subrange(off + 5, off + 4 + len) =~= data.subrange(1, data.len() as int));
}

/// A whole number of sectors, at least the header's two, spans exactly that
/// many sectors.
pub proof fn lemma_expected_of_whole(t: int)
    requires
        t >= 2,
    ensures
        Region::expected_total_sectors(t * 4096) == t,
{
    if t == 2 {
    } else {
        assert((t * 4096 + 4095) / 4096 == t) by (nonlinear_arith)
            requires
                t >= 3,
        ;
    }
}

/// A file never runs past the sectors its bitmap tracks.
pub proof fn lemma_len_le_norm(len: int, total: int)
    requires
        len >= 0,
        total == Region::expected_total_sectors(len),
    ensures
        len <= total * 4096,
{
    if len > 8192 {
        assert(len <= ((len + 4095) / 4096) * 4096) by (nonlinear_arith)
            requires
                len > 8192,
        ;
    }
}

/// The slot index of local chunk coordinates: `x + z * 32`.
pub fn metadata_index(region_chunk_x: u8, region_chunk_z: u8) -> (r: usize)
    requires
        region_chunk_x < 32,
        region_chunk_z < 32,
    ensures
        r == region_chunk_x + region_chunk_z * 32,
        r < 1024,
{
    region_chunk_x as usize + region_chunk_z as usize * 32
}

/// Derives the occupied-sector bitmap from a metadata table: sectors 0 and 1
/// (the header) plus every present slot's range.
#[verifier::loop_isolation(false)]
pub fn used_sectors(total_sectors: usize, chunks_metadata: &Vec<ChunkMetadata>) -> (r: SectorBits)
    requires
        2 <= total_sectors < usize::MAX / 16,
        forall|i: int|
            0 <= i < chunks_metadata@.len() && slot_present(#[trigger] chunks_metadata@[i])
                ==> chunks_metadata@[i].start_sector_index + chunks_metadata@[i].sectors
                <= total_sectors,
    ensures
        bit_seq(r).len() == total_sectors,
        bit_seq(r)[0],
        bit_seq(r)[1],
        forall|k: int|
            2 <= k < total_sectors ==> (#[trigger] bit_seq(r)[k] <==> some_slot_covers(
                chunks_metadata@,
                k,
            )),
{
    let mut bits = SectorBits::repeat(false, total_sectors);
    bits.set(0, true);
    bits.set(1, true);
    let n = chunks_metadata.len();
    let mut i: usize = 0;
    while i < n
        invariant
            bit_seq(bits).len() == total_sectors,
            bit_seq(bits)[0],
            bit_seq(bits)[1],
            i <= n,
            forall|k: int|
                2 <= k < total_sectors ==> (#[trigger] bit_seq(bits)[k] <==> some_slot_covers(
                    chunks_metadata@.subrange(0, i as int),
                    k,
                )),
        decreases n - i,
    {
        let md = chunks_metadata[i];
        let ghost prev = bit_seq(bits);
        if !md.is_empty() {
            bits.set_range(md.start_sector_index as usize, md.sectors as usize, true);
        }
        proof {
            let pre = chunks_metadata@.subrange(0, i as int);
            let post = chunks_metadata@.subrange(0, i + 1);
            assert(post.drop_last() =~= pre);
            assert(post.last() == md);
            assert forall|k: int| 2 <= k < total_sectors implies (#[trigger] bit_seq(bits)[k]
                <==> some_slot_covers(post, k)) by {
                if bit_seq(bits)[k] {
                    if slot_present(md) && md.start_sector_index <= k < md.start_sector_index
                        + md.sectors {
                        assert(slot_covers(post[i as int], k));
                    } else {
                        assert(prev[k]);
                        let w = choose|j: int| 0 <= j < pre.len() && slot_covers(#[trigger] pre[j], k);
                        assert(slot_covers(post[w], k));
                    }
                }
                if some_slot_covers(post, k) {
                    let w = choose|j: int| 0 <= j < post.len() && slot_covers(#[trigger] post[j], k);
                    if w < i {
                        assert(slot_covers(pre[w], k));
                        assert(prev[k]);
                    }
                    assert(bit_seq(bits)[k]);
                }
            }
        }
        i = i + 1;
    }
    proof {
        assert(chunks_metadata@.subrange(0, n as int) =~= chunks_metadata@);
    }
    bits
}

/// A region: a 32x32 group of chunks in one sector-packed byte source.
pub struct Region {
    /// X-axis coordinate of the region, informational.
    x: i32,
    /// Z-axis coordinate of the region, informational.
    z: i32,
    /// The byte source in which the region is stored.
    source: MemorySource,
    /// The 1024 slots' metadata.
    chunks_metadata: Vec<ChunkMetadata>,
    /// Which sectors of the source hold the header or a present slot's slab.
    used_sectors: SectorBits,
}

impl Region {
    /// The metadata table, one entry per slot.
    pub closed spec fn metadata_seq(self) -> Seq<ChunkMetadata> {
        self.chunks_metadata@
    }

    /// The bytes of the underlying source.
    pub closed spec fn source_seq(self) -> Seq<u8> {
        self.source@
    }

    /// The occupied-sector bitmap.
    pub closed spec fn bitmap_seq(self) -> Seq<bool> {
        bit_seq(self.used_sectors)
    }

    /// Number of sectors the bitmap tracks.
    pub open spec fn total_sectors(self) -> int {
        self.bitmap_seq().len() as int
    }

    /// How many sectors a file of `data_len` bytes spans: at least the two
    /// header sectors, else its length in sectors rounded up.
    pub open spec fn expected_total_sectors(data_len: int) -> int {
        if data_len > 8192 {
            (data_len + 4095) / 4096
        } else {
            2
        }
    }

    /// The engine's invariant. The metadata table has one entry per slot;
    /// the bitmap spans the file; present slots start past the header, lie
    /// inside the file, and are pairwise disjoint; and a sector past the
    /// header is marked occupied exactly when a present slot covers it.
    pub closed spec fn wf(self) -> bool {
        &&& self.chunks_metadata@.len() == 1024
        &&& bit_seq(self.used_sectors).len() == Self::expected_total_sectors(
            self.source@.len() as int,
        )
        &&& bit_seq(self.used_sectors)[0]
        &&& bit_seq(self.used_sectors)[1]
        &&& forall|i: int|
            0 <= i < 1024 ==> slot_wf(#[trigger] self.chunks_metadata@[i], self.source@.len() as int)
        &&& forall|i: int, j: int|
            0 <= i < 1024 && 0 <= j < 1024 && i != j && slot_present(self.chunks_metadata@[i])
                && slot_present(self.chunks_metadata@[j]) ==> slots_disjoint(
                #[trigger] self.chunks_metadata@[i],
                #[trigger] self.chunks_metadata@[j],
            )
        &&& forall|k: int|
            2 <= k < bit_seq(self.used_sectors).len() ==> (#[trigger] bit_seq(self.used_sectors)[k]
                <==> some_slot_covers(self.chunks_metadata@, k))
    }

    /// The well-formedness properties spelled out over the public model:
    /// the absent-slot equivalence, pairwise disjointness of present slots,
    /// the bitmap-to-file length tie, and the header sectors being occupied
    /// and untouched by any slot.
    pub proof fn lemma_wf_properties(self)
        requires
            self.wf(),
        ensures
            self.metadata_seq().len() == 1024,
            forall|i: int|
                0 <= i < 1024 ==> ((#[trigger] self.metadata_seq()[i].sectors == 0) <==> (
                self.metadata_seq()[i].start_sector_index == 0)),
            forall|i: int, j: int|
                0 <= i < 1024 && 0 <= j < 1024 && i != j && slot_present(self.metadata_seq()[i])
                    && slot_present(self.metadata_seq()[j]) ==> slots_disjoint(
                    #[trigger] self.metadata_seq()[i],
                    #[trigger] self.metadata_seq()[j],
                ),
            self.total_sectors() == Self::expected_total_sectors(self.source_seq().len() as int),
            self.source_seq().len() >= 8192 && self.source_seq().len() % 4096 == 0
                ==> self.total_sectors() * 4096 == self.source_seq().len(),
            self.bitmap_seq()[0] && self.bitmap_seq()[1],
            forall|i: int|
                0 <= i < 1024 && slot_present(#[trigger] self.metadata_seq()[i])
                    ==> self.metadata_seq()[i].start_sector_index >= 2,
            forall|i: int|
                0 <= i < 1024 && slot_present(#[trigger] self.metadata_seq()[i]) ==> (
                self.metadata_seq()[i].start_sector_index + self.metadata_seq()[i].sectors) * 4096
                    <= self.source_seq().len(),
    {
        assert forall|i: int| 0 <= i < 1024 implies ((#[trigger] self.metadata_seq()[i].sectors
            == 0) <==> (self.metadata_seq()[i].start_sector_index == 0)) by {
            assert(slot_wf(self.chunks_metadata@[i], self.source@.len() as int));
        }
        if self.source_seq().len() >= 8192 && self.source_seq().len() % 4096 == 0 {
            let l = self.source@.len() as int;
            if l == 8192 {
                assert(self.total_sectors() == 2);
            } else {
                assert(self.total_sectors() == (l + 4095) / 4096);
                assert((l + 4095) / 4096 == l / 4096) by (nonlinear_arith)
                    requires
                        l % 4096 == 0,
                        l > 0,
                ;
                assert(l / 4096 * 4096 == l) by (nonlinear_arith)
                    requires
                        l % 4096 == 0,
                        l > 0,
                ;
            }
        }
    }

    /// Parses the 8 KiB header of a source into 1024 metadata entries,
    /// exactly as stored; a source shorter than the header gives an
    /// all-absent table.
    #[verifier::loop_isolation(false)]
    pub fn read_header(source: &MemorySource) -> (r: Vec<ChunkMetadata>)
        ensures
            r@.len() == 1024,
            forall|i: int| 0 <= i < 1024 ==> r@[i] == raw_slot(source@, i),
    {
        let len = source.len();
        let mut out: Vec<ChunkMetadata> = Vec::new();
        if len < REGION_HEADER_BYTES {
            let mut i: usize = 0;
            while i < REGION_CHUNKS
                invariant
                    i <= 1024,
                    out@.len() == i,
                    forall|j: int| 0 <= j < i ==> out@[j] == raw_slot(source@, j),
                decreases 1024 - i,
            {
                out.push(
                    ChunkMetadata { start_sector_index: 0, sectors: 0, last_modified_timestamp: 0 },
                );
                i = i + 1;
            }
            return out;
        }
        let mut i: usize = 0;
        while i < REGION_CHUNKS
            invariant
                8192 <= source@.len(),
                i <= 1024,
                out@.len() == i,
                forall|j: int| 0 <= j < i ==> out@[j] == raw_slot(source@, j),
            decreases 1024 - i,
        {
            let word = source.read_u32_be(4 * i);
            let ts = source.read_u32_be(4096 + 4 * i);
            let md = ChunkMetadata {
                start_sector_index: word / 256,
                sectors: (word % 256) as u8,
                last_modified_timestamp: ts,
            };
            out.push(md);
            i = i + 1;
        }
        out
    }

    /// Metadata of the slot at the given local chunk coordinates.
    pub fn get_metadata(&self, region_chunk_x: u8, region_chunk_z: u8) -> (r: ChunkMetadata)
        requires
            region_chunk_x < 32,
            region_chunk_z < 32,
            self.metadata_seq().len() == 1024,
        ensures
            r == self.metadata_seq()[region_chunk_x + region_chunk_z * 32],
    {
        self.chunks_metadata[metadata_index(region_chunk_x, region_chunk_z)]
    }

    /// Replaces the slot's metadata in memory and persists it to the header:
    /// the location word at `4 * index`, then, one sector onward, the
    /// timestamp word at `4096 + 4 * index`.
    pub fn update_metadata(
        &mut self,
        region_chunk_x: u8,
        region_chunk_z: u8,
        metadata: ChunkMetadata,
    )
        requires
            region_chunk_x < 32,
            region_chunk_z < 32,
            old(self).metadata_seq().len() == 1024,
            old(self).source_seq().len() >= 8192,
            metadata.start_sector_index < 0x1000000,
        ensures
            final(self).metadata_seq() == old(self).metadata_seq().update(
                region_chunk_x + region_chunk_z * 32,
                metadata,
            ),
            final(self).source_seq() == overwrite(
                overwrite(
                    old(self).source_seq(),
                    4 * (region_chunk_x + region_chunk_z * 32),
                    u32_be_bytes((metadata.start_sector_index * 256 + metadata.sectors) as u32),
                ),
                4096 + 4 * (region_chunk_x + region_chunk_z * 32),
                u32_be_bytes(metadata.last_modified_timestamp),
            ),
            final(self).source_seq().len() == old(self).source_seq().len(),
            final(self).bitmap_seq() == old(self).bitmap_seq(),
    {
        let index = metadata_index(region_chunk_x, region_chunk_z);
        self.chunks_metadata[index] = metadata;
        let offset: u32 = metadata.start_sector_index * 256 + metadata.sectors as u32;
        self.source.write_u32_be(4 * index, offset);
        self.source.write_u32_be(4096 + 4 * index, metadata.last_modified_timestamp);
        proof {
            let src0 = old(self).source_seq();
            let mid = overwrite(
                src0,
                4 * (region_chunk_x + region_chunk_z * 32),
                u32_be_bytes(offset),
            );
            assert(self.source@.len() == src0.len());
            assert(self.source@ =~= overwrite(
                mid,
                4096 + 4 * (region_chunk_x + region_chunk_z * 32),
                u32_be_bytes(metadata.last_modified_timestamp),
            ));
        }
    }

    /// Loads a region from a byte source. The header is parsed as stored;
    /// entries that are absent, point into the header, run past the end of
    /// the file, or overlap an earlier accepted entry are loaded as absent.
    #[verifier::loop_isolation(false)]
    pub fn load(x: i32, z: i32, source: MemorySource) -> (r: Region)
        requires
            source@.len() + 4095 < usize::MAX / 16 * 4096,
        ensures
            r.wf(),
            r.source_seq() == source@,
            r.metadata_seq().len() == 1024,
            forall|i: int| 0 <= i < 1024 ==> r.metadata_seq()[i] == loaded_slot(source@, i),
            r.total_sectors() == Self::expected_total_sectors(source@.len() as int),
    {
        let data_len = source.len();
        let header = Self::read_header(&source);
        let q: usize = data_len / SECTOR_BYTES;
        let total: usize = if data_len > REGION_HEADER_BYTES {
            if data_len % SECTOR_BYTES == 0 {
                q
            } else {
                q + 1
            }
        } else {
            2
        };
        proof {
            assert(total == Self::expected_total_sectors(source@.len() as int)) by (nonlinear_arith)
                requires
                    q == source@.len() as int / 4096,
                    total == if source@.len() > 8192 {
                        (if source@.len() as int % 4096 == 0 {
                            q as int
                        } else {
                            q + 1
                        })
                    } else {
                        2
                    },
            ;
        }
        let mut bits = SectorBits::repeat(false, total);
        bits.set(0, true);
        bits.set(1, true);
        let mut accepted: Vec<ChunkMetadata> = Vec::new();
        let mut i: usize = 0;
        while i < REGION_CHUNKS
            invariant
                data_len == source@.len(),
                total == Self::expected_total_sectors(source@.len() as int),
                2 <= total < usize::MAX / 16,
                header@.len() == 1024,
                forall|j: int| 0 <= j < 1024 ==> header@[j] == raw_slot(source@, j),
                i <= 1024,
                accepted@.len() == i,
                forall|j: int| 0 <= j < i ==> accepted@[j] == loaded_slot(source@, j),
                bit_seq(bits).len() == total,
                bit_seq(bits)[0],
                bit_seq(bits)[1],
                forall|k: int|
                    2 <= k < total ==> (#[trigger] bit_seq(bits)[k] <==> exists|j: int|
                        0 <= j < i && slot_accepted(source@, j) && slot_covers(
                            #[trigger] raw_slot(source@, j),
                            k,
                        )),
            decreases 1024 - i,
        {
            let raw = header[i];
            let sane: bool = raw.sectors > 0 && raw.start_sector_index >= 2 && (
            raw.start_sector_index as u64 + raw.sectors as u64) * 4096 <= data_len as u64;
            proof {
                assert(sane == slot_sane(raw_slot(source@, i as int), source@.len() as int));
            }
            let mut free = sane;
            if sane {
                let start = raw.start_sector_index as usize;
                let count = raw.sectors as usize;
                proof {
                    assert((start + count) * 4096 <= source@.len());
                    assert(start + count <= total) by (nonlinear_arith)
                        requires
                            (start + count) * 4096 <= source@.len(),
                            total == Self::expected_total_sectors(source@.len() as int),
                            start >= 2,
                            count >= 1,
                    ;
                }
                let mut k: usize = 0;
                while k < count
                    invariant
                        start + count <= bit_seq(bits).len(),
                        k <= count,
                        free == (sane && forall|m: int|
                            start <= m < start + k ==> !bit_seq(bits)[m]),
                        sane,
                    decreases count - k,
                {
                    if bits.get(start + k) {
                        free = false;
                    }
                    k = k + 1;
                }
            }
            proof {
                let data = source@;
                let gi = i as int;
                let raws = raw_slot(data, gi);
                if sane {
                    if free {
                        assert forall|j: int| 0 <= j < gi && slot_accepted(data, j) implies
                            slots_disjoint(raws, #[trigger] raw_slot(data, j)) by {
                            let rj = raw_slot(data, j);
                            if !slots_disjoint(raws, rj) {
                                let m = if raws.start_sector_index >= rj.start_sector_index {
                                    raws.start_sector_index as int
                                } else {
                                    rj.start_sector_index as int
                                };
                                assert(slot_covers(rj, m));
                                assert(raws.start_sector_index <= m < raws.start_sector_index
                                    + raws.sectors);
                                assert(bit_seq(bits)[m]);
                            }
                        }
                        assert(slot_accepted(data, gi));
                    } else {
                        assert(!(forall|m: int|
                            raws.start_sector_index <= m < raws.start_sector_index + raws.sectors
                                ==> !bit_seq(bits)[m]));
                        let m = choose|m: int|
                            raws.start_sector_index <= m < raws.start_sector_index + raws.sectors
                                && bit_seq(bits)[m];
                        assert(m >= 2);
                        let j = choose|j: int|
                            0 <= j < gi && slot_accepted(data, j) && slot_covers(
                                #[trigger] raw_slot(data, j),
                                m,
                            );
                        assert(!slots_disjoint(raws, raw_slot(data, j)));
                        assert(!slot_accepted(data, gi));
                    }
                } else {
                    assert(!slot_accepted(data, gi));
                }
            }
            if sane && free {
                bits.set_range(raw.start_sector_index as usize, raw.sectors as usize, true);
                accepted.push(raw);
                proof {
                    let data = source@;
                    let gi = i as int;
                    assert(accepted@[gi] == loaded_slot(data, gi));
                    assert forall|k: int| 2 <= k < total implies (#[trigger] bit_seq(bits)[k]
                        <==> exists|j: int|
                        0 <= j < gi + 1 && slot_accepted(data, j) && slot_covers(
                            #[trigger] raw_slot(data, j),
                            k,
                        )) by {
                        if bit_seq(bits)[k] {
                            if slot_covers(raw_slot(data, gi), k) {
                                assert(slot_accepted(data, gi) && slot_covers(
                                    raw_slot(data, gi),
                                    k,
                                ));
                            } else {
                                let j = choose|j: int|
                                    0 <= j < gi && slot_accepted(data, j) && slot_covers(
                                        #[trigger] raw_slot(data, j),
                                        k,
                                    );
                                assert(0 <= j < gi + 1 && slot_accepted(data, j) && slot_covers(
                                    raw_slot(data, j),
                                    k,
                                ));
                            }
                        }
                        if exists|j: int|
                            0 <= j < gi + 1 && slot_accepted(data, j) && slot_covers(
                                #[trigger] raw_slot(data, j),
                                k,
                            ) {
                            let j = choose|j: int|
                                0 <= j < gi + 1 && slot_accepted(data, j) && slot_covers(
                                    #[trigger] raw_slot(data, j),
                                    k,
                                );
                            assert(bit_seq(bits)[k]);
                        }
                    }
                }
            } else {
                accepted.push(
                    ChunkMetadata {
                        start_sector_index: 0,
                        sectors: 0,
                        last_modified_timestamp: raw.last_modified_timestamp,
                    },
                );
                proof {
                    let data = source@;
                    let gi = i as int;
                    assert(accepted@[gi] == loaded_slot(data, gi));
                    assert forall|k: int| 2 <= k < total implies (#[trigger] bit_seq(bits)[k]
                        <==> exists|j: int|
                        0 <= j < gi + 1 && slot_accepted(data, j) && slot_covers(
                            #[trigger] raw_slot(data, j),
                            k,
                        )) by {
                        if exists|j: int|
                            0 <= j < gi + 1 && slot_accepted(data, j) && slot_covers(
                                #[trigger] raw_slot(data, j),
                                k,
                            ) {
                            let j = choose|j: int|
                                0 <= j < gi + 1 && slot_accepted(data, j) && slot_covers(
                                    #[trigger] raw_slot(data, j),
                                    k,
                                );
                            assert(j < gi);
                        }
                    }
                }
            }
            i = i + 1;
        }
        let region = Region { x, z, source, chunks_metadata: accepted, used_sectors: bits };
        proof {
            let data = region.source@;
            assert forall|k: int| 2 <= k < bit_seq(region.used_sectors).len() implies (
                #[trigger] bit_seq(region.used_sectors)[k] <==> some_slot_covers(
                    region.chunks_metadata@,
                    k,
                )) by {
                if bit_seq(region.used_sectors)[k] {
                    let j = choose|j: int|
                        0 <= j < 1024 && slot_accepted(data, j) && slot_covers(
                            #[trigger] raw_slot(data, j),
                            k,
                        );
                    assert(slot_covers(region.chunks_metadata@[j], k));
                }
                if some_slot_covers(region.chunks_metadata@, k) {
                    let j = choose|j: int|
                        0 <= j < 1024 && slot_covers(#[trigger] region.chunks_metadata@[j], k);
                    assert(slot_accepted(data, j));
                    assert(slot_covers(raw_slot(data, j), k));
                }
            }
            assert forall|i2: int, j2: int|
                0 <= i2 < 1024 && 0 <= j2 < 1024 && i2 != j2 && slot_present(
                    region.chunks_metadata@[i2],
                ) && slot_present(region.chunks_metadata@[j2]) implies slots_disjoint(
                #[trigger] region.chunks_metadata@[i2],
                #[trigger] region.chunks_metadata@[j2],
            ) by {
                if i2 < j2 {
                    assert(slot_accepted(data, j2));
                } else {
                    assert(slot_accepted(data, i2));
                }
            }
        }
        region
    }

    /// What a reader of the given slot sees: the scheme byte and the
    /// compressed bytes, when the slot holds a readable slab.
    pub open spec fn payload_at(self, x: int, z: int) -> Option<(u8, Seq<u8>)> {
        slot_payload(self.source_seq(), self.metadata_seq()[x + z * 32])
    }

    /// How a completed chunk write relates the new state to the old: the
    /// file is first padded to whole sectors covering the header; a slab of
    /// `(data.len() + 4) / 4096 + 1` sectors is placed — in the slot's old
    /// range when the count matches, else first-fit after releasing the old
    /// range, growing the file when no run fits — and the slot's metadata
    /// is stamped and persisted to the header.
    pub open spec fn write_model(
        pre: Region,
        post: Region,
        x: int,
        z: int,
        data: Seq<u8>,
        timestamp: u32,
    ) -> bool {
        let idx = x + z * 32;
        let needed: int = (data.len() + 4) as int / 4096 + 1;
        let old_md = pre.metadata_seq()[idx];
        let norm = pre.total_sectors() * 4096;
        let normed = pre.source_seq() + zero_bytes((norm - pre.source_seq().len()) as nat);
        if old_md.sectors == needed {
            let new_md = ChunkMetadata {
                start_sector_index: old_md.start_sector_index,
                sectors: old_md.sectors,
                last_modified_timestamp: timestamp,
            };
            &&& post.metadata_seq() == pre.metadata_seq().update(idx, new_md)
            &&& post.bitmap_seq() == pre.bitmap_seq()
            &&& post.source_seq() == header_patch(
                overwrite(normed, slab_offset(new_md), slab_bytes(data, needed)),
                idx,
                new_md,
            )
        } else {
            let freed = mark_range(
                pre.bitmap_seq(),
                old_md.start_sector_index as int,
                old_md.sectors as int,
                false,
            );
            let s = alloc_start(freed, needed);
            let g = alloc_grow(freed, needed);
            let new_md = ChunkMetadata {
                start_sector_index: s as u32,
                sectors: needed as u8,
                last_modified_timestamp: timestamp,
            };
            &&& post.metadata_seq() == pre.metadata_seq().update(idx, new_md)
            &&& post.bitmap_seq() == alloc_bits(freed, needed)
            &&& post.source_seq() == header_patch(
                overwrite(
                    normed + zero_bytes((g * 4096) as nat),
                    s * 4096,
                    slab_bytes(data, needed),
                ),
                idx,
                new_md,
            )
        }
    }

    /// Writes the slab for a chunk in place: the length field, the given
    /// bytes, and zero padding to the end of the slab's sectors.
    #[verifier::loop_isolation(false)]
    fn write_slab(&mut self, start_sector: u32, sectors_required: usize, data: &Vec<u8>)
        requires
            1 <= data@.len(),
            data@.len() < 0x100000,
            data@.len() + 4 <= sectors_required * 4096,
            (start_sector + sectors_required) * 4096 <= old(self).source_seq().len(),
        ensures
            final(self).source_seq() == overwrite(
                old(self).source_seq(),
                start_sector * 4096,
                slab_bytes(data@, sectors_required as int),
            ),
            final(self).source_seq().len() == old(self).source_seq().len(),
            final(self).metadata_seq() == old(self).metadata_seq(),
            final(self).bitmap_seq() == old(self).bitmap_seq(),
    {
        let total: usize = self.source.len();
        proof {
            assert((start_sector + sectors_required) * 4096 == start_sector * 4096
                + sectors_required * 4096) by (nonlinear_arith);
        }
        let off: usize = start_sector as usize * 4096;
        let dlen = data.len();
        self.source.write_u32_be(off, dlen as u32);
        self.source.write_bytes(off + 4, data);
        let pad_len: usize = sectors_required * 4096 - dlen - 4;
        let padding: Vec<u8> = vec![0u8; pad_len];
        proof {
            assert(padding@ =~= zero_bytes(pad_len as nat));
        }
        self.source.write_bytes(off + 4 + dlen, &padding);
        proof {
            assert(self.source@ =~= overwrite(
                old(self).source@,
                start_sector * 4096,
                slab_bytes(data@, sectors_required as int),
            ));
        }
    }

    /// Reads the raw stored chunk at the given local coordinates: the
    /// compression scheme byte and the compressed payload bytes. Fails with
    /// `ChunkNotFound` on an absent slot, and with `LengthExceedsMaximum`
    /// when the slab's length field is zero, overruns the slot's bound, or
    /// runs past the end of the file.
    pub fn read_chunk_data(&self, region_chunk_x: u8, region_chunk_z: u8) -> (r: Result<
        (u8, Vec<u8>),
        ChunkReadError,
    >)
        requires
            self.wf(),
            region_chunk_x < 32,
            region_chunk_z < 32,
        ensures
            ({
                let md = self.metadata_seq()[region_chunk_x + region_chunk_z * 32];
                let off = slab_offset(md);
                let len = stored_length(self.source_seq(), md);
                let maxl = max_slab_length(md);
                if !slot_present(md) {
                    r == Err::<(u8, Vec<u8>), ChunkReadError>(
                        ChunkReadError::ChunkNotFound { region_chunk_x, region_chunk_z },
                    )
                } else if len == 0 || len > maxl || off + 4 + len > self.source_seq().len() {
                    r == Err::<(u8, Vec<u8>), ChunkReadError>(
                        ChunkReadError::LengthExceedsMaximum {
                            length: len as u32,
                            maximum_length: maxl as u32,
                        },
                    )
                } else {
                    r matches Ok(p) && self.payload_at(region_chunk_x as int, region_chunk_z as int)
                        == Some((p.0, p.1@))
                }
            }),
    {
        let md = self.get_metadata(region_chunk_x, region_chunk_z);
        if md.is_empty() {
            return Err(ChunkReadError::ChunkNotFound { region_chunk_x, region_chunk_z });
        }
        proof {
            assert(slot_wf(md, self.source@.len() as int));
            assert(md.start_sector_index * 4096 + md.sectors * 4096 <= self.source@.len());
        }
        let data_len = self.source.len();
        let seek_offset: usize = md.start_sector_index as usize * SECTOR_BYTES;
        let length = self.source.read_u32_be(seek_offset);
        let sector_span: u32 = md.sectors as u32 * 4096;
        let maximum_length: u32 = if sector_span < CHUNK_MAXIMUM_BYTES {
            sector_span
        } else {
            CHUNK_MAXIMUM_BYTES
        };
        if length == 0 || length > maximum_length || (seek_offset as u64) + 4 + (length as u64) > (
        data_len as u64) {
            return Err(ChunkReadError::LengthExceedsMaximum { length, maximum_length });
        }
        let compression_scheme = self.source.byte_at(seek_offset + 4);
        let compressed = self.source.read_bytes(seek_offset + 5, (length - 1) as usize);
        Ok((compression_scheme, compressed))
    }

    /// Reads and decompresses the chunk at the given local coordinates.
    /// The scheme byte selects the decompressor: 1 is gzip, 2 is zlib; any
    /// other value fails with `UnsupportedCompressionScheme`.
    pub fn read_chunk(&self, region_chunk_x: u8, region_chunk_z: u8) -> (r: Result<
        CompoundTag,
        ChunkReadError,
    >)
        requires
            self.wf(),
            region_chunk_x < 32,
            region_chunk_z < 32,
        ensures
            ({
                let md = self.metadata_seq()[region_chunk_x + region_chunk_z * 32];
                let off = slab_offset(md);
                let len = stored_length(self.source_seq(), md);
                let maxl = max_slab_length(md);
                let p = self.payload_at(region_chunk_x as int, region_chunk_z as int);
                if !slot_present(md) {
                    r matches Err(e) && e == (ChunkReadError::ChunkNotFound {
                        region_chunk_x,
                        region_chunk_z,
                    })
                } else if len == 0 || len > maxl || off + 4 + len > self.source_seq().len() {
                    r matches Err(e) && e == (ChunkReadError::LengthExceedsMaximum {
                        length: len as u32,
                        maximum_length: maxl as u32,
                    })
                } else if !(p->Some_0.0 == 1 || p->Some_0.0 == 2) {
                    r matches Err(e) && e == (ChunkReadError::UnsupportedCompressionScheme {
                        compression_scheme: p->Some_0.0,
                    })
                } else {
                    r is Ok || (r matches Err(e) && e is TagDecodeError)
                }
            }),
    {
        let step = self.read_chunk_data(region_chunk_x, region_chunk_z);
        match step {
            Err(e) => Err(e),
            Ok((compression_scheme, compressed)) => {
                if compression_scheme == crate::GZIP_COMPRESSION_TYPE {
                    match read_gzip_compound_tag(&compressed) {
                        Ok(tag) => Ok(tag),
                        Err(tag_decode_error) => Err(
                            ChunkReadError::TagDecodeError { tag_decode_error },
                        ),
                    }
                } else if compression_scheme == crate::ZLIB_COMPRESSION_TYPE {
                    match read_zlib_compound_tag(&compressed) {
                        Ok(tag) => Ok(tag),
                        Err(tag_decode_error) => Err(
                            ChunkReadError::TagDecodeError { tag_decode_error },
                        ),
                    }
                } else {
                    Err(ChunkReadError::UnsupportedCompressionScheme { compression_scheme })
                }
            },
        }
    }

    /// Writes a chunk's scratch buffer (scheme byte followed by compressed
    /// bytes) to the slot at the given local coordinates, stamping the slot
    /// with the given modification time.
    ///
    /// The file is first padded to whole sectors covering the header. A
    /// buffer whose slab would not fit the format (more than 255 sectors,
    /// which also covers the 1 MiB ceiling) is refused with
    /// `LengthExceedsMaximum` and nothing else changes. Otherwise the slab
    /// is placed as [`Region::write_model`] describes, every other slot's
    /// metadata and readable payload are untouched, and reading the slot
    /// back yields exactly the buffer that was written.
    #[verifier::rlimit(100)]
    #[verifier::loop_isolation(false)]
    pub fn write_chunk_data(
        &mut self,
        region_chunk_x: u8,
        region_chunk_z: u8,
        data: &Vec<u8>,
        timestamp: u32,
    ) -> (r: Result<(), ChunkWriteError>)
        requires
            old(self).wf(),
            region_chunk_x < 32,
            region_chunk_z < 32,
            1 <= data@.len(),
            old(self).total_sectors() + 256 <= 0xFFFFFF,
            (old(self).total_sectors() + 256) * 4096 <= usize::MAX,
        ensures
            final(self).wf(),
            r is Ok <==> data@.len() + 4 < 1044480,
            ({
                let idx = region_chunk_x + region_chunk_z * 32;
                let norm = old(self).total_sectors() * 4096;
                let normed = old(self).source_seq() + zero_bytes(
                    (norm - old(self).source_seq().len()) as nat,
                );
                &&& (r is Err ==> {
                    &&& final(self).metadata_seq() == old(self).metadata_seq()
                    &&& final(self).bitmap_seq() == old(self).bitmap_seq()
                    &&& final(self).source_seq() == normed
                    &&& r == Err::<(), ChunkWriteError>(
                        ChunkWriteError::LengthExceedsMaximum {
                            length: if data@.len() + 4 <= u32::MAX {
                                (data@.len() + 4) as u32
                            } else {
                                u32::MAX
                            },
                        },
                    )
                })
                &&& (r is Ok ==> {
                    &&& Self::write_model(
                        *old(self),
                        *final(self),
                        region_chunk_x as int,
                        region_chunk_z as int,
                        data@,
                        timestamp,
                    )
                    &&& final(self).payload_at(region_chunk_x as int, region_chunk_z as int)
                        == Some((data@[0], data@.subrange(1, data@.len() as int)))
                    &&& forall|j: int|
                        0 <= j < 1024 && j != idx ==> final(self).metadata_seq()[j] == old(
                            self,
                        ).metadata_seq()[j]
                    &&& forall|j: int|
                        0 <= j < 1024 && j != idx && slot_payload(
                            old(self).source_seq(),
                            #[trigger] old(self).metadata_seq()[j],
                        ) is Some && slab_contained(
                            old(self).source_seq(),
                            old(self).metadata_seq()[j],
                        ) ==> slot_payload(final(self).source_seq(), final(self).metadata_seq()[j])
                            == slot_payload(old(self).source_seq(), old(self).metadata_seq()[j])
                })
            }),
    {
        let ghost pre = *old(self);
        let ghost gidx = region_chunk_x + region_chunk_z * 32 as int;
        let ghost m0 = pre.metadata_seq();
        let ghost b0 = pre.bitmap_seq();
        let ghost s0 = pre.source_seq();
        let ghost total0 = pre.total_sectors();
        let ghost norm = total0 * 4096;
        proof {
            lemma_len_le_norm(s0.len() as int, total0);
        }
        let index = metadata_index(region_chunk_x, region_chunk_z);
        let total0_e: usize = self.used_sectors.len();
        let norm_len: usize = total0_e * SECTOR_BYTES;
        self.source.extend_len(norm_len);
        let ghost s1 = self.source@;
        proof {
            assert(s1 =~= s0 + zero_bytes((norm - s0.len()) as nat));
            lemma_expected_of_whole(total0);
        }
        if data.len() > 1044475 {
            let length: u32 = if data.len() <= 0xFFFFFFFB {
                (data.len() + 4) as u32
            } else {
                u32::MAX
            };
            proof {
                assert(self.wf()) by {
                    assert forall|k: int| 2 <= k < bit_seq(self.used_sectors).len() implies (
                        #[trigger] bit_seq(self.used_sectors)[k] <==> some_slot_covers(
                            self.chunks_metadata@,
                            k,
                        )) by {
                        assert(bit_seq(self.used_sectors)[k] == b0[k]);
                    }
                }
            }
            return Err(ChunkWriteError::LengthExceedsMaximum { length });
        }
        let scratch_len = data.len();
        let length_total: usize = scratch_len + 4;
        let sectors_required: usize = length_total / SECTOR_BYTES + 1;
        proof {
            assert(1 <= sectors_required <= 255);
            assert(scratch_len + 4 <= sectors_required * 4096) by (nonlinear_arith)
                requires
                    sectors_required == (scratch_len + 4) / 4096 + 1,
                    scratch_len >= 0,
            ;
        }
        let md = self.chunks_metadata[index];
        proof {
            assert(slot_wf(md, s0.len() as int));
        }
        if md.sectors as usize == sectors_required {
            proof {
                assert((md.start_sector_index + md.sectors) * 4096 <= norm);
                assert(md.start_sector_index * 4096 + md.sectors * 4096 <= norm)
                    by (nonlinear_arith)
                    requires
                        (md.start_sector_index + md.sectors) * 4096 <= norm,
                ;
            }
            self.write_slab(md.start_sector_index, sectors_required, data);
            let ghost s3 = self.source@;
            let new_md = ChunkMetadata::new(md.start_sector_index, md.sectors, timestamp);
            self.update_metadata(region_chunk_x, region_chunk_z, new_md);
            proof {
                let m1 = self.metadata_seq();
                let s4 = self.source_seq();
                let ghost nmd = ChunkMetadata {
                    start_sector_index: md.start_sector_index,
                    sectors: md.sectors,
                    last_modified_timestamp: timestamp,
                };
                assert(m1 == m0.update(gidx, nmd));
                assert(s4 == header_patch(
                    overwrite(s1, slab_offset(nmd), slab_bytes(data@, sectors_required as int)),
                    gidx,
                    nmd,
                ));
                assert(s4.len() == norm);
                // the slab's bytes and the payload read back
                assert(slab_offset(nmd) >= 8192);
                assert forall|i: int|
                    slab_offset(nmd) <= i < slab_offset(nmd) + nmd.sectors * 4096 implies #[trigger] s4[i] == slab_bytes(
                    data@,
                    nmd.sectors as int,
                )[i - slab_offset(nmd)] by {
                    assert(4 * gidx + 4 <= 4096);
                    assert(4096 + 4 * gidx + 4 <= 8192);
                }
                lemma_written_payload(s4, nmd, data@);
                // every other slot's bytes are untouched
                assert forall|j: int|
                    0 <= j < 1024 && j != gidx && slot_payload(s0, #[trigger] m0[j]) is Some
                        && slab_contained(s0, m0[j]) implies slot_payload(s4, m1[j])
                    == slot_payload(s0, m0[j]) by {
                    let mdj = m0[j];
                    assert(slot_wf(mdj, s0.len() as int));
                    assert(slot_present(mdj));
                    assert(slots_disjoint(mdj, md));
                    assert(slab_offset(mdj) + mdj.sectors * 4096 <= s0.len());
                    assert forall|i: int|
                        slab_offset(mdj) <= i < slab_offset(mdj) + mdj.sectors * 4096 implies s0[i]
                        == #[trigger] s4[i] by {
                        assert(mdj.start_sector_index * 4096 >= 8192);
                        if mdj.start_sector_index + mdj.sectors <= md.start_sector_index {
                            assert((mdj.start_sector_index + mdj.sectors) * 4096
                                <= md.start_sector_index * 4096) by (nonlinear_arith)
                                requires
                                    mdj.start_sector_index + mdj.sectors
                                        <= md.start_sector_index,
                            ;
                        } else {
                            assert((md.start_sector_index + md.sectors) * 4096
                                <= mdj.start_sector_index * 4096) by (nonlinear_arith)
                                requires
                                    md.start_sector_index + md.sectors <= mdj.start_sector_index,
                            ;
                        }
                    }
                    lemma_payload_unchanged(s0, s4, mdj);
                }
                // well-formedness
                assert(self.wf()) by {
                    assert(bit_seq(self.used_sectors).len() == Self::expected_total_sectors(
                        s4.len() as int,
                    ));
                    assert forall|i: int| 0 <= i < 1024 implies slot_wf(
                        #[trigger] m1[i],
                        s4.len() as int,
                    ) by {
                        if i != gidx {
                            assert(slot_wf(m0[i], s0.len() as int));
                        }
                    }
                    assert forall|k: int| 2 <= k < bit_seq(self.used_sectors).len() implies (
                        #[trigger] bit_seq(self.used_sectors)[k] <==> some_slot_covers(m1, k)) by {
                        if bit_seq(self.used_sectors)[k] {
                            let j = choose|j: int|
                                0 <= j < 1024 && slot_covers(#[trigger] m0[j], k);
                            if j == gidx {
                                assert(slot_covers(m1[gidx], k));
                            } else {
                                assert(slot_covers(m1[j], k));
                            }
                        }
                        if some_slot_covers(m1, k) {
                            let j = choose|j: int|
                                0 <= j < 1024 && slot_covers(#[trigger] m1[j], k);
                            if j == gidx {
                                assert(slot_covers(m0[gidx], k));
                            } else {
                                assert(slot_covers(m0[j], k));
                            }
                        }
                    }
                }
            }
            Ok(())
        } else {
            proof {
                if md.sectors > 0 {
                    assert(md.start_sector_index + md.sectors <= total0) by (nonlinear_arith)
                        requires
                            (md.start_sector_index + md.sectors) * 4096 <= norm,
                            norm == total0 * 4096,
                            md.sectors >= 1,
                    ;
                }
            }
            self.used_sectors.set_range(
                md.start_sector_index as usize,
                md.sectors as usize,
                false,
            );
            let ghost freed = bit_seq(self.used_sectors);
            proof {
                assert(freed =~= mark_range(b0, md.start_sector_index as int, md.sectors as int, false));
                assert(freed[0] && freed[1]);
            }
            let (put, grow) = self.used_sectors.find_fit(sectors_required);
            let ghost bits2 = bit_seq(self.used_sectors);
            proof {
                assert((total0 + grow) * 4096 <= (total0 + 256) * 4096) by (nonlinear_arith)
                    requires
                        grow <= 256,
                        total0 >= 0,
                ;
            }
            self.source.extend_len(norm_len + grow * 4096);
            let ghost s2 = self.source@;
            proof {
                assert(s2 =~= s1 + zero_bytes((grow * 4096) as nat));
                assert(s2.len() == norm + grow * 4096);
                assert((put + sectors_required) * 4096 <= s2.len()) by (nonlinear_arith)
                    requires
                        put + sectors_required <= total0 + grow,
                        s2.len() == norm + grow * 4096,
                        norm == total0 * 4096,
                ;
            }
            self.write_slab(put as u32, sectors_required, data);
            let ghost s3 = self.source@;
            let new_md = ChunkMetadata::new(put as u32, sectors_required as u8, timestamp);
            self.update_metadata(region_chunk_x, region_chunk_z, new_md);
            proof {
                let m1 = self.metadata_seq();
                let s4 = self.source_seq();
                let ghost nmd = ChunkMetadata {
                    start_sector_index: put as u32,
                    sectors: sectors_required as u8,
                    last_modified_timestamp: timestamp,
                };
                let needed = sectors_required as int;
                assert(m1 == m0.update(gidx, nmd));
                assert(put == alloc_start(freed, needed));
                assert(grow == alloc_grow(freed, needed));
                assert(bits2 == alloc_bits(freed, needed));
                assert(s4 == header_patch(
                    overwrite(
                        s1 + zero_bytes((grow * 4096) as nat),
                        put * 4096,
                        slab_bytes(data@, needed),
                    ),
                    gidx,
                    nmd,
                ));
                assert(s4.len() == (total0 + grow) * 4096) by (nonlinear_arith)
                    requires
                        s4.len() == norm + grow * 4096,
                        norm == total0 * 4096,
                ;
                // the new range is free of every other present slot
                assert forall|j: int|
                    0 <= j < 1024 && j != gidx && slot_present(#[trigger] m0[j]) implies
                    slots_disjoint(nmd, m0[j]) by {
                    let mdj = m0[j];
                    assert(slot_wf(mdj, s0.len() as int));
                    assert(mdj.start_sector_index + mdj.sectors <= total0) by (nonlinear_arith)
                        requires
                            (mdj.start_sector_index + mdj.sectors) * 4096 <= norm,
                            norm == total0 * 4096,
                            mdj.sectors >= 1,
                    ;
                    if !slots_disjoint(nmd, mdj) {
                        let m = if put >= mdj.start_sector_index {
                            put as int
                        } else {
                            mdj.start_sector_index as int
                        };
                        assert(slot_covers(mdj, m));
                        assert(put <= m < put + needed);
                        assert(m >= 2);
                        assert(b0[m]);
                        if slot_present(md) {
                            assert(slots_disjoint(md, mdj));
                        }
                        assert(freed[m]);
                        if first_fit_from(freed, needed, 0) is Some {
                            let sfit = first_fit_from(freed, needed, 0)->Some_0;
                            lemma_first_fit_from_some(freed, needed, 0, sfit);
                            assert(!freed[m]);
                        } else {
                            lemma_tail_free_bounds(freed);
                            assert(put == freed.len() - tail_free(freed));
                            assert(m < total0);
                            assert(!freed[m]);
                        }
                    }
                }
                // the slab's bytes and the payload read back
                assert(put * 4096 >= 8192);
                assert forall|i: int|
                    slab_offset(nmd) <= i < slab_offset(nmd) + nmd.sectors * 4096 implies #[trigger] s4[i] == slab_bytes(
                    data@,
                    nmd.sectors as int,
                )[i - slab_offset(nmd)] by {
                    assert(4 * gidx + 4 <= 4096);
                    assert(4096 + 4 * gidx + 4 <= 8192);
                }
                lemma_written_payload(s4, nmd, data@);
                // every other readable slot is untouched
                assert forall|j: int|
                    0 <= j < 1024 && j != gidx && slot_payload(s0, #[trigger] m0[j]) is Some
                        && slab_contained(s0, m0[j]) implies slot_payload(s4, m1[j])
                    == slot_payload(s0, m0[j]) by {
                    let mdj = m0[j];
                    assert(slot_wf(mdj, s0.len() as int));
                    assert(slot_present(mdj));
                    assert(slots_disjoint(nmd, mdj));
                    assert(slab_offset(mdj) + mdj.sectors * 4096 <= s0.len());
                    assert forall|i: int|
                        slab_offset(mdj) <= i < slab_offset(mdj) + mdj.sectors * 4096 implies s0[i]
                        == #[trigger] s4[i] by {
                        assert(mdj.start_sector_index * 4096 >= 8192);
                        if mdj.start_sector_index + mdj.sectors <= put {
                            assert((mdj.start_sector_index + mdj.sectors) * 4096 <= put * 4096)
                                by (nonlinear_arith)
                                requires
                                    mdj.start_sector_index + mdj.sectors <= put,
                            ;
                        } else {
                            assert((put + needed) * 4096 <= mdj.start_sector_index * 4096)
                                by (nonlinear_arith)
                                requires
                                    put + needed <= mdj.start_sector_index,
                            ;
                        }
                    }
                    lemma_payload_unchanged(s0, s4, mdj);
                }
                // well-formedness
                assert(self.wf()) by {
                    lemma_expected_of_whole(total0 + grow);
                    assert(bit_seq(self.used_sectors).len() == total0 + grow);
                    assert forall|i: int| 0 <= i < 1024 implies slot_wf(
                        #[trigger] m1[i],
                        s4.len() as int,
                    ) by {
                        if i != gidx {
                            assert(slot_wf(m0[i], s0.len() as int));
                            assert(s0.len() <= s4.len());
                        } else {
                            assert((put + needed) * 4096 <= s4.len());
                        }
                    }
                    assert(bit_seq(self.used_sectors)[0] && bit_seq(self.used_sectors)[1]);
                    assert forall|i2: int, j2: int|
                        0 <= i2 < 1024 && 0 <= j2 < 1024 && i2 != j2 && slot_present(m1[i2])
                            && slot_present(m1[j2]) implies slots_disjoint(
                        #[trigger] m1[i2],
                        #[trigger] m1[j2],
                    ) by {
                        if i2 == gidx {
                            assert(slots_disjoint(nmd, m0[j2]));
                        } else if j2 == gidx {
                            assert(slots_disjoint(nmd, m0[i2]));
                        } else {
                            assert(slots_disjoint(m0[i2], m0[j2]));
                        }
                    }
                    let bpad = freed + Seq::new((grow) as nat, |i: int| true);
                    assert forall|k: int| 2 <= k < bit_seq(self.used_sectors).len() implies (
                        #[trigger] bit_seq(self.used_sectors)[k] <==> some_slot_covers(m1, k)) by {
                        assert(bit_seq(self.used_sectors)[k] == (if put <= k < put + needed {
                            true
                        } else {
                            bpad[k]
                        }));
                        if bit_seq(self.used_sectors)[k] {
                            if put <= k < put + needed {
                                assert(slot_covers(m1[gidx], k));
                            } else {
                                if k < total0 {
                                    assert(freed[k]);
                                    assert(b0[k]);
                                    let j = choose|j: int|
                                        0 <= j < 1024 && slot_covers(#[trigger] m0[j], k);
                                    assert(j != gidx);
                                    assert(slot_covers(m1[j], k));
                                } else {
                                    assert(grow != 0);
                                    assert(put + needed == total0 + grow);
                                    assert(put <= total0) by {
                                        if first_fit_from(freed, needed, 0) is Some {
                                            let sfit = first_fit_from(freed, needed, 0)->Some_0;
                                            lemma_first_fit_from_some(freed, needed, 0, sfit);
                                        } else {
                                            lemma_tail_free_bounds(freed);
                                        }
                                    }
                                    assert(false);
                                }
                            }
                        }
                        if some_slot_covers(m1, k) {
                            let j = choose|j: int|
                                0 <= j < 1024 && slot_covers(#[trigger] m1[j], k);
                            if j == gidx {
                                assert(put <= k < put + needed);
                            } else {
                                assert(slot_covers(m0[j], k));
                                assert(b0[k]);
                                assert(!slot_covers(m0[gidx], k));
                                assert(freed[k]);
                                assert(k < total0);
                                assert(bpad[k]);
                            }
                        }
                    }
                }
            }
            Ok(())
        }
    }

    /// Compresses the chunk's compound tag as a zlib stream and writes it to
    /// the slot at the given local coordinates, stamped with the wall clock.
    /// Writing always chooses zlib; reading accepts gzip as well.
    pub fn write_chunk(
        &mut self,
        region_chunk_x: u8,
        region_chunk_z: u8,
        chunk_compound_tag: CompoundTag,
    ) -> (r: Result<(), ChunkWriteError>)
        requires
            old(self).wf(),
            region_chunk_x < 32,
            region_chunk_z < 32,
            old(self).total_sectors() + 256 <= 0xFFFFFF,
            (old(self).total_sectors() + 256) * 4096 <= usize::MAX,
        ensures
            final(self).wf(),
            ({
                let idx = region_chunk_x + region_chunk_z * 32;
                let norm = old(self).total_sectors() * 4096;
                let normed = old(self).source_seq() + zero_bytes(
                    (norm - old(self).source_seq().len()) as nat,
                );
                &&& (r is Err ==> {
                    &&& final(self).metadata_seq() == old(self).metadata_seq()
                    &&& final(self).bitmap_seq() == old(self).bitmap_seq()
                    &&& (final(self).source_seq() == old(self).source_seq()
                        || final(self).source_seq() == normed)
                })
                &&& (r is Ok ==> {
                    &&& exists|d: Seq<u8>, t: u32|
                        {
                            &&& #[trigger] Self::write_model(
                                *old(self),
                                *final(self),
                                region_chunk_x as int,
                                region_chunk_z as int,
                                d,
                                t,
                            )
                            &&& d.len() >= 1
                            &&& d[0] == 2
                            &&& final(self).payload_at(region_chunk_x as int, region_chunk_z as int)
                                == Some((2u8, d.subrange(1, d.len() as int)))
                        }
                    &&& final(self).payload_at(region_chunk_x as int, region_chunk_z as int)
                        is Some
                    &&& forall|j: int|
                        0 <= j < 1024 && j != idx ==> final(self).metadata_seq()[j] == old(
                            self,
                        ).metadata_seq()[j]
                    &&& forall|j: int|
                        0 <= j < 1024 && j != idx && slot_payload(
                            old(self).source_seq(),
                            #[trigger] old(self).metadata_seq()[j],
                        ) is Some && slab_contained(
                            old(self).source_seq(),
                            old(self).metadata_seq()[j],
                        ) ==> slot_payload(final(self).source_seq(), final(self).metadata_seq()[j])
                            == slot_payload(old(self).source_seq(), old(self).metadata_seq()[j])
                })
            }),
    {
        let mut compressed = match write_zlib_compound_tag(&chunk_compound_tag) {
            Ok(buffer) => buffer,
            Err(io_error) => {
                return Err(ChunkWriteError::IOError { io_error });
            },
        };
        let mut data: Vec<u8> = Vec::new();
        data.push(crate::ZLIB_COMPRESSION_TYPE);
        data.append(&mut compressed);
        let timestamp = epoch_seconds_now();
        let result = self.write_chunk_data(region_chunk_x, region_chunk_z, &data, timestamp);
        proof {
            if result is Ok {
                assert(Self::write_model(
                    *old(self),
                    *self,
                    region_chunk_x as int,
                    region_chunk_z as int,
                    data@,
                    timestamp,
                ));
            }
        }
        result
    }

    /// Length of the underlying byte source.
    pub fn source_len(&self) -> (r: usize)
        ensures
            r == self.source_seq().len(),
    {
        self.source.len()
    }

    /// A copy of the underlying byte source's content, as it would be
    /// persisted to disk.
    pub fn source_bytes(&self) -> (r: Vec<u8>)
        ensures
            r@ == self.source_seq(),
    {
        self.source.read_bytes(0, self.source.len())
    }

    /// Gives the underlying byte source back, consuming the region handle.
    pub fn into_source(self) -> (r: MemorySource)
        ensures
            r@ == self.source_seq(),
    {
        self.source
    }

    /// A copy of the occupied-sector bitmap.
    pub fn used_sectors(&self) -> (r: SectorBits)
        ensures
            bit_seq(r) == self.bitmap_seq(),
    {
        self.used_sectors.duplicate()
    }
}

} // verus!

