//! Placement and growth properties of the engine, stated on their own and
//! proved from the write model: what a completed write does to the file's
//! size and to where slabs land.

use crate::allocator::{
    first_fit_from, fits, lemma_first_fit_from_found, lemma_first_fit_from_some,
    lemma_tail_free_bounds, mark_range, tail_free,
};
use crate::region::{
    max_slab_length, slot_payload, slot_present, stored_length, ChunkMetadata, Region,
};
use vstd::prelude::*;

verus! {

/// The slot's occupied-sector bitmap after releasing one slot's range, as
/// the write path does before reallocating.
pub open spec fn released_bitmap(pre: Region, idx: int) -> Seq<bool> {
    mark_range(
        pre.bitmap_seq(),
        pre.metadata_seq()[idx].start_sector_index as int,
        pre.metadata_seq()[idx].sectors as int,
        false,
    )
}

/// Sectors a slab needs for a scratch buffer of `len` bytes: the slab's
/// length rounded down to sectors, plus one sector of slack.
pub open spec fn sectors_needed(len: int) -> int {
    (len + 4) / 4096 + 1
}

/// A readable slab respects the on-disk length bound: its length field is
/// at most its sector span and at most 1 MiB.
pub proof fn lemma_readable_slab_length(data: Seq<u8>, md: ChunkMetadata)
    requires
        slot_payload(data, md) is Some,
    ensures
        stored_length(data, md) <= md.sectors * 4096,
        stored_length(data, md) <= 1048576,
{
    assert(stored_length(data, md) <= max_slab_length(md));
}

/// First write into a fresh, empty region: when the slab fits one sector,
/// the file grows to exactly 8192 + 4096 = 12288 bytes and the chunk lands
/// at sector 2.
pub proof fn lemma_first_write_fresh(
    pre: Region,
    post: Region,
    x: int,
    z: int,
    data: Seq<u8>,
    t: u32,
)
    requires
        pre.wf(),
        pre.source_seq().len() == 0,
        0 <= x < 32,
        0 <= z < 32,
        1 <= data.len(),
        data.len() + 4 < 4096,
        Region::write_model(pre, post, x, z, data, t),
    ensures
        post.source_seq().len() == 12288,
        post.metadata_seq()[x + z * 32].start_sector_index == 2,
        post.metadata_seq()[x + z * 32].sectors == 1,
{
    pre.lemma_wf_properties();
    let idx = x + z * 32;
    let old_md = pre.metadata_seq()[idx];
    assert(!slot_present(old_md));
    let needed = sectors_needed(data.len() as int);
    assert(needed == 1);
    let b0 = pre.bitmap_seq();
    assert(b0.len() == 2);
    let freed = mark_range(b0, old_md.start_sector_index as int, old_md.sectors as int, false);
    assert(freed =~= b0);
    assert(!fits(freed, 0, 1));
    assert(!fits(freed, 1, 1));
    assert(first_fit_from(freed, 1, 2) is None);
    assert(first_fit_from(freed, 1, 1) is None);
    assert(first_fit_from(freed, 1, 0) is None);
    assert(freed.last());
    assert(tail_free(freed) == 0);
}

/// Rewriting a chunk with a slab of the same sector count keeps it in
/// place: same start sector, same bitmap, and the file does not grow.
pub proof fn lemma_rewrite_same_size_in_place(
    pre: Region,
    post: Region,
    x: int,
    z: int,
    data: Seq<u8>,
    t: u32,
)
    requires
        pre.wf(),
        0 <= x < 32,
        0 <= z < 32,
        pre.source_seq().len() == pre.total_sectors() * 4096,
        pre.metadata_seq()[x + z * 32].sectors == sectors_needed(data.len() as int),
        Region::write_model(pre, post, x, z, data, t),
    ensures
        post.source_seq().len() == pre.source_seq().len(),
        post.metadata_seq()[x + z * 32].start_sector_index == pre.metadata_seq()[x + z
            * 32].start_sector_index,
        post.bitmap_seq() == pre.bitmap_seq(),
        post.total_sectors() == pre.total_sectors(),
{
    pre.lemma_wf_properties();
    crate::region::lemma_len_le_norm(pre.source_seq().len() as int, pre.total_sectors());
}

/// A rewrite that changes the sector count releases the slot's old range
/// and places the slab first-fit by ascending sector index: at the first
/// free run that holds it, or, when no run inside the file does, at the
/// free run touching the end, growing the file by exactly the missing
/// sectors.
pub proof fn lemma_realloc_is_first_fit(
    pre: Region,
    post: Region,
    x: int,
    z: int,
    data: Seq<u8>,
    t: u32,
)
    requires
        pre.wf(),
        0 <= x < 32,
        0 <= z < 32,
        1 <= data.len(),
        data.len() + 4 < 1044480,
        pre.total_sectors() <= 0xFFFFFF,
        pre.metadata_seq()[x + z * 32].sectors != sectors_needed(data.len() as int),
        Region::write_model(pre, post, x, z, data, t),
    ensures
        ({
            let idx = x + z * 32;
            let needed = sectors_needed(data.len() as int);
            let freed = released_bitmap(pre, idx);
            let s = post.metadata_seq()[idx].start_sector_index as int;
            &&& post.metadata_seq()[idx].sectors == needed
            &&& (first_fit_from(freed, needed, 0) is Some ==> {
                &&& Some(s) == first_fit_from(freed, needed, 0)
                &&& fits(freed, s, needed)
                &&& forall|s2: int| 0 <= s2 < s ==> !fits(freed, s2, needed)
                &&& post.source_seq().len() == pre.total_sectors() * 4096
            })
            &&& (first_fit_from(freed, needed, 0) is None ==> {
                &&& s == freed.len() - tail_free(freed)
                &&& post.source_seq().len() == (pre.total_sectors() + needed - tail_free(freed))
                    * 4096
            })
        }),
{
    let idx = x + z * 32;
    let needed = sectors_needed(data.len() as int);
    let freed = released_bitmap(pre, idx);
    pre.lemma_wf_properties();
    crate::region::lemma_len_le_norm(pre.source_seq().len() as int, pre.total_sectors());
    if first_fit_from(freed, needed, 0) is Some {
        let s0 = first_fit_from(freed, needed, 0)->Some_0;
        lemma_first_fit_from_some(freed, needed, 0, s0);
    } else {
        let g = needed - tail_free(freed);
        crate::allocator::lemma_no_fit_tail_short(freed, needed);
        lemma_tail_free_bounds(freed);
        assert(g >= 1);
        assert(post.source_seq().len() == pre.total_sectors() * 4096 + g * 4096);
        assert(pre.total_sectors() * 4096 + g * 4096 == (pre.total_sectors() + g) * 4096)
            by (nonlinear_arith);
    }
}

/// A freed range becomes reusable: when the new slab fits inside the
/// slot's old range and no free run before that range holds it, the slab
/// lands exactly at the old start sector.
pub proof fn lemma_freed_range_reused(
    pre: Region,
    post: Region,
    x: int,
    z: int,
    data: Seq<u8>,
    t: u32,
)
    requires
        pre.wf(),
        0 <= x < 32,
        0 <= z < 32,
        slot_present(pre.metadata_seq()[x + z * 32]),
        sectors_needed(data.len() as int) <= pre.metadata_seq()[x + z * 32].sectors,
        sectors_needed(data.len() as int) != pre.metadata_seq()[x + z * 32].sectors,
        forall|s2: int|
            0 <= s2 < pre.metadata_seq()[x + z * 32].start_sector_index ==> !#[trigger] fits(
                released_bitmap(pre, x + z * 32),
                s2,
                sectors_needed(data.len() as int),
            ),
        Region::write_model(pre, post, x, z, data, t),
    ensures
        post.metadata_seq()[x + z * 32].start_sector_index == pre.metadata_seq()[x + z
            * 32].start_sector_index,
{
    pre.lemma_wf_properties();
    let idx = x + z * 32;
    let old_md = pre.metadata_seq()[idx];
    let needed = sectors_needed(data.len() as int);
    let freed = released_bitmap(pre, idx);
    let start = old_md.start_sector_index as int;
    crate::region::lemma_len_le_norm(pre.source_seq().len() as int, pre.total_sectors());
    assert(old_md.start_sector_index + old_md.sectors <= pre.total_sectors()) by (nonlinear_arith)
        requires
            (old_md.start_sector_index + old_md.sectors) * 4096 <= pre.source_seq().len(),
            pre.source_seq().len() <= pre.total_sectors() * 4096,
            old_md.sectors >= 1,
    ;
    assert(needed >= 1);
    assert(fits(freed, start, needed));
    lemma_first_fit_from_found(freed, needed, 0, start);
}

} // verus!
