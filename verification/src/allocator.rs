//! First-fit sector allocation over the sector bitmap.
//!
//! The mathematical model: [`fits`] says that a run of free sectors starts at
//! a given index, [`first_fit_from`] finds the first such run, [`tail_free`]
//! measures the free run touching the end of the bitmap, and
//! [`alloc_start`] / [`alloc_grow`] / [`alloc_bits`] describe where an
//! allocation lands, by how many sectors the file must grow, and what the
//! bitmap holds afterwards.

use crate::bits::{bit_seq, SectorBits};
use vstd::prelude::*;

verus! {

/// A run of `n` free sectors starts at index `s`.
pub open spec fn fits(bits: Seq<bool>, s: int, n: int) -> bool {
    &&& 0 <= s
    &&& 0 <= n
    &&& s + n <= bits.len()
    &&& forall|k: int| s <= k < s + n ==> !bits[k]
}

/// The first index at or after `from` where a run of `n` free sectors starts.
pub open spec fn first_fit_from(bits: Seq<bool>, n: int, from: int) -> Option<int>
    decreases bits.len() - from,
{
    if n < 0 || from + n > bits.len() {
        None
    } else if fits(bits, from, n) {
        Some(from)
    } else {
        first_fit_from(bits, n, from + 1)
    }
}

/// Length of the free run touching the end of the bitmap.
pub open spec fn tail_free(bits: Seq<bool>) -> int
    decreases bits.len(),
{
    if bits.len() == 0 {
        0
    } else if bits.last() {
        0
    } else {
        1 + tail_free(bits.drop_last())
    }
}

/// `bits` with the range `[s, s + n)` replaced by `value`.
pub open spec fn mark_range(bits: Seq<bool>, s: int, n: int, value: bool) -> Seq<bool> {
    Seq::new(bits.len(), |i: int| if s <= i < s + n { value } else { bits[i] })
}

/// Start sector of a first-fit allocation of `n` sectors: the first free run
/// inside the bitmap, or, when none exists, the start of the free run
/// touching the end (the file is extended past it).
pub open spec fn alloc_start(bits: Seq<bool>, n: int) -> int {
    match first_fit_from(bits, n, 0) {
        Some(s) => s,
        None => bits.len() - tail_free(bits),
    }
}

/// Number of sectors the bitmap (and the file) grows by for an allocation.
pub open spec fn alloc_grow(bits: Seq<bool>, n: int) -> int {
    match first_fit_from(bits, n, 0) {
        Some(s) => 0,
        None => n - tail_free(bits),
    }
}

/// The bitmap after an allocation of `n` sectors: grown by
/// [`alloc_grow`] bits and with the allocated range marked occupied.
pub open spec fn alloc_bits(bits: Seq<bool>, n: int) -> Seq<bool> {
    mark_range(
        bits + Seq::new(alloc_grow(bits, n) as nat, |i: int| true),
        alloc_start(bits, n),
        n,
        true,
    )
}

/// When the search reports no run, no run exists at or after `from`.
pub proof fn lemma_first_fit_from_none(bits: Seq<bool>, n: int, from: int)
    requires
        first_fit_from(bits, n, from) is None,
    ensures
        forall|s: int| from <= s ==> !fits(bits, s, n),
    decreases bits.len() - from,
{
    if n < 0 || from + n > bits.len() {
        assert forall|s: int| from <= s implies !fits(bits, s, n) by {
            assert(s + n >= from + n);
        }
    } else {
        lemma_first_fit_from_none(bits, n, from + 1);
    }
}

/// What a found run means: it fits, and no earlier position at or after
/// `from` fits.
pub proof fn lemma_first_fit_from_some(bits: Seq<bool>, n: int, from: int, s0: int)
    requires
        first_fit_from(bits, n, from) == Some(s0),
    ensures
        fits(bits, s0, n),
        from <= s0,
        forall|s: int| from <= s < s0 ==> !fits(bits, s, n),
    decreases bits.len() - from,
{
    if n < 0 || from + n > bits.len() {
    } else if fits(bits, from, n) {
    } else {
        lemma_first_fit_from_some(bits, n, from + 1, s0);
    }
}

/// The converse: a fitting position before which nothing fits is what the
/// search returns.
pub proof fn lemma_first_fit_from_found(bits: Seq<bool>, n: int, from: int, s0: int)
    requires
        from <= s0,
        fits(bits, s0, n),
        forall|s: int| from <= s < s0 ==> !fits(bits, s, n),
    ensures
        first_fit_from(bits, n, from) == Some(s0),
    decreases s0 - from,
{
    assert(s0 + n <= bits.len());
    assert(from + n <= bits.len());
    if from == s0 {
    } else {
        assert(!fits(bits, from, n));
        lemma_first_fit_from_found(bits, n, from + 1, s0);
    }
}

/// Basic facts about the tail run: its bits are free, and the bit just
/// before it (if any) is occupied.
pub proof fn lemma_tail_free_bounds(bits: Seq<bool>)
    ensures
        0 <= tail_free(bits) <= bits.len(),
        forall|k: int| bits.len() - tail_free(bits) <= k < bits.len() ==> !bits[k],
        tail_free(bits) < bits.len() ==> bits[bits.len() - tail_free(bits) - 1],
    decreases bits.len(),
{
    if bits.len() == 0 {
    } else if bits.last() {
    } else {
        lemma_tail_free_bounds(bits.drop_last());
        assert forall|k: int| bits.len() - tail_free(bits) <= k < bits.len() implies !bits[k] by {
            if k < bits.len() - 1 {
                assert(!bits.drop_last()[k]);
            }
        }
        if tail_free(bits) < bits.len() {
            assert(bits[bits.len() - tail_free(bits) - 1] == bits.drop_last()[bits.drop_last().len()
                - tail_free(bits.drop_last()) - 1]);
        }
    }
}

/// The tail run length is determined by those facts.
pub proof fn lemma_tail_free_of(bits: Seq<bool>, m: int)
    requires
        0 <= m <= bits.len(),
        forall|k: int| bits.len() - m <= k < bits.len() ==> !bits[k],
        m < bits.len() ==> bits[bits.len() - m - 1],
    ensures
        tail_free(bits) == m,
    decreases bits.len(),
{
    if bits.len() == 0 {
    } else if m == 0 {
        assert(bits.last());
    } else {
        assert(!bits.last());
        assert forall|k: int|
            bits.drop_last().len() - (m - 1) <= k < bits.drop_last().len() implies !bits.drop_last()[k] by {
            assert(bits[k] == bits.drop_last()[k]);
        }
        if m - 1 < bits.drop_last().len() {
            assert(bits.drop_last()[bits.drop_last().len() - (m - 1) - 1] == bits[bits.len() - m
                - 1]);
        }
        lemma_tail_free_of(bits.drop_last(), m - 1);
    }
}

/// When no run of `n` fits inside the bitmap, the tail run is shorter
/// than `n`.
pub proof fn lemma_no_fit_tail_short(bits: Seq<bool>, n: int)
    requires
        0 <= n,
        first_fit_from(bits, n, 0) is None,
    ensures
        tail_free(bits) < n,
{
    lemma_first_fit_from_none(bits, n, 0);
    lemma_tail_free_bounds(bits);
    if tail_free(bits) >= n {
        assert(fits(bits, bits.len() - n, n));
    }
}

impl SectorBits {
    /// Replaces the bits of `[start, start + n)` by `value`: releasing a
    /// slot's sectors or marking a claimed range occupied.
    #[verifier::loop_isolation(false)]
    pub fn set_range(&mut self, start: usize, n: usize, value: bool)
        requires
            start + n <= bit_seq(*old(self)).len(),
        ensures
            bit_seq(*final(self)) == mark_range(bit_seq(*old(self)), start as int, n as int, value),
    {
        let total: usize = self.len();
        let mut i: usize = 0;
        while i < n
            invariant
                total == bit_seq(*old(self)).len(),
                start + n <= total,
                i <= n,
                bit_seq(*self) =~= Seq::new(
                    bit_seq(*old(self)).len(),
                    |k: int|
                        if start <= k < start + i {
                            value
                        } else {
                            bit_seq(*old(self))[k]
                        },
                ),
            decreases n - i,
        {
            self.set(start + i, value);
            i = i + 1;
        }
        assert(bit_seq(*self) =~= mark_range(bit_seq(*old(self)), start as int, n as int, value));
    }

    /// Finds a place for `needed` contiguous sectors, first-fit by ascending
    /// sector index, and marks it occupied. Returns the start sector and the
    /// number of sectors the bitmap grew by; the caller grows the file by
    /// the same amount.
    #[verifier::loop_isolation(false)]
    pub fn find_fit(&mut self, needed: usize) -> (r: (usize, usize))
        requires
            1 <= needed,
            2 <= bit_seq(*old(self)).len(),
            bit_seq(*old(self))[0],
            bit_seq(*old(self))[1],
            bit_seq(*old(self)).len() + needed < usize::MAX / 16,
        ensures
            r.0 == alloc_start(bit_seq(*old(self)), needed as int),
            r.1 == alloc_grow(bit_seq(*old(self)), needed as int),
            bit_seq(*final(self)) == alloc_bits(bit_seq(*old(self)), needed as int),
            2 <= r.0,
            r.1 != 0 ==> r.0 + needed == bit_seq(*old(self)).len() + r.1,
            r.0 + needed <= bit_seq(*final(self)).len(),
            bit_seq(*final(self)).len() == bit_seq(*old(self)).len() + r.1,
            r.1 <= needed,
    {
        let ghost b0 = bit_seq(*old(self));
        let ghost n = needed as int;
        let total: usize = self.len();
        let mut sectors_free: usize = 0;
        let mut sector_index: usize = 0;
        while sector_index < total
            invariant
                bit_seq(*self) == b0,
                b0.len() == total,
                2 <= total,
                b0[0],
                1 <= needed,
                total + needed < usize::MAX / 16,
                sectors_free <= sector_index <= total,
                sectors_free < needed,
                forall|k: int| sector_index - sectors_free <= k < sector_index ==> !b0[k],
                sector_index > 0 ==> sectors_free < sector_index,
                sectors_free < sector_index ==> b0[sector_index - sectors_free - 1],
                forall|s: int| 0 <= s && s + needed <= sector_index ==> !fits(b0, s, n),
            decreases total - sector_index,
        {
            if self.get(sector_index) {
                sectors_free = 0;
                assert forall|s: int| 0 <= s && s + needed <= sector_index + 1 implies !fits(
                    b0,
                    s,
                    n,
                ) by {
                    if s + needed == sector_index + 1 {
                        assert(b0[sector_index as int]);
                    }
                }
            } else {
                sectors_free = sectors_free + 1;
                if sectors_free == needed {
                    let put: usize = sector_index + 1 - needed;
                    proof {
                        assert(fits(b0, put as int, n));
                        assert forall|s: int| 0 <= s < put implies !fits(b0, s, n) by {
                            assert(s + needed <= sector_index);
                        }
                        lemma_first_fit_from_found(b0, n, 0, put as int);
                    }
                    self.set_range(put, needed, true);
                    proof {
                        assert(bit_seq(*self) =~= alloc_bits(b0, n));
                    }
                    return (put, 0);
                }
                assert forall|s: int| 0 <= s && s + needed <= sector_index + 1 implies !fits(
                    b0,
                    s,
                    n,
                ) by {
                    if s + needed == sector_index + 1 {
                        assert(sectors_free < needed);
                        assert(b0[sector_index - sectors_free]);
                        assert(s <= sector_index - sectors_free < s + needed);
                    }
                }
            }
            sector_index = sector_index + 1;
        }
        proof {
            assert forall|s: int| 0 <= s implies !fits(b0, s, n) by {
                if s + needed <= total {
                    assert(!fits(b0, s, n));
                }
            }
            if first_fit_from(b0, n, 0) is Some {
                let s0 = first_fit_from(b0, n, 0)->Some_0;
                lemma_first_fit_from_some(b0, n, 0, s0);
            }
            lemma_tail_free_of(b0, sectors_free as int);
        }
        let start: usize = total - sectors_free;
        let grow: usize = needed - sectors_free;
        let mut g: usize = 0;
        while g < grow
            invariant
                bit_seq(*self) =~= b0 + Seq::new(g as nat, |i: int| true),
                g <= grow,
                b0.len() == total,
                total + needed < usize::MAX / 16,
                grow <= needed,
            decreases grow - g,
        {
            self.push(true);
            g = g + 1;
            assert(bit_seq(*self) =~= b0 + Seq::new(g as nat, |i: int| true));
        }
        self.set_range(start, sectors_free, true);
        proof {
            assert(bit_seq(*self) =~= alloc_bits(b0, n));
        }
        (start, grow)
    }
}

} // verus!
