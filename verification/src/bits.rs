//! The sector bitmap is kept in a `bitvec` bit-vector. Verus cannot read that
//! type, so it lives in the opaque [`SectorBits`] wrapper and is seen through
//! the uninterpreted contents function [`bit_seq`] and the small methods
//! below, each of which relies on one documented `bitvec` operation.

use bitvec::vec::BitVec;
use vstd::prelude::*;

verus! {

/// A growable vector of bits, indexed by sector number.
#[verifier::external_body]
pub struct SectorBits {
    bits: BitVec,
}

/// The bits held by a [`SectorBits`], in index order.
pub uninterp spec fn bit_seq(b: SectorBits) -> Seq<bool>;

impl SectorBits {
    /// Relies on bitvec's `BitVec::repeat`: a bit-vector of `len` copies of `bit`.
    #[verifier::external_body]
    pub fn repeat(bit: bool, len: usize) -> (r: SectorBits)
        requires
            len < usize::MAX / 16,
        ensures
            bit_seq(r) == Seq::new(len as nat, |i: int| bit),
    {
        SectorBits { bits: BitVec::repeat(bit, len) }
    }

    /// Relies on bitvec's `BitVec::len`: the number of bits held.
    #[verifier::external_body]
    pub fn len(&self) -> (r: usize)
        ensures
            r == bit_seq(*self).len(),
    {
        self.bits.len()
    }

    /// Relies on bitvec's `BitSlice` indexing: the bit at index `i`.
    #[verifier::external_body]
    pub fn get(&self, i: usize) -> (r: bool)
        requires
            i < bit_seq(*self).len(),
        ensures
            r == bit_seq(*self)[i as int],
    {
        self.bits[i]
    }

    /// Relies on bitvec's `BitSlice::set`: replaces the bit at index `i`.
    #[verifier::external_body]
    pub fn set(&mut self, i: usize, value: bool)
        requires
            i < bit_seq(*old(self)).len(),
        ensures
            bit_seq(*final(self)) == bit_seq(*old(self)).update(i as int, value),
    {
        self.bits.set(i, value)
    }

    /// Relies on bitvec's `BitVec::push`: appends one bit at the high end.
    #[verifier::external_body]
    pub fn push(&mut self, value: bool)
        requires
            bit_seq(*old(self)).len() < usize::MAX / 16,
        ensures
            bit_seq(*final(self)) == bit_seq(*old(self)).push(value),
    {
        self.bits.push(value)
    }

    /// Relies on bitvec's `Clone` for `BitVec`: an equal, independent bit-vector.
    #[verifier::external_body]
    pub fn duplicate(&self) -> (r: SectorBits)
        ensures
            bit_seq(r) == bit_seq(*self),
    {
        SectorBits { bits: self.bits.clone() }
    }

    /// Relies on bitvec's `BitSlice` iteration: the bits as plain booleans,
    /// in index order.
    #[verifier::external_body]
    pub fn to_bools(&self) -> (r: Vec<bool>)
        ensures
            r@ == bit_seq(*self),
    {
        self.bits.iter().by_vals().collect()
    }
}

} // verus!
