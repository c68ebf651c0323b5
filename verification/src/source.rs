//! A growable random-access byte store, the byte source that the region
//! engine reads from and writes to.

use vstd::prelude::*;

verus! {

/// Big-endian value of a four-byte sequence.
pub open spec fn be32_val(s: Seq<u8>) -> int
    recommends
        s.len() == 4,
{
    s[0] * 0x1000000 + s[1] * 0x10000 + s[2] * 0x100 + s[3]
}

/// The four big-endian bytes of a 32-bit value.
pub open spec fn u32_be_bytes(v: u32) -> Seq<u8> {
    seq![
        (v / 0x1000000) as u8,
        ((v / 0x10000) % 0x100) as u8,
        ((v / 0x100) % 0x100) as u8,
        (v % 0x100) as u8,
    ]
}

/// A sequence of `n` zero bytes.
pub open spec fn zero_bytes(n: nat) -> Seq<u8> {
    Seq::new(n, |i: int| 0u8)
}

pub proof fn lemma_be32_round_trip(v: u32)
    ensures
        be32_val(u32_be_bytes(v)) == v,
{
    assert(v == (v / 0x1000000) * 0x1000000 + ((v / 0x10000) % 0x100) * 0x10000 + ((v / 0x100)
        % 0x100) * 0x100 + (v % 0x100)) by (bit_vector);
}

/// An in-memory byte store over which a region engine runs: positional reads
/// and writes, length, and zero-extension.
pub struct MemorySource {
    bytes: Vec<u8>,
}

impl View for MemorySource {
    type V = Seq<u8>;

    closed spec fn view(&self) -> Seq<u8> {
        self.bytes@
    }
}

impl MemorySource {
    /// Wraps an owned byte buffer as a source.
    pub fn new(bytes: Vec<u8>) -> (r: MemorySource)
        ensures
            r@ == bytes@,
    {
        MemorySource { bytes }
    }

    /// An empty source, as a freshly created region file has.
    pub fn empty() -> (r: MemorySource)
        ensures
            r@ == Seq::<u8>::empty(),
    {
        MemorySource { bytes: Vec::new() }
    }

    /// Gives the bytes back.
    pub fn into_bytes(self) -> (r: Vec<u8>)
        ensures
            r@ == self@,
    {
        self.bytes
    }

    /// Current length of the source in bytes.
    pub fn len(&self) -> (r: usize)
        ensures
            r == self@.len(),
    {
        self.bytes.len()
    }

    /// The byte at position `i`.
    pub fn byte_at(&self, i: usize) -> (r: u8)
        requires
            i < self@.len(),
        ensures
            r == self@[i as int],
    {
        self.bytes[i]
    }

    /// Copies `n` bytes starting at `off` out of the source.
    pub fn read_bytes(&self, off: usize, n: usize) -> (r: Vec<u8>)
        requires
            off + n <= self@.len(),
        ensures
            r@ == self@.subrange(off as int, off + n),
    {
        let total: usize = self.bytes.len();
        let mut out: Vec<u8> = Vec::new();
        let mut k: usize = 0;
        while k < n
            invariant
                total == self@.len(),
                off + n <= total,
                k <= n,
                out@ =~= self@.subrange(off as int, off + k),
            decreases n - k,
        {
            out.push(self.bytes[off + k]);
            k = k + 1;
        }
        assert(out@ =~= self@.subrange(off as int, off + n));
        out
    }

    /// Reads the big-endian 32-bit word at `off`.
    pub fn read_u32_be(&self, off: usize) -> (r: u32)
        requires
            off + 4 <= self@.len(),
        ensures
            r == be32_val(self@.subrange(off as int, off + 4)),
    {
        let total: usize = self.bytes.len();
        let b0 = self.bytes[off];
        let b1 = self.bytes[off + 1];
        let b2 = self.bytes[off + 2];
        let b3 = self.bytes[off + 3];
        let r = (b0 as u32) * 0x1000000 + (b1 as u32) * 0x10000 + (b2 as u32) * 0x100 + (b3 as u32);
        proof {
            let s = self@.subrange(off as int, off + 4);
            assert(s[0] == b0 && s[1] == b1 && s[2] == b2 && s[3] == b3);
        }
        r
    }

    /// Overwrites the byte at position `i`.
    pub fn write_byte(&mut self, i: usize, b: u8)
        requires
            i < old(self)@.len(),
        ensures
            final(self)@ == old(self)@.update(i as int, b),
    {
        self.bytes[i] = b;
    }

    /// Overwrites `bs.len()` bytes starting at `off`.
    pub fn write_bytes(&mut self, off: usize, bs: &Vec<u8>)
        requires
            off + bs@.len() <= old(self)@.len(),
        ensures
            final(self)@.len() == old(self)@.len(),
            final(self)@ == old(self)@.subrange(0, off as int) + bs@ + old(self)@.subrange(
                off + bs@.len(),
                old(self)@.len() as int,
            ),
    {
        let total: usize = self.bytes.len();
        let n: usize = bs.len();
        let mut k: usize = 0;
        while k < n
            invariant
                total == old(self)@.len(),
                n == bs@.len(),
                off + n <= total,
                k <= n,
                self@.len() == old(self)@.len(),
                self@ =~= old(self)@.subrange(0, off as int) + bs@.subrange(0, k as int) + old(
                    self,
                )@.subrange(off + k, old(self)@.len() as int),
            decreases n - k,
        {
            self.bytes[off + k] = bs[k];
            k = k + 1;
        }
        assert(bs@.subrange(0, n as int) =~= bs@);
        assert(self@ =~= old(self)@.subrange(0, off as int) + bs@ + old(self)@.subrange(
            off + n,
            old(self)@.len() as int,
        ));
    }

    /// Writes the big-endian 32-bit word `v` at `off`.
    pub fn write_u32_be(&mut self, off: usize, v: u32)
        requires
            off + 4 <= old(self)@.len(),
        ensures
            final(self)@.len() == old(self)@.len(),
            final(self)@ == old(self)@.subrange(0, off as int) + u32_be_bytes(v) + old(
                self,
            )@.subrange(off + 4, old(self)@.len() as int),
            be32_val(final(self)@.subrange(off as int, off + 4)) == v,
    {
        proof {
            lemma_be32_round_trip(v);
        }
        let total: usize = self.bytes.len();
        let b0: u8 = (v / 0x1000000) as u8;
        let b1: u8 = ((v / 0x10000) % 0x100) as u8;
        let b2: u8 = ((v / 0x100) % 0x100) as u8;
        let b3: u8 = (v % 0x100) as u8;
        self.bytes[off] = b0;
        self.bytes[off + 1] = b1;
        self.bytes[off + 2] = b2;
        self.bytes[off + 3] = b3;
        assert(self@ =~= old(self)@.subrange(0, off as int) + u32_be_bytes(v) + old(
            self,
        )@.subrange(off + 4, old(self)@.len() as int));
        assert(self@.subrange(off as int, off + 4) =~= u32_be_bytes(v));
    }

    /// Grows the source to at least `new_len` bytes by appending zero bytes;
    /// a source already that long is left unchanged.
    pub fn extend_len(&mut self, new_len: usize)
        ensures
            final(self)@ == if new_len > old(self)@.len() {
                old(self)@ + zero_bytes((new_len - old(self)@.len()) as nat)
            } else {
                old(self)@
            },
            final(self)@.len() >= new_len,
    {
        let old_len: usize = self.bytes.len();
        if new_len <= old_len {
            return ;
        }
        let mut k: usize = old_len;
        while k < new_len
            invariant
                old_len == old(self)@.len(),
                old_len <= k <= new_len,
                self@.len() == k,
                self@ =~= old(self)@ + zero_bytes((k - old_len) as nat),
            decreases new_len - k,
        {
            self.bytes.push(0u8);
            k = k + 1;
        }
        assert(self@ =~= old(self)@ + zero_bytes((new_len - old_len) as nat));
    }
}

} // verus!
