//! Addresses that carry two bits in their low end.

use vstd::prelude::*;

verus! {

/// The bit that holds a node's colour.
pub const BIT_COLOUR: u32 = 0;

/// The bit that holds the side on which a node hangs from its parent.
pub const BIT_SIDE: u32 = 1;

const TAG_MASK: u64 = 3;

/// An address that is a multiple of four, with two bits packed below it.
#[derive(Clone, Copy)]
pub struct TaggedPtr {
    bits: u64,
}

/// Whether `addr` leaves both tag bits free.
pub open spec fn taggable(addr: int) -> bool {
    addr % 4 == 0
}

proof fn lemma_bits(b: u64, p: u64, n: u32)
    by (bit_vector)
    requires
        n < 2,
        p % 4 == 0,
    ensures
        b & !3 <= b,
        (b & !3) % 4 == 0,
        p & !3 == p,
        b & 3 < 4,
        (b | (1u64 << n)) & !3 == b & !3,
        (b & !(1u64 << n)) & !3 == b & !3,
        ((b | (1u64 << n)) >> n) & 1 == 1,
        ((b & !(1u64 << n)) >> n) & 1 == 0,
        ((b | (1u64 << n)) >> ((1 - n) as u32)) & 1 == (b >> ((1 - n) as u32)) & 1,
        ((b & !(1u64 << n)) >> ((1 - n) as u32)) & 1 == (b >> ((1 - n) as u32)) & 1,
        (p | (b & 3)) & !3 == p,
        ((p | (b & 3)) >> n) & 1 == (b >> n) & 1,
        (b >> n) & 1 == 0 || (b >> n) & 1 == 1,
{
}

proof fn lemma_bits_init(p: u64, t: u64)
    by (bit_vector)
    requires
        p % 4 == 0,
        t < 4,
    ensures
        (p | t) & !3 == p,
        ((p | t) >> 0u32) & 1 == (t & 1),
        ((p | t) >> 1u32) & 1 == ((t >> 1u32) & 1),
        0u64 & 1 == 0,
        1u64 & 1 == 1,
        2u64 & 1 == 0,
        3u64 & 1 == 1,
        (0u64 >> 1u32) & 1 == 0,
        (1u64 >> 1u32) & 1 == 0,
        (2u64 >> 1u32) & 1 == 1,
        (3u64 >> 1u32) & 1 == 1,
{
}

impl TaggedPtr {
    /// The address without its tag bits.
    pub closed spec fn addr(self) -> int {
        (self.bits & !3) as int
    }

    /// Tag bit `n`.
    pub closed spec fn tag(self, n: int) -> bool {
        (self.bits >> (n as u32)) & 1 == 1
    }

    /// Address zero with both bits clear.
    pub fn null() -> (r: Self)
        ensures
            r.addr() == 0,
            !r.tag(0),
            !r.tag(1),
    {
        proof {
            lemma_bits_init(0, 0);
            assert(0u64 | 0u64 == 0u64) by (bit_vector);
        }
        TaggedPtr { bits: 0 }
    }

    /// `ptr` with the bits of `tag`.
    pub fn new(ptr: u64, tag: u64) -> (r: Self)
        requires
            taggable(ptr as int),
            tag < 4,
        ensures
            r.addr() == ptr,
            r.tag(0) == (tag % 2 == 1),
            r.tag(1) == (tag >= 2),
    {
        proof {
            lemma_bits_init(ptr, tag);
        }
        TaggedPtr { bits: ptr | tag }
    }

    /// The address.
    pub fn ptr(&self) -> (r: u64)
        ensures
            r == self.addr(),
            taggable(r as int),
    {
        proof {
            lemma_bits(self.bits, 0, 0);
        }
        self.bits & !TAG_MASK
    }

    /// Tag bit `n`.
    pub fn bit(&self, n: u32) -> (r: bool)
        requires
            n < 2,
        ensures
            r == self.tag(n as int),
    {
        (self.bits >> n) & 1 == 1
    }

    /// Sets tag bit `n`; the address and the other bit stay.
    pub fn set_bit(&mut self, n: u32)
        requires
            n < 2,
        ensures
            final(self).addr() == old(self).addr(),
            final(self).tag(n as int),
            final(self).tag(1 - n) == old(self).tag(1 - n),
    {
        proof {
            lemma_bits(self.bits, 0, n);
        }
        self.bits = self.bits | (1u64 << n);
    }

    /// Clears tag bit `n`; the address and the other bit stay.
    pub fn clear_bit(&mut self, n: u32)
        requires
            n < 2,
        ensures
            final(self).addr() == old(self).addr(),
            !final(self).tag(n as int),
            final(self).tag(1 - n) == old(self).tag(1 - n),
    {
        proof {
            lemma_bits(self.bits, 0, n);
        }
        self.bits = self.bits & !(1u64 << n);
    }

    /// Replaces the address; both bits stay.
    pub fn set_ptr(&mut self, ptr: u64)
        requires
            taggable(ptr as int),
        ensures
            final(self).addr() == ptr,
            final(self).tag(0) == old(self).tag(0),
            final(self).tag(1) == old(self).tag(1),
    {
        proof {
            lemma_bits(self.bits, ptr, 0);
            lemma_bits(self.bits, ptr, 1);
        }
        self.bits = ptr | (self.bits & TAG_MASK);
    }
}

} // verus!
