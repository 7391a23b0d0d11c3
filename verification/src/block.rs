//! The headers of large blocks and the physical chain that they form.
//!
//! A header stands directly before the payload of its block. The block behind it is
//! found from its own size, the block before it is recorded in the header.

use crate::table::Table;
use vstd::prelude::*;

verus! {

/// The alignment of every address that the allocator returns.
pub const DEFAULT_ALIGNMENT: u64 = 8;

/// The bytes that a header takes.
pub const HEADER_SIZE: u64 = 16;

/// The bytes that a free block needs in its payload for its place in the index.
pub const FREE_NODE_SIZE: u64 = 40;

const BL_USED: u64 = 1;

const FLAG_MASK: u64 = 3;

/// A header: the header before it, the size of the payload and whether it is in use.
pub struct Block {
    pub prev: int,
    pub size: int,
    pub used: bool,
}

/// The headers by address.
pub type Chain = Map<int, Block>;

/// The address behind the payload of the block at `a`, where the next header stands.
pub open spec fn next_of(b: Chain, a: int) -> int {
    a + HEADER_SIZE + b[a].size
}

pub open spec fn with_prev(b: Chain, a: int, prev: int) -> Chain {
    b.insert(a, Block { prev, ..b[a] })
}

pub open spec fn with_size(b: Chain, a: int, size: int) -> Chain {
    b.insert(a, Block { size, ..b[a] })
}

pub open spec fn with_used(b: Chain, a: int, used: bool) -> Chain {
    b.insert(a, Block { used, ..b[a] })
}

/// The chain after the block at `a` was given to the block before it.
pub open spec fn unlinked(b: Chain, a: int) -> Chain {
    let n = next_of(b, a);
    let p = b[a].prev;
    let b1 = with_prev(b, n, p);
    with_size(b1, p, n - p - HEADER_SIZE).remove(a)
}

/// The chain after a free block was started at `x`, inside the block at `p`.
pub open spec fn linked_after(b: Chain, x: int, p: int) -> Chain {
    let n = next_of(b, p);
    let b1 = b.insert(x, Block { prev: p, size: n - x - HEADER_SIZE, used: false });
    let b2 = with_prev(b1, n, x);
    with_size(b2, p, x - p - HEADER_SIZE)
}

proof fn lemma_flags(s: u64, n: u64)
    by (bit_vector)
    requires
        n % 4 == 0,
    ensures
        (s & !3) % 4 == 0,
        ((s & 3) | n) & !3 == n,
        ((s & 3) | n) & 1 == s & 1,
        (s | 1) & !3 == s & !3,
        (s | 1) & 1 == 1,
        (s & !1) & !3 == s & !3,
        (s & !1) & 1 == 0,
        s & 1 == 0 || s & 1 == 1,
        0u64 & !3 == 0,
        0u64 & 1 == 0,
{
}

/// A header as it is stored: the two low bits of the size word are flags.
#[derive(Clone, Copy)]
pub struct BlockHeader {
    prev: u64,
    size_and_flags: u64,
}

impl View for BlockHeader {
    type V = Block;

    closed spec fn view(&self) -> Block {
        Block {
            prev: self.prev as int,
            size: (self.size_and_flags & !3) as int,
            used: self.size_and_flags & 1 == 1,
        }
    }
}

impl BlockHeader {
    /// A free header of size zero with nothing before it.
    pub fn new() -> (h: Self)
        ensures
            h@ == (Block { prev: 0, size: 0, used: false }),
    {
        proof {
            lemma_flags(0, 0);
        }
        BlockHeader { prev: 0, size_and_flags: 0 }
    }

    /// The size of the payload.
    pub fn size(&self) -> (r: u64)
        ensures
            r == self@.size,
            r % 4 == 0,
    {
        proof {
            lemma_flags(self.size_and_flags, 0);
        }
        self.size_and_flags & !FLAG_MASK
    }

    /// Sets the size; the flags stay.
    pub fn set_size(&mut self, size: u64)
        requires
            size % 4 == 0,
        ensures
            final(self)@ == (Block { size: size as int, ..old(self)@ }),
    {
        proof {
            lemma_flags(self.size_and_flags, size);
        }
        let flags = self.size_and_flags & FLAG_MASK;
        self.size_and_flags = flags | size;
    }

    /// The header before this one, or null.
    pub fn prev(&self) -> (r: u64)
        ensures
            r == self@.prev,
    {
        self.prev
    }

    /// Sets the header before this one.
    pub fn set_prev(&mut self, prev: u64)
        ensures
            final(self)@ == (Block { prev: prev as int, ..old(self)@ }),
    {
        self.prev = prev;
    }

    /// Whether the block is in use.
    pub fn used(&self) -> (r: bool)
        ensures
            r == self@.used,
    {
        proof {
            lemma_flags(self.size_and_flags, 0);
        }
        (self.size_and_flags & BL_USED) != 0
    }

    /// Marks the block as in use; the size stays.
    pub fn set_used(&mut self)
        ensures
            final(self)@ == (Block { used: true, ..old(self)@ }),
    {
        proof {
            lemma_flags(self.size_and_flags, 0);
        }
        self.size_and_flags = self.size_and_flags | BL_USED;
    }

    /// Marks the block as free; the size stays.
    pub fn set_unused(&mut self)
        ensures
            final(self)@ == (Block { used: false, ..old(self)@ }),
    {
        proof {
            lemma_flags(self.size_and_flags, 0);
        }
        self.size_and_flags = self.size_and_flags & !BL_USED;
    }
}

/// The header of the block whose payload starts at `ptr`.
pub fn ptr_get_block_header(ptr: u64) -> (h: u64)
    requires
        ptr >= HEADER_SIZE,
    ensures
        h == ptr - HEADER_SIZE,
{
    ptr - HEADER_SIZE
}

/// The block that owns the index node at `node`.
pub fn get_block(node: u64) -> (h: u64)
    requires
        node >= HEADER_SIZE,
    ensures
        h == node - HEADER_SIZE,
{
    node - HEADER_SIZE
}

/// All headers.
pub struct Blocks {
    headers: Table<BlockHeader>,
}

impl View for Blocks {
    type V = Chain;

    closed spec fn view(&self) -> Chain {
        self.headers@.map_values(|h: BlockHeader| h@)
    }
}

impl Blocks {
    /// No headers.
    pub fn new() -> (b: Self)
        ensures
            b@ == Map::<int, Block>::empty(),
    {
        let b = Blocks { headers: Table::new() };
        assert(b@ =~= Map::<int, Block>::empty());
        b
    }

    /// Whether a header stands at `this`.
    pub fn contains(&self, this: u64) -> (r: bool)
        ensures
            r == self@.contains_key(this as int),
    {
        self.headers.contains(this)
    }

    fn header(&self, this: u64) -> (h: BlockHeader)
        requires
            self@.contains_key(this as int),
        ensures
            h@ == self@[this as int],
    {
        self.headers.get(this)
    }

    fn put(&mut self, this: u64, h: BlockHeader)
        ensures
            final(self)@ == old(self)@.insert(this as int, h@),
    {
        self.headers.set(this, h);
        assert(self@ =~= old(self)@.insert(this as int, h@));
    }

    /// Starts a free header of size zero at `this`.
    pub fn install(&mut self, this: u64)
        ensures
            final(self)@ == old(self)@.insert(
                this as int,
                Block { prev: 0, size: 0, used: false },
            ),
    {
        self.put(this, BlockHeader::new());
    }

    /// Drops the header at `this`.
    pub fn discard(&mut self, this: u64)
        ensures
            final(self)@ == old(self)@.remove(this as int),
    {
        self.headers.remove(this);
        assert(self@ =~= old(self)@.remove(this as int));
    }

    /// The size of the payload at `this`.
    pub fn size(&self, this: u64) -> (r: u64)
        requires
            self@.contains_key(this as int),
        ensures
            r == self@[this as int].size,
            r % 4 == 0,
    {
        self.header(this).size()
    }

    /// Sets the size of the payload at `this`.
    pub fn set_size(&mut self, this: u64, size: u64)
        requires
            old(self)@.contains_key(this as int),
            size % 4 == 0,
        ensures
            final(self)@ == with_size(old(self)@, this as int, size as int),
    {
        let mut h = self.header(this);
        h.set_size(size);
        self.put(this, h);
    }

    /// The start of the payload at `this`.
    pub fn mem(&self, this: u64) -> (r: u64)
        requires
            this + HEADER_SIZE <= u64::MAX,
        ensures
            r == this + HEADER_SIZE,
    {
        this + HEADER_SIZE
    }

    /// The header behind the block at `this`.
    pub fn next(&self, this: u64) -> (r: u64)
        requires
            self@.contains_key(this as int),
            next_of(self@, this as int) <= u64::MAX,
        ensures
            r == next_of(self@, this as int),
    {
        let size = self.size(this);
        self.mem(this) + size
    }

    /// Sets the size of the payload at `this` so that it ends at `next`.
    pub fn set_next(&mut self, this: u64, next: u64)
        requires
            old(self)@.contains_key(this as int),
            this + HEADER_SIZE <= next,
            (next - this) % 4 == 0,
        ensures
            final(self)@ == with_size(old(self)@, this as int, next - this - HEADER_SIZE),
    {
        let size = next - self.mem(this);
        self.set_size(this, size);
    }

    /// The header before `this`, or null.
    pub fn prev(&self, this: u64) -> (r: u64)
        requires
            self@.contains_key(this as int),
        ensures
            r == self@[this as int].prev,
    {
        self.header(this).prev()
    }

    /// Sets the header before `this`.
    pub fn set_prev(&mut self, this: u64, prev: u64)
        requires
            old(self)@.contains_key(this as int),
        ensures
            final(self)@ == with_prev(old(self)@, this as int, prev as int),
    {
        let mut h = self.header(this);
        h.set_prev(prev);
        self.put(this, h);
    }

    /// Whether the block at `this` is in use.
    pub fn used(&self, this: u64) -> (r: bool)
        requires
            self@.contains_key(this as int),
        ensures
            r == self@[this as int].used,
    {
        self.header(this).used()
    }

    /// Marks the block at `this` as in use.
    pub fn set_used(&mut self, this: u64)
        requires
            old(self)@.contains_key(this as int),
        ensures
            final(self)@ == with_used(old(self)@, this as int, true),
    {
        let mut h = self.header(this);
        h.set_used();
        self.put(this, h);
    }

    /// Marks the block at `this` as free.
    pub fn set_unused(&mut self, this: u64)
        requires
            old(self)@.contains_key(this as int),
        ensures
            final(self)@ == with_used(old(self)@, this as int, false),
    {
        let mut h = self.header(this);
        h.set_unused();
        self.put(this, h);
    }

    /// Gives the space of the block at `this` to the block before it.
    pub fn unlink(&mut self, this: u64)
        requires
            old(self)@.contains_key(this as int),
            old(self)@.contains_key(old(self)@[this as int].prev),
            old(self)@.contains_key(next_of(old(self)@, this as int)),
            next_of(old(self)@, this as int) <= u64::MAX,
            old(self)@[this as int].prev + HEADER_SIZE <= next_of(old(self)@, this as int),
            (next_of(old(self)@, this as int) - old(self)@[this as int].prev) % 4 == 0,
        ensures
            final(self)@ == unlinked(old(self)@, this as int),
    {
        let next = self.next(this);
        let prev = self.prev(this);
        self.set_prev(next, prev);
        self.set_next(prev, next);
        self.discard(this);
    }

    /// Starts a free block at `this`, inside the block at `link`, which keeps what is
    /// before it.
    pub fn link_after(&mut self, this: u64, link: u64)
        requires
            old(self)@.contains_key(link as int),
            old(self)@.contains_key(next_of(old(self)@, link as int)),
            next_of(old(self)@, link as int) <= u64::MAX,
            link + HEADER_SIZE <= this,
            this + HEADER_SIZE <= next_of(old(self)@, link as int),
            (this - link) % 4 == 0,
            (next_of(old(self)@, link as int) - this) % 4 == 0,
            !old(self)@.contains_key(this as int),
        ensures
            final(self)@ == linked_after(old(self)@, this as int, link as int),
    {
        let ghost b = self@;
        self.install(this);
        self.set_prev(this, link);
        let link_next = self.next(link);
        self.set_next(this, link_next);
        let this_next = self.next(this);
        self.set_prev(this_next, this);
        let this_prev = self.prev(this);
        self.set_next(this_prev, this);
        assert(self@ =~= linked_after(b, this as int, link as int));
    }
}

} // verus!
