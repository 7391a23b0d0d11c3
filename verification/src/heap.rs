//! What holds of the physical chains of blocks, and how each step keeps it.
//!
//! An arena is one stretch of memory that starts with a fence, goes on with blocks
//! that follow each other without gaps, and ends with a fence. Fences are always in
//! use, so nothing is ever merged across them.

use crate::block;
use crate::block::{Block, Chain, HEADER_SIZE};
use crate::os::ADDRESS_LIMIT;
use vstd::prelude::*;

verus! {

/// The smallest payload of a block: what a free block needs for its index node,
/// rounded up to whole headers.
pub const MIN_PAYLOAD: u64 = 48;

/// The smallest arena: two fences and one block.
pub const MIN_ARENA: u64 = 96;

/// The arenas: the length of each, by the address at which it starts.
pub type Arenas = Map<int, int>;

/// Whether the block at `a` is a closing fence.
pub open spec fn closing(b: Chain, a: int) -> bool {
    b[a].size == 0 && b[a].prev != 0
}

/// Whether a block that is not a fence stands at `a`.
pub open spec fn ordinary(b: Chain, a: int) -> bool {
    b.contains_key(a) && b[a].prev != 0 && b[a].size != 0
}

/// The block at `a` agrees with its neighbours.
pub open spec fn block_ok(b: Chain, a: int) -> bool {
    let n = block::next_of(b, a);
    let p = b[a].prev;
    &&& 0 < a
    &&& a % 16 == 0
    &&& b[a].size >= 0
    &&& b[a].size % 16 == 0
    &&& n <= ADDRESS_LIMIT
    &&& p == 0 ==> b[a].used
    &&& closing(b, a) ==> b[a].used
    &&& ordinary(b, a) ==> b[a].size >= MIN_PAYLOAD
    &&& !closing(b, a) ==> b.contains_key(n) && b[n].prev == a
    &&& p != 0 ==> b.contains_key(p) && block::next_of(b, p) == a && !closing(b, p)
}

/// The block at `a`, if it comes first, ends before the block at `c`.
pub open spec fn spaced(b: Chain, a: int, c: int) -> bool {
    a < c ==> block::next_of(b, a) <= c
}

/// Every block agrees with its neighbours, and no two overlap.
pub open spec fn chain_ok(b: Chain) -> bool {
    &&& forall|a: int| b.contains_key(a) ==> #[trigger] block_ok(b, a)
    &&& forall|a: int, c: int| b.contains_key(a) && b.contains_key(c) ==> #[trigger] spaced(b, a, c)
}

/// The arena at `base` is bounded by its two fences. An opening fence takes in what a
/// block leaves behind when it is moved up to be aligned; from an arena that starts at
/// a multiple of 64 that is 32 bytes at most.
pub open spec fn arena_ok(b: Chain, ar: Arenas, base: int) -> bool {
    let end = base + ar[base] - HEADER_SIZE;
    &&& 0 < base
    &&& base % 16 == 0
    &&& ar[base] >= MIN_ARENA
    &&& ar[base] % 16 == 0
    &&& base + ar[base] <= ADDRESS_LIMIT
    &&& b.contains_key(base)
    &&& b[base].prev == 0
    &&& b.contains_key(end)
    &&& closing(b, end)
    &&& base % 64 == 0 ==> b[base].size == 0 || b[base].size == 32
}

/// The block at `a` lies in the arena at `base`, and at its end if it is a closing
/// fence.
pub open spec fn home(b: Chain, ar: Arenas, base: int, a: int) -> bool {
    &&& ar.contains_key(base)
    &&& base <= a
    &&& block::next_of(b, a) <= base + ar[base]
    &&& closing(b, a) ==> a == base + ar[base] - HEADER_SIZE
}

/// Arenas are apart, and every block lies in one.
pub open spec fn arenas_ok(b: Chain, ar: Arenas) -> bool {
    &&& forall|base: int| ar.contains_key(base) ==> #[trigger] arena_ok(b, ar, base)
    &&& forall|a: int| #[trigger] b.contains_key(a) && b[a].prev == 0 ==> ar.contains_key(a)
    &&& forall|x: int, y: int|
        #![trigger ar.contains_key(x), ar.contains_key(y)]
        ar.contains_key(x) && ar.contains_key(y) && x < y ==> x + ar[x] <= y
    &&& forall|a: int| #[trigger] b.contains_key(a) ==> exists|base: int| home(b, ar, base, a)
}

/// The physical state of the heap.
#[verifier::opaque]
pub open spec fn heap_ok(b: Chain, ar: Arenas) -> bool {
    chain_ok(b) && arenas_ok(b, ar)
}

/// A block agrees with its neighbours.
pub proof fn lemma_block(b: Chain, ar: Arenas, a: int)
    requires
        heap_ok(b, ar),
        b.contains_key(a),
    ensures
        block_ok(b, a),
        b[a].prev == 0 ==> ar.contains_key(a) && arena_ok(b, ar, a),
{
    reveal(heap_ok);
}

/// Only the block before `a` ends where `a` starts, unless it closes an arena.
pub proof fn lemma_only_before(b: Chain, ar: Arenas, a: int, c: int)
    requires
        heap_ok(b, ar),
        ordinary(b, a),
        b.contains_key(c),
        block::next_of(b, c) == a,
    ensures
        b[a].prev == c,
{
    reveal(heap_ok);
    assert(block_ok(b, a) && block_ok(b, c));
    let p = b[a].prev;
    assert(block_ok(b, p));
    assert(spaced(b, c, p) && spaced(b, p, c));
}

/// The neighbours of a block that is not a fence.
pub proof fn lemma_neighbours(b: Chain, ar: Arenas, a: int)
    requires
        heap_ok(b, ar),
        ordinary(b, a),
    ensures
        ({
            let n = block::next_of(b, a);
            let p = b[a].prev;
            &&& b.contains_key(n)
            &&& b[n].prev == a
            &&& block_ok(b, n)
            &&& b.contains_key(p)
            &&& block::next_of(b, p) == a
            &&& !closing(b, p)
            &&& block_ok(b, p)
            &&& block_ok(b, a)
            &&& 0 < p < a < n
            &&& n + HEADER_SIZE <= ADDRESS_LIMIT
            &&& n != p
            &&& !b[n].used ==> ordinary(b, n)
            &&& !b[p].used ==> ordinary(b, p)
        }),
{
    reveal(heap_ok);
    let n = block::next_of(b, a);
    let p = b[a].prev;
    assert(block_ok(b, a));
    assert(block_ok(b, n));
    assert(block_ok(b, p));
}

/// A free block is not a fence.
pub proof fn lemma_free_is_real(b: Chain, ar: Arenas, a: int)
    requires
        heap_ok(b, ar),
        b.contains_key(a),
        !b[a].used,
    ensures
        ordinary(b, a),
        block_ok(b, a),
{
    reveal(heap_ok);
    assert(block_ok(b, a));
}

/// The chain after the block at `a` was cut to `size` bytes.
pub open spec fn split(b: Chain, a: int, size: int) -> Chain {
    block::linked_after(b, a + HEADER_SIZE + size, a)
}

/// The chain after the block at `a` was moved up by `offs` bytes.
pub open spec fn shifted(b: Chain, a: int, offs: int) -> Chain {
    block::linked_after(block::unlinked(b, a), a + offs, b[a].prev)
}

/// What a chain is after the block at `a` was cut to `size` bytes.
spec fn is_split(b: Chain, a: int, size: int, b1: Chain) -> bool {
    let rest = a + HEADER_SIZE + size;
    let n = block::next_of(b, a);
    &&& !b.contains_key(rest)
    &&& rest < n
    &&& b1 == b.insert(a, Block { size, ..b[a] }).insert(
        rest,
        Block { prev: a, size: b[a].size - size - HEADER_SIZE, used: false },
    ).insert(n, Block { prev: rest, ..b[n] })
}

proof fn lemma_split_shape(b: Chain, ar: Arenas, a: int, size: int)
    requires
        heap_ok(b, ar),
        ordinary(b, a),
        size % 16 == 0,
        size >= MIN_PAYLOAD,
        b[a].size >= size + HEADER_SIZE + MIN_PAYLOAD,
    ensures
        is_split(b, a, size, split(b, a, size)),
{
    reveal(heap_ok);
    let rest = a + HEADER_SIZE + size;
    let n = block::next_of(b, a);
    lemma_neighbours(b, ar, a);
    if b.contains_key(rest) {
        assert(spaced(b, a, rest));
    }
    assert(split(b, a, size) =~= b.insert(a, Block { size, ..b[a] }).insert(
        rest,
        Block { prev: a, size: b[a].size - size - HEADER_SIZE, used: false },
    ).insert(n, Block { prev: rest, ..b[n] }));
}

proof fn lemma_split_block(b: Chain, ar: Arenas, a: int, size: int, b1: Chain, c: int)
    requires
        heap_ok(b, ar),
        ordinary(b, a),
        size % 16 == 0,
        size >= MIN_PAYLOAD,
        b[a].size >= size + HEADER_SIZE + MIN_PAYLOAD,
        is_split(b, a, size, b1),
        b1.contains_key(c),
    ensures
        block_ok(b1, c),
{
    let rest = a + HEADER_SIZE + size;
    let n = block::next_of(b, a);
    lemma_neighbours(b, ar, a);
    if c != rest {
        assert(b.contains_key(c));
        reveal(heap_ok);
        assert(block_ok(b, c));
        let cn = block::next_of(b, c);
        let cp = b[c].prev;
        if c != a && c != n {
            assert(cp != a);
            assert(cn != n) by {
                if cn == n {
                    if c < a {
                        assert(spaced(b, c, a));
                    } else {
                        assert(spaced(b, a, c));
                    }
                }
            }
        }
    }
}

proof fn lemma_split_spaced(b: Chain, ar: Arenas, a: int, size: int, b1: Chain, x: int, y: int)
    requires
        heap_ok(b, ar),
        ordinary(b, a),
        size % 16 == 0,
        size >= MIN_PAYLOAD,
        b[a].size >= size + HEADER_SIZE + MIN_PAYLOAD,
        is_split(b, a, size, b1),
        b1.contains_key(x),
        b1.contains_key(y),
    ensures
        spaced(b1, x, y),
{
    let rest = a + HEADER_SIZE + size;
    lemma_neighbours(b, ar, a);
    reveal(heap_ok);
    assert(b.contains_key(x) && b.contains_key(y) ==> spaced(b, x, y));
    assert(x != rest ==> b.contains_key(x));
    assert(y != rest ==> b.contains_key(y));
    assert(y != rest ==> spaced(b, a, y));
    assert(x != rest ==> spaced(b, x, a) && spaced(b, a, x));
    assert(x != rest ==> block_ok(b, x));
}

/// Cutting a block in two keeps the heap in order.
pub proof fn lemma_split(b: Chain, ar: Arenas, a: int, size: int)
    requires
        heap_ok(b, ar),
        ordinary(b, a),
        size % 16 == 0,
        size >= MIN_PAYLOAD,
        b[a].size >= size + HEADER_SIZE + MIN_PAYLOAD,
    ensures
        heap_ok(split(b, a, size), ar),
        !b.contains_key(a + HEADER_SIZE + size),
        ({
            let rest = a + HEADER_SIZE + size;
            let b1 = split(b, a, size);
            let n = block::next_of(b, a);
            &&& rest < n
            &&& b1 =~= b.insert(a, Block { size, ..b[a] }).insert(
                rest,
                Block { prev: a, size: b[a].size - size - HEADER_SIZE, used: false },
            ).insert(n, Block { prev: rest, ..b[n] })
            &&& ordinary(b1, a)
            &&& ordinary(b1, rest)
        }),
{
    let rest = a + HEADER_SIZE + size;
    let b1 = split(b, a, size);
    lemma_split_shape(b, ar, a, size);
    lemma_neighbours(b, ar, a);
    assert forall|c: int| b1.contains_key(c) implies #[trigger] block_ok(b1, c) by {
        lemma_split_block(b, ar, a, size, b1, c);
    }
    assert forall|x: int, y: int| b1.contains_key(x) && b1.contains_key(y) implies #[trigger] spaced(
        b1,
        x,
        y,
    ) by {
        lemma_split_spaced(b, ar, a, size, b1, x, y);
    }
    reveal(heap_ok);
    assert forall|base: int| ar.contains_key(base) implies #[trigger] arena_ok(b1, ar, base) by {
        assert(arena_ok(b, ar, base));
    }
    assert forall|c: int| #[trigger] b1.contains_key(c) implies exists|base: int| home(b1, ar, base, c) by {
        let c0 = if c == rest { a } else { c };
        assert(b.contains_key(c0));
        let base = choose|base: int| home(b, ar, base, c0);
        assert(home(b1, ar, base, c));
    }
    assert forall|c: int| #[trigger] b1.contains_key(c) && b1[c].prev == 0 implies ar.contains_key(c) by {
        assert(b.contains_key(c));
    }
}

/// Giving a block to the block before it, where that is no fence, keeps the heap in
/// order.
pub proof fn lemma_unlinked(b: Chain, ar: Arenas, a: int)
    requires
        heap_ok(b, ar),
        ordinary(b, a),
        ordinary(b, b[a].prev),
    ensures
        heap_ok(block::unlinked(b, a), ar),
        ({
            let n = block::next_of(b, a);
            let p = b[a].prev;
            let b1 = block::unlinked(b, a);
            &&& b1 =~= b.insert(n, Block { prev: p, ..b[n] }).insert(
                p,
                Block { size: b[p].size + HEADER_SIZE + b[a].size, ..b[p] },
            ).remove(a)
            &&& ordinary(b1, p)
            &&& block::next_of(b1, p) == n
        }),
{
    reveal(heap_ok);
    let n = block::next_of(b, a);
    let p = b[a].prev;
    let b1 = block::unlinked(b, a);
    lemma_neighbours(b, ar, a);
    lemma_neighbours(b, ar, p);
    assert(b1 =~= b.insert(n, Block { prev: p, ..b[n] }).insert(
        p,
        Block { size: b[p].size + HEADER_SIZE + b[a].size, ..b[p] },
    ).remove(a));
    assert forall|c: int| b1.contains_key(c) implies #[trigger] block_ok(b1, c) by {
        assert(b.contains_key(c));
        assert(block_ok(b, c));
        let cn = block::next_of(b, c);
        let cp = b[c].prev;
        if c != p && c != n {
            assert(cp != a);
            assert(cn != a) by {
                if cn == a {
                    if c < p {
                        assert(spaced(b, c, p));
                    } else {
                        assert(spaced(b, p, c));
                    }
                }
            }
            assert(cn != n) by {
                if cn == n {
                    if c < a {
                        assert(spaced(b, c, a));
                    } else {
                        assert(spaced(b, a, c));
                    }
                }
            }
        }
    }
    assert forall|x: int, y: int| b1.contains_key(x) && b1.contains_key(y) implies #[trigger] spaced(
        b1,
        x,
        y,
    ) by {
        assert(b.contains_key(x) && b.contains_key(y) ==> spaced(b, x, y));
        assert(spaced(b, a, y) && spaced(b, x, a) && spaced(b, n, y));
    }
    assert forall|base: int| ar.contains_key(base) implies #[trigger] arena_ok(b1, ar, base) by {
        assert(arena_ok(b, ar, base));
    }
    assert forall|c: int| #[trigger] b1.contains_key(c) implies exists|base: int| home(b1, ar, base, c) by {
        assert(b.contains_key(c));
        let base = choose|base: int| home(b, ar, base, c);
        if c == p {
            assert(b.contains_key(a));
            let base2 = choose|base: int| home(b, ar, base, a);
            assert(ar.contains_key(base) && ar.contains_key(base2));
            assert(arena_ok(b, ar, base2));
            assert(base == base2);
        }
        assert(home(b1, ar, base, c));
    }
    assert forall|c: int| #[trigger] b1.contains_key(c) && b1[c].prev == 0 implies ar.contains_key(c) by {
        assert(b.contains_key(c));
    }
}

/// Marking a block that is no fence keeps the heap in order.
pub proof fn lemma_marked(b: Chain, ar: Arenas, a: int, used: bool)
    requires
        heap_ok(b, ar),
        ordinary(b, a),
    ensures
        heap_ok(block::with_used(b, a, used), ar),
        ordinary(block::with_used(b, a, used), a),
{
    reveal(heap_ok);
    let b1 = block::with_used(b, a, used);
    assert forall|c: int| b1.contains_key(c) implies #[trigger] block_ok(b1, c) by {
        assert(b.contains_key(c));
        assert(block_ok(b, c));
    }
    assert forall|x: int, y: int| b1.contains_key(x) && b1.contains_key(y) implies #[trigger] spaced(
        b1,
        x,
        y,
    ) by {
        assert(b.contains_key(x) && b.contains_key(y) ==> spaced(b, x, y));
        assert(b.contains_key(x) && b.contains_key(y));
    }
    assert forall|base: int| ar.contains_key(base) implies #[trigger] arena_ok(b1, ar, base) by {
        assert(arena_ok(b, ar, base));
    }
    assert forall|c: int| #[trigger] b1.contains_key(c) implies exists|base: int| home(b1, ar, base, c) by {
        assert(b.contains_key(c));
        let base = choose|base: int| home(b, ar, base, c);
        assert(home(b1, ar, base, c));
    }
    assert forall|c: int| #[trigger] b1.contains_key(c) && b1[c].prev == 0 implies ar.contains_key(c) by {
        assert(b.contains_key(c));
    }
}

/// What a chain is after the block at `a` was moved up by `offs` bytes.
spec fn is_shifted(b: Chain, a: int, offs: int, b1: Chain) -> bool {
    let n = block::next_of(b, a);
    let p = b[a].prev;
    let x = a + offs;
    &&& !b.contains_key(x)
    &&& b1 == b.remove(a).insert(x, Block { prev: p, size: b[a].size - offs, used: false }).insert(
        n,
        Block { prev: x, ..b[n] },
    ).insert(p, Block { size: b[p].size + offs, ..b[p] })
}

proof fn lemma_shifted_shape(b: Chain, ar: Arenas, a: int, offs: int)
    requires
        heap_ok(b, ar),
        ordinary(b, a),
        offs % 16 == 0,
        offs > 0,
        b[a].size >= offs + MIN_PAYLOAD,
    ensures
        is_shifted(b, a, offs, shifted(b, a, offs)),
{
    reveal(heap_ok);
    let n = block::next_of(b, a);
    let p = b[a].prev;
    let x = a + offs;
    lemma_neighbours(b, ar, a);
    if b.contains_key(x) {
        assert(spaced(b, a, x));
    }
    assert(shifted(b, a, offs) =~= b.remove(a).insert(
        x,
        Block { prev: p, size: b[a].size - offs, used: false },
    ).insert(n, Block { prev: x, ..b[n] }).insert(p, Block { size: b[p].size + offs, ..b[p] }));
}

proof fn lemma_shifted_block(b: Chain, ar: Arenas, a: int, offs: int, b1: Chain, c: int)
    requires
        heap_ok(b, ar),
        ordinary(b, a),
        offs % 16 == 0,
        offs > 0,
        b[a].size >= offs + MIN_PAYLOAD,
        is_shifted(b, a, offs, b1),
        b1.contains_key(c),
    ensures
        block_ok(b1, c),
{
    let n = block::next_of(b, a);
    let p = b[a].prev;
    let x = a + offs;
    lemma_neighbours(b, ar, a);
    if c != x {
        assert(b.contains_key(c));
        reveal(heap_ok);
        assert(block_ok(b, c));
        let cn = block::next_of(b, c);
        let cp = b[c].prev;
        if c != p && c != n {
            assert(cp != a);
            assert(cn != a) by {
                if cn == a {
                    if c < p {
                        assert(spaced(b, c, p));
                    } else {
                        assert(spaced(b, p, c));
                    }
                }
            }
            assert(cn != n) by {
                if cn == n {
                    if c < a {
                        assert(spaced(b, c, a));
                    } else {
                        assert(spaced(b, a, c));
                    }
                }
            }
        }
    }
}

proof fn lemma_shifted_spaced(b: Chain, ar: Arenas, a: int, offs: int, b1: Chain, y: int, z: int)
    requires
        heap_ok(b, ar),
        ordinary(b, a),
        offs % 16 == 0,
        offs > 0,
        b[a].size >= offs + MIN_PAYLOAD,
        is_shifted(b, a, offs, b1),
        b1.contains_key(y),
        b1.contains_key(z),
    ensures
        spaced(b1, y, z),
{
    let p = b[a].prev;
    let x = a + offs;
    lemma_neighbours(b, ar, a);
    reveal(heap_ok);
    assert(b.contains_key(y) && b.contains_key(z) ==> spaced(b, y, z));
    assert(y != x ==> b.contains_key(y));
    assert(z != x ==> b.contains_key(z));
    assert(z != x ==> spaced(b, a, z) && spaced(b, p, z));
    assert(y != x ==> spaced(b, y, a) && spaced(b, y, p) && spaced(b, a, y) && spaced(b, p, y));
    assert(y != x ==> block_ok(b, y));
}

/// Moving a block up by less than a whole block keeps the heap in order; what it
/// leaves behind goes to the block before it.
pub proof fn lemma_shifted(b: Chain, ar: Arenas, a: int, offs: int)
    requires
        heap_ok(b, ar),
        ordinary(b, a),
        offs % 16 == 0,
        offs > 0,
        b[a].size >= offs + MIN_PAYLOAD,
        b[b[a].prev].prev == 0 && b[a].prev % 64 == 0 ==> b[b[a].prev].size + offs == 32,
    ensures
        heap_ok(shifted(b, a, offs), ar),
        ({
            let n = block::next_of(b, a);
            let p = b[a].prev;
            let x = a + offs;
            let b1 = shifted(b, a, offs);
            &&& !b.contains_key(x)
            &&& b1 =~= b.remove(a).insert(
                x,
                Block { prev: p, size: b[a].size - offs, used: false },
            ).insert(n, Block { prev: x, ..b[n] }).insert(
                p,
                Block { size: b[p].size + offs, ..b[p] },
            )
            &&& ordinary(b1, x)
        }),
{
    let p = b[a].prev;
    let x = a + offs;
    let b1 = shifted(b, a, offs);
    lemma_shifted_shape(b, ar, a, offs);
    lemma_neighbours(b, ar, a);
    assert forall|c: int| b1.contains_key(c) implies #[trigger] block_ok(b1, c) by {
        lemma_shifted_block(b, ar, a, offs, b1, c);
    }
    assert forall|y: int, z: int| b1.contains_key(y) && b1.contains_key(z) implies #[trigger] spaced(
        b1,
        y,
        z,
    ) by {
        lemma_shifted_spaced(b, ar, a, offs, b1, y, z);
    }
    reveal(heap_ok);
    assert forall|base: int| ar.contains_key(base) implies #[trigger] arena_ok(b1, ar, base) by {
        assert(arena_ok(b, ar, base));
    }
    assert forall|c: int| #[trigger] b1.contains_key(c) implies exists|base: int| home(b1, ar, base, c) by {
        let c0 = if c == x { a } else { c };
        assert(b.contains_key(c0));
        let base = choose|base: int| home(b, ar, base, c0);
        if c == p {
            assert(b.contains_key(a));
            let base2 = choose|base: int| home(b, ar, base, a);
            assert(ar.contains_key(base) && ar.contains_key(base2));
            assert(arena_ok(b, ar, base2));
            assert(base == base2);
        }
        assert(home(b1, ar, base, c));
    }
    assert forall|c: int| #[trigger] b1.contains_key(c) && b1[c].prev == 0 implies ar.contains_key(c) by {
        assert(b.contains_key(c));
    }
}

/// The chain with a fresh arena of one free block.
pub open spec fn with_arena(b: Chain, base: int, len: int) -> Chain {
    let front = base + HEADER_SIZE;
    let end = base + len - HEADER_SIZE;
    b.insert(base, Block { prev: 0, size: 0, used: true }).insert(
        front,
        Block { prev: base, size: len - 3 * HEADER_SIZE, used: false },
    ).insert(end, Block { prev: front, size: 0, used: true })
}

/// Whether `[base, base + len)` has no byte in common with any block.
pub open spec fn fresh(b: Chain, ar: Arenas, base: int, len: int) -> bool {
    forall|x: int| #[trigger] ar.contains_key(x) ==> x + ar[x] <= base || base + len <= x
}

/// A fresh arena keeps the heap in order.
pub proof fn lemma_with_arena(b: Chain, ar: Arenas, base: int, len: int)
    requires
        heap_ok(b, ar),
        0 < base,
        base % 16 == 0,
        len % 16 == 0,
        len >= MIN_ARENA,
        base + len <= ADDRESS_LIMIT,
        fresh(b, ar, base, len),
    ensures
        heap_ok(with_arena(b, base, len), ar.insert(base, len)),
        ordinary(with_arena(b, base, len), base + HEADER_SIZE),
        !ar.contains_key(base),
        forall|a: int| #[trigger] b.contains_key(a) ==> block::next_of(b, a) <= base || base + len <= a,
{
    reveal(heap_ok);
    let front = base + HEADER_SIZE;
    let end = base + len - HEADER_SIZE;
    let b1 = with_arena(b, base, len);
    let ar1 = ar.insert(base, len);
    assert forall|a: int| #[trigger] b.contains_key(a) implies block::next_of(b, a) <= base || base
        + len <= a by {
        let h = choose|h: int| home(b, ar, h, a);
        assert(ar.contains_key(h));
    }
    assert(!b.contains_key(base) && !b.contains_key(front) && !b.contains_key(end)) by {
        assert(b.contains_key(base) ==> block_ok(b, base));
        assert(b.contains_key(front) ==> block_ok(b, front));
        assert(b.contains_key(end) ==> block_ok(b, end));
    }
    if ar.contains_key(base) {
        assert(arena_ok(b, ar, base));
    }
    assert forall|c: int| b1.contains_key(c) implies #[trigger] block_ok(b1, c) by {
        if c != base && c != front && c != end {
            assert(b.contains_key(c));
            assert(block_ok(b, c));
            let n = block::next_of(b, c);
            let p = b[c].prev;
            assert(!closing(b, c) ==> n != base && n != front && n != end);
            assert(p != 0 ==> p != base && p != front && p != end);
        }
    }
    assert forall|y: int, z: int| b1.contains_key(y) && b1.contains_key(z) implies #[trigger] spaced(
        b1,
        y,
        z,
    ) by {
        assert(b.contains_key(y) && b.contains_key(z) ==> spaced(b, y, z));
        assert(y == base || y == front || y == end || b.contains_key(y));
        assert(z == base || z == front || z == end || b.contains_key(z));
        assert(b.contains_key(y) ==> block_ok(b, y));
        assert(b.contains_key(z) ==> block_ok(b, z));
    }
    assert forall|x: int| ar1.contains_key(x) implies #[trigger] arena_ok(b1, ar1, x) by {
        if x != base {
            assert(arena_ok(b, ar, x));
        }
    }
    assert forall|c: int| #[trigger] b1.contains_key(c) implies exists|x: int| home(b1, ar1, x, c) by {
        if c == base || c == front || c == end {
            assert(home(b1, ar1, base, c));
        } else {
            assert(b.contains_key(c));
            let x = choose|x: int| home(b, ar, x, c);
            assert(home(b1, ar1, x, c));
        }
    }
    assert forall|x: int, y: int|
        #![trigger ar1.contains_key(x), ar1.contains_key(y)]
        ar1.contains_key(x) && ar1.contains_key(y) && x < y implies x + ar1[x] <= y by {
        assert(x != base ==> ar.contains_key(x) && arena_ok(b, ar, x));
        assert(y != base ==> ar.contains_key(y) && arena_ok(b, ar, y));
    }
    assert forall|c: int| #[trigger] b1.contains_key(c) && b1[c].prev == 0 implies ar1.contains_key(c) by {
        if c != base && c != front && c != end {
            assert(b.contains_key(c));
        }
    }
}

/// Whether the block at `a` is all that its arena holds.
pub open spec fn sole(b: Chain, a: int) -> bool {
    b[b[a].prev].prev == 0 && b[block::next_of(b, a)].size == 0
}

/// The chain without the arena that the block at `a` fills.
pub open spec fn without_arena(b: Chain, a: int) -> Chain {
    b.remove(a).remove(b[a].prev).remove(block::next_of(b, a))
}

/// An arena with a sole block is exactly its two fences and that block, and the heap
/// stays in order without it.
pub proof fn lemma_without_arena(b: Chain, ar: Arenas, a: int)
    requires
        heap_ok(b, ar),
        ordinary(b, a),
        sole(b, a),
    ensures
        ({
            let base = b[a].prev;
            let n = block::next_of(b, a);
            &&& ar.contains_key(base)
            &&& ar[base] == n + HEADER_SIZE - base
            &&& heap_ok(without_arena(b, a), ar.remove(base))
            &&& base % 64 == 0 ==> ar[base] - 3 * HEADER_SIZE - 32 <= b[a].size
            &&& forall|c: int| #[trigger] b.contains_key(c) ==> c == a || c == base || c == n
                || block::next_of(b, c) <= base || base + ar[base] <= c
        }),
{
    reveal(heap_ok);
    let base = b[a].prev;
    let n = block::next_of(b, a);
    let b1 = without_arena(b, a);
    let ar1 = ar.remove(base);
    lemma_neighbours(b, ar, a);
    assert(arena_ok(b, ar, base));
    let end = base + ar[base] - HEADER_SIZE;
    assert(closing(b, n));
    let x = choose|x: int| home(b, ar, x, n);
    assert(ar.contains_key(x) && ar.contains_key(base));
    assert(arena_ok(b, ar, x));
    assert(n == x + ar[x] - HEADER_SIZE);
    assert(b.contains_key(x));
    assert(x == base) by {
        if x < base {
            assert(x + ar[x] <= base);
        }
        if base < x {
            assert(base + ar[base] <= x);
            assert(x < n);
            if x < a {
                assert(spaced(b, base, x));
            } else if x > a {
                assert(spaced(b, a, x));
            }
        }
    }
    assert forall|c: int| #[trigger] b.contains_key(c) implies c == a || c == base || c == n
        || block::next_of(b, c) <= base || base + ar[base] <= c by {
        if c < base {
            assert(spaced(b, c, base));
        } else if c > n {
            assert(spaced(b, n, c));
        } else if c != a && c != base && c != n {
            if c < a {
                assert(spaced(b, base, c));
            } else {
                assert(spaced(b, a, c));
            }
        }
    }
    assert forall|c: int| b1.contains_key(c) implies #[trigger] block_ok(b1, c) by {
        assert(b.contains_key(c));
        assert(block_ok(b, c));
        let cn = block::next_of(b, c);
        let cp = b[c].prev;
        assert(!closing(b, c) ==> cn != base && cn != a && cn != n);
        assert(cp != 0 ==> cp != base && cp != a && cp != n) by {
            if cp != 0 {
                assert(block_ok(b, cp));
            }
        }
    }
    assert forall|y: int, z: int| b1.contains_key(y) && b1.contains_key(z) implies #[trigger] spaced(
        b1,
        y,
        z,
    ) by {
        assert(b.contains_key(y) && b.contains_key(z) ==> spaced(b, y, z));
        assert(b.contains_key(y) && b.contains_key(z));
    }
    assert forall|y: int| ar1.contains_key(y) implies #[trigger] arena_ok(b1, ar1, y) by {
        assert(ar.contains_key(y));
        assert(arena_ok(b, ar, y));
        let e = y + ar[y] - HEADER_SIZE;
        assert(y != a && y != n);
        assert(e != base && e != a && e != n);
    }
    assert forall|c: int| #[trigger] b1.contains_key(c) implies exists|y: int| home(b1, ar1, y, c) by {
        assert(b.contains_key(c));
        let y = choose|y: int| home(b, ar, y, c);
        assert(ar.contains_key(y));
        assert(arena_ok(b, ar, y));
        assert(block_ok(b, c));
        assert(y != base);
        assert(home(b1, ar1, y, c));
    }
    assert forall|c: int| #[trigger] b1.contains_key(c) && b1[c].prev == 0 implies ar1.contains_key(c) by {
        assert(b.contains_key(c));
    }
}

/// Starting a block inside another and giving it back changes nothing.
pub proof fn law_link_unlink(b: Chain, x: int, p: int)
    requires
        b.contains_key(p),
        b.contains_key(block::next_of(b, p)),
        b[block::next_of(b, p)].prev == p,
        !b.contains_key(x),
        block::next_of(b, p) != p,
    ensures
        block::unlinked(block::linked_after(b, x, p), x) =~= b,
{
}

} // verus!
