//! Each step on the large-block heap keeps it in order.

use crate::align;
use crate::block;
use crate::block::HEADER_SIZE;
use crate::heap;
use crate::heap::MIN_PAYLOAD;
use crate::os;
use crate::os::{Mapping, OsView, ADDRESS_LIMIT};
use crate::page::MAX_SMALL_ALLOCATION;
use crate::tree_model;
use crate::tree_model::{TreeView, SPLIT_REMAINDER_MIN};
use vstd::arithmetic::{div_mod, power2};
use vstd::prelude::*;

verus! {

/// Taking a block out of its index leaves the others where they are.
pub proof fn lemma_detached(v: TreeView, a: int)
    requires
        v.sound(),
        v.indexed(a),
    ensures
        v.detached(a).sound(),
        v.detached(a).blocks == v.blocks,
        v.detached(a).arenas == v.arenas,
        v.detached(a).mapped == v.mapped,
        forall|c: int| #[trigger] v.detached(a).indexed(c) <==> v.indexed(c) && c != a,
{
    let w = v.detached(a);
    let m = a + HEADER_SIZE;
    assert(tree_model::index_ok(w.index)) by {
        if v.mr != Some(a) && v.blocks[a].size > MAX_SMALL_ALLOCATION {
            if v.small.contains(m) {
                assert(v.blocks[m - HEADER_SIZE].size <= MAX_SMALL_ALLOCATION);
            }
            reveal(tree_model::index_ok);
            v.index.lemma_erased_ok(m);
        }
    }
    if v.mr != Some(a) && v.blocks[a].size <= MAX_SMALL_ALLOCATION {
        assert(v.small.contains(m)) by {
            if v.index.keys.contains_key(m) {
                assert(v.blocks[m - HEADER_SIZE].size > MAX_SMALL_ALLOCATION);
            }
        }
        let i = v.small.index_of(m);
        let rest = v.small.remove(i);
        assert forall|x: int| #[trigger] rest.contains(x) <==> v.small.contains(x) && x != m by {
            if rest.contains(x) {
                let j = rest.index_of(x);
                let j0 = if j < i { j } else { j + 1 };
                assert(v.small[j0] == x);
            }
            if v.small.contains(x) && x != m {
                let j = v.small.index_of(x);
                let j0 = if j < i { j } else { j - 1 };
                assert(rest[j0] == x);
            }
        }
        assert(rest.no_duplicates()) by {
            assert forall|j: int, k: int| 0 <= j < rest.len() && 0 <= k < rest.len() && j != k implies rest[j]
                != rest[k] by {
                let j0 = if j < i { j } else { j + 1 };
                let k0 = if k < i { k } else { k + 1 };
                assert(rest[j] == v.small[j0] && rest[k] == v.small[k0]);
            }
        }
        assert forall|c: int| #[trigger] w.indexed(c) <==> v.indexed(c) && c != a by {
            if c == a && v.index.keys.contains_key(m) {
                assert(v.blocks[m - HEADER_SIZE].size > MAX_SMALL_ALLOCATION);
            }
            assert(rest.contains(c + HEADER_SIZE) <==> v.small.contains(c + HEADER_SIZE) && c
                + HEADER_SIZE != m);
        }
    } else if v.mr != Some(a) {
        assert(!v.small.contains(m)) by {
            if v.small.contains(m) {
                assert(v.blocks[m - HEADER_SIZE].size <= MAX_SMALL_ALLOCATION);
            }
        }
        assert forall|c: int| #[trigger] w.indexed(c) <==> v.indexed(c) && c != a by {}
    } else {
        assert forall|c: int| #[trigger] w.indexed(c) <==> v.indexed(c) && c != a by {}
    }
}

/// A free block that becomes the most recently freed one is indexed, and the others
/// stay so.
pub proof fn lemma_attached(v: TreeView, x: Option<int>)
    requires
        heap::heap_ok(v.blocks, v.arenas),
        v.sound(),
        x matches Some(a) ==> v.blocks.contains_key(a) && !v.blocks[a].used && !v.indexed(a),
    ensures
        v.attached(x).sound(),
        v.attached(x).blocks == v.blocks,
        v.attached(x).arenas == v.arenas,
        v.attached(x).mapped == v.mapped,
        forall|c: int| #[trigger] v.attached(x).indexed(c) <==> v.indexed(c) || x == Some(c),
{
    let w = v.attached(x);
    if let Some(m) = v.mr {
        let n = m + HEADER_SIZE;
        if v.blocks[m].size > MAX_SMALL_ALLOCATION {
            assert(tree_model::index_ok(w.index)) by {
                reveal(tree_model::index_ok);
                heap::lemma_free_is_real(v.blocks, v.arenas, m);
                v.index.lemma_inserted_ok(n, v.blocks[m].size);
            }
            assert forall|y: int| #[trigger] w.index.keys.contains_key(y) implies w.blocks.contains_key(
                y - HEADER_SIZE,
            ) && !w.blocks[y - HEADER_SIZE].used && w.index.keys[y] == w.blocks[y - HEADER_SIZE].size
                && w.blocks[y - HEADER_SIZE].size > MAX_SMALL_ALLOCATION by {
                assert(y == n || v.index.keys.contains_key(y));
            }
            assert forall|c: int| #[trigger] w.indexed(c) <==> v.indexed(c) || x == Some(c) by {}
        } else {
            let t = v.small.push(n);
            assert forall|y: int| #[trigger] t.contains(y) <==> v.small.contains(y) || y == n by {
                if v.small.contains(y) {
                    assert(t[v.small.index_of(y)] == y);
                }
                assert(t[t.len() - 1] == n);
            }
            assert(t.no_duplicates());
            assert forall|c: int| #[trigger] w.indexed(c) <==> v.indexed(c) || x == Some(c) by {
                assert(t.contains(c + HEADER_SIZE) <==> v.small.contains(c + HEADER_SIZE) || c
                    + HEADER_SIZE == n);
            }
        }
    } else {
        assert forall|c: int| #[trigger] w.indexed(c) <==> v.indexed(c) || x == Some(c) by {}
    }
}

/// A block that is on its way comes to rest as the most recently freed one.
pub proof fn lemma_attach_ok(v: TreeView, x: int)
    requires
        v.ok_but(x),
    ensures
        v.attached(Some(x)).ok(),
{
    reveal(TreeView::ok);
    reveal(TreeView::ok_but);
    let w = v.attached(Some(x));
    lemma_attached(v, Some(x));
    assert forall|a: int| #[trigger] w.blocks.contains_key(a) && !w.blocks[a].used implies (w.indexed(a)
        <==> None::<int> != Some(a)) by {
        assert(v.blocks.contains_key(a));
        assert(w.indexed(a) <==> v.indexed(a) || a == x);
    }
    assert forall|a: int| w.blocks.contains_key(a) implies #[trigger] w.quiet(a) by {
        assert(v.quiet(a));
    }
}

/// A change of blocks that are not indexed leaves the index sound.
pub proof fn lemma_sound_blocks(v: TreeView, w: TreeView)
    requires
        v.sound(),
        w.index == v.index,
        w.small == v.small,
        w.mr == v.mr,
        forall|a: int| #[trigger]
            v.indexed(a) ==> w.blocks.contains_key(a) && !w.blocks[a].used && w.blocks[a].size
                == v.blocks[a].size,
    ensures
        w.sound(),
        forall|a: int| #[trigger] w.indexed(a) <==> v.indexed(a),
{
    assert forall|m: int| #[trigger] w.index.keys.contains_key(m) implies w.blocks.contains_key(
        m - HEADER_SIZE,
    ) && !w.blocks[m - HEADER_SIZE].used && w.index.keys[m] == w.blocks[m - HEADER_SIZE].size
        && w.blocks[m - HEADER_SIZE].size > MAX_SMALL_ALLOCATION by {
        assert(v.indexed(m - HEADER_SIZE));
    }
    assert forall|m: int| #[trigger] w.small.contains(m) implies w.blocks.contains_key(
        m - HEADER_SIZE,
    ) && !w.blocks[m - HEADER_SIZE].used && w.blocks[m - HEADER_SIZE].size
        <= MAX_SMALL_ALLOCATION by {
        assert(v.indexed(m - HEADER_SIZE));
    }
    if let Some(a) = v.mr {
        assert(v.indexed(a));
    }
}

/// A free block that is not on its way is indexed, and only a free block is.
pub proof fn lemma_indexed_is_free(v: TreeView, a: int)
    requires
        v.sound(),
        v.indexed(a),
    ensures
        v.blocks.contains_key(a),
        !v.blocks[a].used,
{
    if v.index.keys.contains_key(a + HEADER_SIZE) {
    } else if v.small.contains(a + HEADER_SIZE) {
    }
}

/// The neighbours of a block that is not a fence.
pub proof fn lemma_around(v: TreeView, a: int)
    requires
        v.ok(),
        heap::ordinary(v.blocks, a),
    ensures
        ({
            let n = block::next_of(v.blocks, a);
            let p = v.blocks[a].prev;
            &&& v.blocks.contains_key(n)
            &&& v.blocks[n].prev == a
            &&& v.blocks.contains_key(p)
            &&& block::next_of(v.blocks, p) == a
            &&& 0 < p < a < n
            &&& n + HEADER_SIZE <= ADDRESS_LIMIT
            &&& a % 16 == 0
            &&& p % 16 == 0
            &&& v.blocks[n].size >= 0
            &&& v.blocks[p].size >= 0
            &&& v.blocks[a].size >= MIN_PAYLOAD
            &&& block::next_of(v.blocks, n) <= ADDRESS_LIMIT
            &&& !v.blocks[n].used ==> heap::ordinary(v.blocks, n)
            &&& !v.blocks[p].used ==> heap::ordinary(v.blocks, p)
        }),
{
    reveal(TreeView::ok);
    heap::lemma_neighbours(v.blocks, v.arenas, a);
}

/// Cutting a block that is not indexed leaves the index sound.
pub proof fn lemma_split(v: TreeView, a: int, size: int)
    requires
        heap::heap_ok(v.blocks, v.arenas),
        v.sound(),
        heap::ordinary(v.blocks, a),
        !v.indexed(a),
        size % 16 == 0,
        size >= MIN_PAYLOAD,
        v.blocks[a].size >= size + SPLIT_REMAINDER_MIN,
    ensures
        ({
            let rest = a + HEADER_SIZE + size;
            let w = v.with_blocks(heap::split(v.blocks, a, size));
            &&& heap::heap_ok(w.blocks, w.arenas)
            &&& w.sound()
            &&& !v.blocks.contains_key(rest)
            &&& rest < block::next_of(v.blocks, a)
            &&& heap::ordinary(w.blocks, rest)
            &&& !w.indexed(rest)
        }),
{
    let rest = a + HEADER_SIZE + size;
    let w = v.with_blocks(heap::split(v.blocks, a, size));
    heap::lemma_neighbours(v.blocks, v.arenas, a);
    heap::lemma_split(v.blocks, v.arenas, a, size);
    assert forall|c: int| #[trigger] v.indexed(c) implies w.blocks.contains_key(c)
        && !w.blocks[c].used && w.blocks[c].size == v.blocks[c].size by {
        lemma_indexed_is_free(v, c);
    }
    lemma_sound_blocks(v, w);
    assert(w.indexed(rest) <==> v.indexed(rest));
    if v.indexed(rest) {
        lemma_indexed_is_free(v, rest);
    }
}

/// Moving a free block that is not indexed, behind a used one, leaves the index sound.
pub proof fn lemma_shifted(v: TreeView, a: int, offs: int)
    requires
        heap::heap_ok(v.blocks, v.arenas),
        v.sound(),
        heap::ordinary(v.blocks, a),
        !v.indexed(a),
        v.blocks[v.blocks[a].prev].used,
        offs % 16 == 0,
        offs > 0,
        v.blocks[a].size >= offs + MIN_PAYLOAD,
        ({
            let p = v.blocks[a].prev;
            v.blocks[p].prev == 0 && p % 64 == 0 ==> v.blocks[p].size + offs == 32
        }),
    ensures
        ({
            let w = v.with_blocks(heap::shifted(v.blocks, a, offs));
            &&& heap::heap_ok(w.blocks, w.arenas)
            &&& w.sound()
            &&& !v.blocks.contains_key(a + offs)
        }),
{
    let w = v.with_blocks(heap::shifted(v.blocks, a, offs));
    heap::lemma_shifted(v.blocks, v.arenas, a, offs);
    heap::lemma_neighbours(v.blocks, v.arenas, a);
    assert forall|c: int| #[trigger] v.indexed(c) implies w.blocks.contains_key(c)
        && !w.blocks[c].used && w.blocks[c].size == v.blocks[c].size by {
        lemma_indexed_is_free(v, c);
    }
    lemma_sound_blocks(v, w);
}

/// Taking the free block behind `a` out of its index and into `a`.
pub proof fn lemma_absorb_next(v: TreeView, a: int)
    requires
        heap::heap_ok(v.blocks, v.arenas),
        v.sound(),
        heap::ordinary(v.blocks, a),
        !v.indexed(a),
        !v.blocks[block::next_of(v.blocks, a)].used,
        v.indexed(block::next_of(v.blocks, a)),
    ensures
        ({
            let n = block::next_of(v.blocks, a);
            let nn = block::next_of(v.blocks, n);
            let w = v.merged_next(a);
            &&& v.blocks.contains_key(n)
            &&& v.blocks.contains_key(nn)
            &&& v.blocks[n].prev == a
            &&& 0 < a < n < nn <= u64::MAX
            &&& (nn - a) % 4 == 0
            &&& a + HEADER_SIZE <= nn
            &&& v.detached(n).blocks == v.blocks
            &&& heap::heap_ok(w.blocks, w.arenas)
            &&& w.sound()
            &&& w == v.detached(n).with_blocks(block::unlinked(v.blocks, n))
        }),
{
    let n = block::next_of(v.blocks, a);
    let w = v.merged_next(a);
    let x = v.detached(n);
    heap::lemma_neighbours(v.blocks, v.arenas, a);
    heap::lemma_neighbours(v.blocks, v.arenas, n);
    lemma_detached(v, n);
    heap::lemma_unlinked(v.blocks, v.arenas, n);
    assert forall|c: int| #[trigger] x.indexed(c) implies w.blocks.contains_key(c)
        && !w.blocks[c].used && w.blocks[c].size == x.blocks[c].size by {
        assert(v.indexed(c) && c != n);
        lemma_indexed_is_free(v, c);
    }
    lemma_sound_blocks(x, w);
}

/// Taking the free block before `a` out of its index and `a` into it.
pub proof fn lemma_absorb_prev(v: TreeView, a: int)
    requires
        heap::heap_ok(v.blocks, v.arenas),
        v.sound(),
        heap::ordinary(v.blocks, a),
        !v.indexed(a),
        !v.blocks[v.blocks[a].prev].used,
        v.indexed(v.blocks[a].prev),
    ensures
        ({
            let p = v.blocks[a].prev;
            let n = block::next_of(v.blocks, a);
            let w = v.merged_prev(a);
            &&& v.blocks.contains_key(p)
            &&& v.blocks.contains_key(n)
            &&& 0 < p < a < n <= u64::MAX
            &&& (n - p) % 4 == 0
            &&& p + HEADER_SIZE <= n
            &&& v.detached(p).blocks == v.blocks
            &&& heap::heap_ok(w.blocks, w.arenas)
            &&& w.sound()
        }),
{
    let p = v.blocks[a].prev;
    let w = v.merged_prev(a);
    let x = v.detached(p);
    heap::lemma_neighbours(v.blocks, v.arenas, a);
    heap::lemma_neighbours(v.blocks, v.arenas, p);
    lemma_detached(v, p);
    heap::lemma_unlinked(v.blocks, v.arenas, a);
    assert forall|c: int| #[trigger] x.indexed(c) implies w.blocks.contains_key(c)
        && !w.blocks[c].used && w.blocks[c].size == x.blocks[c].size by {
        assert(v.indexed(c) && c != p);
        lemma_indexed_is_free(v, c);
    }
    lemma_sound_blocks(x, w);
}

/// Merging the free block behind `a` into `a`.
pub proof fn lemma_merged_next(v: TreeView, a: int, d: Option<int>)
    requires
        heap::heap_ok(v.blocks, v.arenas),
        v.sound(),
        v.complete_but(d),
        v.coalesced_round(a),
        v.mapped_ok(),
        heap::ordinary(v.blocks, a),
        d is Some ==> d == Some(a),
        d is None ==> v.blocks[a].used,
        d is Some ==> !v.blocks[a].used,
    ensures
        ({
            let w = v.merged_next(a);
            let n = block::next_of(v.blocks, a);
            &&& heap::heap_ok(w.blocks, w.arenas)
            &&& w.sound()
            &&& w.complete_but(d)
            &&& w.coalesced_round(a)
            &&& w.mapped_ok()
            &&& w.arenas == v.arenas
            &&& w.mapped == v.mapped
            &&& heap::ordinary(w.blocks, a)
            &&& w.blocks[a].used == v.blocks[a].used
            &&& w.blocks[a].prev == v.blocks[a].prev
            &&& w.blocks[a].size == v.blocks[a].size + v.gain(n)
            &&& w.blocks[block::next_of(w.blocks, a)].used
            &&& d is None && v.coalesced() ==> w.coalesced()
            &&& d is Some ==> !w.indexed(a)
            &&& forall|c: int|
                #![trigger w.blocks.contains_key(c)]
                w.blocks.contains_key(c) <==> v.blocks.contains_key(c) && (v.blocks[n].used || c != n)
            &&& forall|c: int|
                #![trigger w.blocks[c]]
                w.blocks.contains_key(c) && c != a ==> w.blocks[c].size == v.blocks[c].size
                    && w.blocks[c].used == v.blocks[c].used
            &&& w.blocks[v.blocks[a].prev] == v.blocks[v.blocks[a].prev]
        }),
{
    let w = v.merged_next(a);
    let b = v.blocks;
    let n = block::next_of(b, a);
    heap::lemma_neighbours(b, v.arenas, a);
    if b[n].used {
        assert(d is Some ==> !v.indexed(a)) by {
            assert(b.contains_key(a));
        }
        if d is None && v.coalesced() {
            assert forall|c: int| w.blocks.contains_key(c) implies #[trigger] w.quiet(c) by {
                assert(v.quiet(c));
            }
        }
    } else {
        heap::lemma_neighbours(b, v.arenas, n);
        let nn = block::next_of(b, n);
        assert(v.quiet(n));
        assert(b[nn].used);
        assert(b.contains_key(n));
        assert(v.indexed(n));
        lemma_detached(v, n);
        let x = v.detached(n);
        heap::lemma_unlinked(b, v.arenas, n);
        assert forall|c: int| #[trigger] x.indexed(c) implies w.blocks.contains_key(c)
            && !w.blocks[c].used && w.blocks[c].size == x.blocks[c].size by {
            assert(v.indexed(c) && c != n);
            lemma_indexed_is_free(v, c);
            if c == a {
                assert(b.contains_key(a));
            }
        }
        lemma_sound_blocks(x, w);
        assert forall|c: int| #[trigger] w.blocks.contains_key(c) && !w.blocks[c].used implies (w.indexed(c)
            <==> d != Some(c)) by {
            assert(b.contains_key(c) && c != n);
            assert(w.indexed(c) <==> x.indexed(c));
            assert(x.indexed(c) <==> v.indexed(c) && c != n);
        }
        assert forall|c: int| w.blocks.contains_key(c) && c != a && block::next_of(w.blocks, c) != a implies #[trigger] w.quiet(c) by {
            assert(b.contains_key(c));
            assert(v.quiet(c));
            if !b[c].used {
                heap::lemma_free_is_real(b, v.arenas, c);
                heap::lemma_neighbours(b, v.arenas, c);
                let cn = block::next_of(b, c);
                assert(b[cn].prev == c);
            }
        }
        if d is None && v.coalesced() {
            assert forall|c: int| w.blocks.contains_key(c) implies #[trigger] w.quiet(c) by {
                assert(b.contains_key(c));
                assert(v.quiet(c));
                if !b[c].used {
                    heap::lemma_free_is_real(b, v.arenas, c);
                    heap::lemma_neighbours(b, v.arenas, c);
                }
            }
        }
        assert(d is Some ==> !w.indexed(a)) by {
            assert(w.indexed(a) <==> x.indexed(a));
            assert(b.contains_key(a));
        }
    }
}

/// Merging `a` into the free block before it.
pub proof fn lemma_merged_prev(v: TreeView, a: int, d: Option<int>)
    requires
        heap::heap_ok(v.blocks, v.arenas),
        v.sound(),
        v.complete_but(d),
        v.coalesced_round(a),
        v.mapped_ok(),
        heap::ordinary(v.blocks, a),
        !v.blocks[v.blocks[a].prev].used,
        d is Some ==> d == Some(a),
        d is None ==> v.blocks[a].used,
        d is Some ==> !v.blocks[a].used,
    ensures
        ({
            let w = v.merged_prev(a);
            let p = v.blocks[a].prev;
            &&& heap::heap_ok(w.blocks, w.arenas)
            &&& w.sound()
            &&& w.complete_but(Some(p))
            &&& w.coalesced_round(p)
            &&& w.mapped_ok()
            &&& w.arenas == v.arenas
            &&& w.mapped == v.mapped
            &&& heap::ordinary(w.blocks, p)
            &&& !w.blocks[p].used
            &&& !w.indexed(p)
            &&& w.blocks[p].size == v.blocks[a].size + v.gain(p)
            &&& w.blocks[p].prev == v.blocks[p].prev
            &&& w.blocks[w.blocks[p].prev].used
            &&& block::next_of(w.blocks, p) == block::next_of(v.blocks, a)
            &&& w.blocks[block::next_of(v.blocks, a)].used
                == v.blocks[block::next_of(v.blocks, a)].used
            &&& v.blocks[block::next_of(v.blocks, a)].used ==> w.ok_but(p)
            &&& forall|c: int|
                #![trigger w.blocks.contains_key(c)]
                w.blocks.contains_key(c) <==> v.blocks.contains_key(c) && c != a
            &&& forall|c: int|
                #![trigger w.blocks[c]]
                w.blocks.contains_key(c) && c != p ==> w.blocks[c].size == v.blocks[c].size
                    && w.blocks[c].used == v.blocks[c].used
        }),
{
    reveal(TreeView::ok);
    reveal(TreeView::ok_but);
    let w = v.merged_prev(a);
    let b = v.blocks;
    let p = b[a].prev;
    let n = block::next_of(b, a);
    heap::lemma_neighbours(b, v.arenas, a);
    heap::lemma_neighbours(b, v.arenas, p);
    let pp = b[p].prev;
    assert(v.quiet(pp)) by {
        assert(block::next_of(b, pp) == p);
        assert(b.contains_key(pp));
    }
    assert(b[pp].used);
    assert(b.contains_key(p));
    assert(v.indexed(p));
    lemma_detached(v, p);
    let x = v.detached(p);
    heap::lemma_unlinked(b, v.arenas, a);
    assert(!v.indexed(a)) by {
        if v.indexed(a) {
            lemma_indexed_is_free(v, a);
            assert(b.contains_key(a));
        }
    }
    assert forall|c: int| #[trigger] x.indexed(c) implies w.blocks.contains_key(c)
        && !w.blocks[c].used && w.blocks[c].size == x.blocks[c].size by {
        assert(v.indexed(c) && c != p);
        lemma_indexed_is_free(v, c);
    }
    lemma_sound_blocks(x, w);
    assert forall|c: int| #[trigger] w.blocks.contains_key(c) && !w.blocks[c].used implies (w.indexed(c)
        <==> Some(p) != Some(c)) by {
        assert(b.contains_key(c) && c != a);
        assert(w.indexed(c) <==> x.indexed(c));
        assert(x.indexed(c) <==> v.indexed(c) && c != p);
    }
    assert(!w.indexed(p)) by {
        assert(w.indexed(p) <==> x.indexed(p));
    }
    assert forall|c: int| w.blocks.contains_key(c) && c != p && block::next_of(w.blocks, c) != p implies #[trigger] w.quiet(c) by {
        assert(b.contains_key(c));
        if !b[c].used {
            heap::lemma_free_is_real(b, v.arenas, c);
            heap::lemma_neighbours(b, v.arenas, c);
            let cn = block::next_of(b, c);
            assert(b[cn].prev == c);
            assert(cn != a);
            assert(v.quiet(c));
        }
    }
    if b[n].used {
        assert forall|c: int| w.blocks.contains_key(c) implies #[trigger] w.quiet(c) by {
            if c != p && block::next_of(w.blocks, c) != p {
            } else if c == p {
            } else {
                heap::lemma_only_before(w.blocks, w.arenas, p, c);
            }
        }
    }
}

/// Merging a block that is on its way with its free neighbours.
pub proof fn lemma_coalesce(v: TreeView, a: int)
    requires
        heap::heap_ok(v.blocks, v.arenas),
        v.sound(),
        v.complete_but(Some(a)),
        v.coalesced_round(a),
        v.mapped_ok(),
        heap::ordinary(v.blocks, a),
        !v.blocks[a].used,
    ensures
        ({
            let (w, x) = v.coalesce(a);
            &&& w.ok_but(x)
            &&& w.arenas == v.arenas
            &&& w.mapped == v.mapped
            &&& x == a || x == v.blocks[a].prev
            &&& forall|c: int|
                #![trigger w.blocks.contains_key(c)]
                c != x && c != a ==> (v.blocks.contains_key(c) && v.blocks[c].used
                    <==> w.blocks.contains_key(c) && w.blocks[c].used)
            &&& forall|c: int|
                #![trigger w.blocks[c]]
                v.blocks.contains_key(c) && v.blocks[c].used ==> w.blocks[c].size
                    == v.blocks[c].size
        }),
{
    reveal(TreeView::ok);
    reveal(TreeView::ok_but);
    let n = block::next_of(v.blocks, a);
    heap::lemma_neighbours(v.blocks, v.arenas, a);
    lemma_merged_next(v, a, Some(a));
    let w = v.merged_next(a);
    let p = w.blocks[a].prev;
    heap::lemma_neighbours(w.blocks, w.arenas, a);
    assert(v.blocks.contains_key(p));
    if w.blocks[p].used {
        assert forall|c: int| w.blocks.contains_key(c) implies #[trigger] w.quiet(c) by {
            if c != a && block::next_of(w.blocks, c) == a {
                heap::lemma_only_before(w.blocks, w.arenas, a, c);
            }
        }
    } else {
        lemma_merged_prev(w, a, Some(a));
        let y = w.merged_prev(a);
        assert forall|c: int| #![trigger y.blocks.contains_key(c)] c != p && c != a implies (v.blocks.contains_key(
            c,
        ) && v.blocks[c].used <==> y.blocks.contains_key(c) && y.blocks[c].used) by {
            assert(w.blocks.contains_key(c) <==> v.blocks.contains_key(c) && (v.blocks[n].used || c != n));
        }
        assert forall|c: int| #![trigger y.blocks[c]] v.blocks.contains_key(c) && v.blocks[c].used implies y.blocks[c].size
            == v.blocks[c].size by {
            assert(w.blocks.contains_key(c));
            assert(y.blocks.contains_key(c));
        }
    }
}

/// A used block that was marked as free is on its way.
pub proof fn lemma_marked_free(v: TreeView, a: int)
    requires
        v.ok(),
        heap::ordinary(v.blocks, a),
        v.blocks[a].used,
    ensures
        ({
            let m = v.marked(a, false);
            &&& heap::heap_ok(m.blocks, m.arenas)
            &&& m.sound()
            &&& m.complete_but(Some(a))
            &&& m.coalesced_round(a)
            &&& m.mapped_ok()
            &&& heap::ordinary(m.blocks, a)
        }),
{
    reveal(TreeView::ok);
    reveal(TreeView::ok_but);
    let m = v.marked(a, false);
    heap::lemma_marked(v.blocks, v.arenas, a, false);
    assert forall|c: int| #[trigger] v.indexed(c) implies m.blocks.contains_key(c)
        && !m.blocks[c].used && m.blocks[c].size == v.blocks[c].size by {
        lemma_indexed_is_free(v, c);
    }
    lemma_sound_blocks(v, m);
    assert forall|c: int| #[trigger] m.blocks.contains_key(c) && !m.blocks[c].used implies (m.indexed(c)
        <==> Some(a) != Some(c)) by {
        assert(v.blocks.contains_key(c));
        if c == a && v.indexed(a) {
            lemma_indexed_is_free(v, a);
        }
    }
    assert forall|c: int| m.blocks.contains_key(c) && c != a && block::next_of(m.blocks, c) != a implies #[trigger] m.quiet(c) by {
        assert(v.blocks.contains_key(c));
        assert(v.quiet(c));
    }
}

/// What is cut off a used block is on its way.
pub proof fn lemma_split_rest(v: TreeView, a: int, size: int)
    requires
        v.ok(),
        heap::ordinary(v.blocks, a),
        v.blocks[a].used,
        size % 16 == 0,
        size >= MIN_PAYLOAD,
        v.blocks[a].size >= size + SPLIT_REMAINDER_MIN,
    ensures
        ({
            let rest = a + HEADER_SIZE + size;
            let m = v.with_blocks(heap::split(v.blocks, a, size));
            &&& heap::heap_ok(m.blocks, m.arenas)
            &&& m.sound()
            &&& m.complete_but(Some(rest))
            &&& m.coalesced_round(rest)
            &&& m.mapped_ok()
            &&& heap::ordinary(m.blocks, rest)
            &&& !m.blocks[rest].used
        }),
{
    reveal(TreeView::ok);
    reveal(TreeView::ok_but);
    heap::lemma_neighbours(v.blocks, v.arenas, a);
    let rest = a + HEADER_SIZE + size;
    heap::lemma_split(v.blocks, v.arenas, a, size);
    let m = v.with_blocks(heap::split(v.blocks, a, size));
    assert(!v.indexed(rest)) by {
        if v.indexed(rest) {
            lemma_indexed_is_free(v, rest);
        }
    }
    assert forall|c: int| #[trigger] v.indexed(c) implies m.blocks.contains_key(c)
        && !m.blocks[c].used && m.blocks[c].size == v.blocks[c].size by {
        lemma_indexed_is_free(v, c);
    }
    lemma_sound_blocks(v, m);
    assert forall|c: int| #[trigger] m.blocks.contains_key(c) && !m.blocks[c].used implies (m.indexed(c)
        <==> Some(rest) != Some(c)) by {
        if c != rest {
            assert(v.blocks.contains_key(c));
        }
        assert(m.indexed(c) <==> v.indexed(c));
    }
    assert forall|c: int| m.blocks.contains_key(c) && c != rest && block::next_of(m.blocks, c) != rest implies #[trigger] m.quiet(c) by {
        assert(v.blocks.contains_key(c));
        assert(v.quiet(c));
        if !v.blocks[c].used {
            heap::lemma_free_is_real(v.blocks, v.arenas, c);
            heap::lemma_neighbours(v.blocks, v.arenas, c);
        }
    }
}

/// Giving back a used block.
pub proof fn lemma_freed(v: TreeView, a: int)
    requires
        v.ok(),
        heap::ordinary(v.blocks, a),
        v.blocks[a].used,
    ensures
        v.freed(a).ok(),
        v.freed(a).arenas == v.arenas,
        v.freed(a).mapped == v.mapped,
        forall|c: int|
            #![trigger v.freed(a).blocks.contains_key(c)]
            v.blocks.contains_key(c) && v.blocks[c].used && c != a <==> v.freed(a).blocks.contains_key(c)
                && v.freed(a).blocks[c].used,
        forall|c: int|
            #![trigger v.freed(a).blocks[c]]
            v.blocks.contains_key(c) && v.blocks[c].used && c != a ==> v.freed(a).blocks[c].size
                == v.blocks[c].size,
{
    reveal(TreeView::ok);
    reveal(TreeView::ok_but);
    let m = v.marked(a, false);
    lemma_marked_free(v, a);
    lemma_coalesce(m, a);
    let (w, x) = m.coalesce(a);
    lemma_attach_ok(w, x);
    lemma_attached(w, Some(x));
    heap::lemma_neighbours(v.blocks, v.arenas, a);
    assert(w.blocks.contains_key(x) && !w.blocks[x].used);
    let f = v.freed(a);
    assert forall|c: int| #![trigger f.blocks.contains_key(c)]
        v.blocks.contains_key(c) && v.blocks[c].used && c != a <==> f.blocks.contains_key(c)
        && f.blocks[c].used by {
        assert(w.blocks.contains_key(c) <==> f.blocks.contains_key(c));
        if c == x && x != a {
            let p = m.blocks[a].prev;
            assert(c == p);
            let y = m.merged_next(a);
            lemma_merged_next(m, a, Some(a));
            assert(y.blocks[p].used ==> x == a);
        }
        if c == a && x != a {
            let y = m.merged_next(a);
            lemma_merged_next(m, a, Some(a));
            lemma_merged_prev(y, a, Some(a));
        }
    }
}

/// Cutting a used block and merging the rest with a free block behind it.
pub proof fn lemma_shrunk(v: TreeView, a: int, size: int)
    requires
        v.ok(),
        heap::ordinary(v.blocks, a),
        v.blocks[a].used,
        size % 16 == 0,
        size >= MIN_PAYLOAD,
        v.blocks[a].size >= size,
    ensures
        v.shrunk(a, size).ok(),
        v.shrunk(a, size).arenas == v.arenas,
        v.shrunk(a, size).mapped == v.mapped,
        heap::ordinary(v.shrunk(a, size).blocks, a),
        size <= v.shrunk(a, size).blocks[a].size < size + SPLIT_REMAINDER_MIN,
        forall|c: int|
            #![trigger v.shrunk(a, size).blocks.contains_key(c)]
            v.blocks.contains_key(c) && v.blocks[c].used <==> v.shrunk(a, size).blocks.contains_key(c)
                && v.shrunk(a, size).blocks[c].used,
        forall|c: int|
            #![trigger v.shrunk(a, size).blocks[c]]
            v.blocks.contains_key(c) && v.blocks[c].used && c != a ==> v.shrunk(a, size).blocks[c].size
                == v.blocks[c].size,
{
    reveal(TreeView::ok);
    reveal(TreeView::ok_but);
    heap::lemma_neighbours(v.blocks, v.arenas, a);
    if v.blocks[a].size >= size + SPLIT_REMAINDER_MIN {
        let rest = a + HEADER_SIZE + size;
        heap::lemma_split(v.blocks, v.arenas, a, size);
        let m = v.with_blocks(heap::split(v.blocks, a, size));
        lemma_split_rest(v, a, size);
        lemma_coalesce(m, rest);
        let (w, x) = m.coalesce(rest);
        assert(x == rest) by {
            lemma_merged_next(m, rest, Some(rest));
            let y = m.merged_next(rest);
            assert(y.blocks[rest].prev == a);
            assert(y.blocks.contains_key(a));
            assert(y.blocks[a].used);
        }
        lemma_attach_ok(w, x);
        lemma_attached(w, Some(x));
        let f = v.shrunk(a, size);
        assert(w.blocks.contains_key(a) && w.blocks[a].used);
        assert(w.blocks[a].size == size);
        heap::lemma_block(w.blocks, w.arenas, a);
        assert(heap::ordinary(w.blocks, a)) by {
            assert(m.blocks[a].prev != 0);
            lemma_merged_next(m, rest, Some(rest));
            let y = m.merged_next(rest);
            assert(y.blocks[a] == m.blocks[a]);
        }
        assert forall|c: int| #![trigger f.blocks.contains_key(c)]
            v.blocks.contains_key(c) && v.blocks[c].used <==> f.blocks.contains_key(c)
            && f.blocks[c].used by {
            assert(w.blocks.contains_key(c) <==> f.blocks.contains_key(c));
        }
        assert forall|c: int| #![trigger f.blocks[c]]
            v.blocks.contains_key(c) && v.blocks[c].used && c != a implies f.blocks[c].size
            == v.blocks[c].size by {
            assert(m.blocks.contains_key(c) && m.blocks[c].used);
            assert(w.blocks[c].size == m.blocks[c].size);
        }
    } else {
        assert forall|c: int| #![trigger v.shrunk(a, size).blocks.contains_key(c)]
            v.blocks.contains_key(c) && v.blocks[c].used <==> v.shrunk(a, size).blocks.contains_key(c)
            && v.shrunk(a, size).blocks[c].used by {}
    }
}

/// Cutting a used block whose successor is in use.
pub proof fn lemma_trimmed(v: TreeView, a: int, size: int)
    requires
        v.ok(),
        heap::ordinary(v.blocks, a),
        v.blocks[a].used,
        v.blocks[block::next_of(v.blocks, a)].used,
        size % 16 == 0,
        size >= MIN_PAYLOAD,
        v.blocks[a].size >= size,
    ensures
        v.trimmed(a, size).ok(),
        v.trimmed(a, size).arenas == v.arenas,
        v.trimmed(a, size).mapped == v.mapped,
        heap::ordinary(v.trimmed(a, size).blocks, a),
        size <= v.trimmed(a, size).blocks[a].size < size + SPLIT_REMAINDER_MIN,
        v.trimmed(a, size).blocks[a].size <= v.blocks[a].size,
        forall|c: int|
            #![trigger v.trimmed(a, size).blocks.contains_key(c)]
            v.blocks.contains_key(c) && v.blocks[c].used <==> v.trimmed(a, size).blocks.contains_key(c)
                && v.trimmed(a, size).blocks[c].used,
        forall|c: int|
            #![trigger v.trimmed(a, size).blocks[c]]
            v.blocks.contains_key(c) && v.blocks[c].used && c != a ==> v.trimmed(a, size).blocks[c].size
                == v.blocks[c].size,
{
    reveal(TreeView::ok);
    reveal(TreeView::ok_but);
    heap::lemma_neighbours(v.blocks, v.arenas, a);
    let f = v.trimmed(a, size);
    if v.blocks[a].size >= size + SPLIT_REMAINDER_MIN {
        let rest = a + HEADER_SIZE + size;
        heap::lemma_split(v.blocks, v.arenas, a, size);
        let m = v.with_blocks(heap::split(v.blocks, a, size));
        assert(!v.indexed(rest)) by {
            if v.indexed(rest) {
                lemma_indexed_is_free(v, rest);
            }
        }
        assert forall|c: int| #[trigger] v.indexed(c) implies m.blocks.contains_key(c)
            && !m.blocks[c].used && m.blocks[c].size == v.blocks[c].size by {
            lemma_indexed_is_free(v, c);
        }
        lemma_sound_blocks(v, m);
        assert forall|c: int| #[trigger] m.blocks.contains_key(c) && !m.blocks[c].used implies (m.indexed(c)
            <==> Some(rest) != Some(c)) by {
            if c != rest {
                assert(v.blocks.contains_key(c));
            }
            assert(m.indexed(c) <==> v.indexed(c));
        }
        assert forall|c: int| m.blocks.contains_key(c) implies #[trigger] m.quiet(c) by {
            if c != rest {
                assert(v.blocks.contains_key(c));
                assert(v.quiet(c));
                if !v.blocks[c].used {
                    heap::lemma_free_is_real(v.blocks, v.arenas, c);
                    heap::lemma_neighbours(v.blocks, v.arenas, c);
                }
            }
        }
        assert(m.ok_but(rest));
        lemma_attach_ok(m, rest);
        lemma_attached(m, Some(rest));
    }
    assert forall|c: int| #![trigger f.blocks.contains_key(c)]
        v.blocks.contains_key(c) && v.blocks[c].used <==> f.blocks.contains_key(c)
        && f.blocks[c].used by {}
}

/// Taking into use a block that is on its way.
pub proof fn lemma_mark_used(v: TreeView, a: int)
    requires
        v.ok_but(a),
    ensures
        v.marked(a, true).ok(),
        heap::ordinary(v.blocks, a),
        heap::ordinary(v.marked(a, true).blocks, a),
        v.blocks[block::next_of(v.blocks, a)].used,
        v.blocks[v.blocks[a].prev].used,
{
    reveal(TreeView::ok);
    reveal(TreeView::ok_but);
    let m = v.marked(a, true);
    heap::lemma_free_is_real(v.blocks, v.arenas, a);
    heap::lemma_neighbours(v.blocks, v.arenas, a);
    heap::lemma_marked(v.blocks, v.arenas, a, true);
    assert(v.quiet(a));
    assert(v.quiet(v.blocks[a].prev));
    assert forall|c: int| #[trigger] v.indexed(c) implies m.blocks.contains_key(c)
        && !m.blocks[c].used && m.blocks[c].size == v.blocks[c].size by {
        lemma_indexed_is_free(v, c);
    }
    lemma_sound_blocks(v, m);
    assert forall|c: int| #[trigger] m.blocks.contains_key(c) && !m.blocks[c].used implies (m.indexed(c)
        <==> None::<int> != Some(c)) by {
        assert(v.blocks.contains_key(c));
    }
    assert forall|c: int| m.blocks.contains_key(c) implies #[trigger] m.quiet(c) by {
        assert(v.quiet(c));
    }
}

/// Taking `size` bytes of a block that is on its way into use.
pub proof fn lemma_taken(v: TreeView, a: int, size: int)
    requires
        v.ok_but(a),
        size % 16 == 0,
        size >= MIN_PAYLOAD,
        v.blocks[a].size >= size,
    ensures
        v.taken(a, size).ok(),
        v.taken(a, size).arenas == v.arenas,
        v.taken(a, size).mapped == v.mapped,
        heap::ordinary(v.taken(a, size).blocks, a),
        v.taken(a, size).blocks[a].used,
        size <= v.taken(a, size).blocks[a].size < size + SPLIT_REMAINDER_MIN,
        forall|c: int|
            #![trigger v.taken(a, size).blocks.contains_key(c)]
            c != a ==> (v.blocks.contains_key(c) && v.blocks[c].used <==> v.taken(
                a,
                size,
            ).blocks.contains_key(c) && v.taken(a, size).blocks[c].used),
        forall|c: int|
            #![trigger v.taken(a, size).blocks[c]]
            v.blocks.contains_key(c) && v.blocks[c].used ==> v.taken(a, size).blocks[c].size
                == v.blocks[c].size,
{
    reveal(TreeView::ok);
    reveal(TreeView::ok_but);
    let m = v.marked(a, true);
    lemma_mark_used(v, a);
    lemma_trimmed(m, a, size);
    let f = v.taken(a, size);
    assert(f == m.trimmed(a, size));
    assert forall|c: int| #![trigger f.blocks.contains_key(c)]
        c != a implies (v.blocks.contains_key(c) && v.blocks[c].used <==> f.blocks.contains_key(c)
        && f.blocks[c].used) by {
        assert(m.blocks.contains_key(c) && m.blocks[c].used <==> f.blocks.contains_key(c)
            && f.blocks[c].used);
    }
    assert(m.blocks.contains_key(a) && m.blocks[a].used <==> f.blocks.contains_key(a)
        && f.blocks[a].used);
}

/// Taking an indexed block out for use.
pub proof fn lemma_detach_ok(v: TreeView, a: int)
    requires
        v.ok(),
        v.indexed(a),
    ensures
        v.detached(a).ok_but(a),
        v.detached(a).blocks == v.blocks,
        v.detached(a).arenas == v.arenas,
        v.detached(a).mapped == v.mapped,
{
    reveal(TreeView::ok);
    reveal(TreeView::ok_but);
    lemma_detached(v, a);
    lemma_indexed_is_free(v, a);
    let w = v.detached(a);
    assert forall|c: int| #[trigger] w.blocks.contains_key(c) && !w.blocks[c].used implies (w.indexed(c)
        <==> Some(a) != Some(c)) by {
        assert(v.blocks.contains_key(c));
    }
    assert forall|c: int| w.blocks.contains_key(c) implies #[trigger] w.quiet(c) by {
        assert(v.quiet(c));
    }
    assert(w.mapped_ok());
}

/// A power of two divides 32 or is a multiple of 64.
pub proof fn lemma_alignments(al: int)
    requires
        power2::is_pow2(al),
    ensures
        al == 1 || al == 2 || al == 4 || al == 8 || al == 16 || al == 32 || al % 64 == 0,
        al > 0,
        al <= 16 ==> 16int % al == 0,
{
    reveal_with_fuel(power2::is_pow2, 8);
    assert(16int % 1 == 0 && 16int % 2 == 0 && 16int % 4 == 0 && 16int % 8 == 0 && 16int % 16 == 0);
}

/// A multiple of a multiple of `k` is a multiple of `k`.
pub proof fn lemma_multiple(x: int, al: int, k: int)
    requires
        al > 0,
        k > 0,
        x % al == 0,
        al % k == 0,
    ensures
        x % k == 0,
{
    div_mod::lemma_fundamental_div_mod(x, al);
    div_mod::lemma_fundamental_div_mod(al, k);
    let q = x / al;
    let j = al / k;
    assert(x == k * (j * q)) by (nonlinear_arith)
        requires
            x == al * q,
            al == k * j,
    ;
    div_mod::lemma_mod_multiples_basic(j * q, k);
    assert((j * q) * k == k * (j * q)) by (nonlinear_arith);
}

proof fn lemma_remainder(x: int, m: int, q: int, r: int)
    requires
        x == m * q + r,
        0 <= r < m,
    ensures
        x % m == r,
{
    assert(m * q == q * m) by (nonlinear_arith);
    div_mod::lemma_fundamental_div_mod_converse(x, m, q, r);
}

proof fn lemma_offset_16(ptr: int, d: int, k: int)
    requires
        ptr % 16 == 0,
        (ptr + d) % (16 * k) == 0,
        k > 0,
    ensures
        d % 16 == 0,
{
    let m = 16 * k;
    div_mod::lemma_fundamental_div_mod(ptr, 16);
    div_mod::lemma_fundamental_div_mod(ptr + d, m);
    let p = ptr / 16;
    let q = (ptr + d) / m;
    assert(m * q == 16 * (k * q)) by (nonlinear_arith)
        requires
            m == 16 * k,
    ;
    lemma_remainder(d, 16, k * q - p, 0);
}

proof fn lemma_offset_64(ptr: int, d: int)
    requires
        (ptr + d) % 64 == 0,
    ensures
        ptr % 64 == 32 ==> d % 64 == 32,
        ptr % 64 == 0 ==> d % 64 == 0,
{
    div_mod::lemma_fundamental_div_mod(ptr, 64);
    div_mod::lemma_fundamental_div_mod(ptr + d, 64);
    let p = ptr / 64;
    let q = (ptr + d) / 64;
    if ptr % 64 == 32 {
        lemma_remainder(d, 64, q - p - 1, 32);
    } else if ptr % 64 == 0 {
        lemma_remainder(d, 64, q - p, 0);
    }
}

proof fn lemma_half_64(ptr: int)
    requires
        ptr % 64 == 32 || ptr % 64 == 0,
    ensures
        ptr % 32 == 0,
{
    div_mod::lemma_fundamental_div_mod(ptr, 64);
    let p = ptr / 64;
    if ptr % 64 == 32 {
        lemma_remainder(ptr, 32, 2 * p + 1, 0);
    } else {
        lemma_remainder(ptr, 32, 2 * p, 0);
    }
}

proof fn lemma_offset_residues(ptr: int, d: int, x: int)
    requires
        x == ptr + d,
        ptr % 16 == 0,
    ensures
        x % 64 == 0 ==> d % 16 == 0 && (ptr % 64 == 32 ==> d % 64 == 32) && (ptr % 64 == 0 ==> d % 64
            == 0),
        x % 32 == 0 ==> d % 16 == 0,
        ptr % 64 == 32 || ptr % 64 == 0 ==> ptr % 32 == 0,
{
    if x % 64 == 0 {
        lemma_offset_16(ptr, d, 4);
        lemma_offset_64(ptr, d);
    }
    if x % 32 == 0 {
        lemma_offset_16(ptr, d, 2);
    }
    if ptr % 64 == 32 || ptr % 64 == 0 {
        lemma_half_64(ptr);
    }
}

/// How far a payload has to move up to be aligned: a multiple of a header, and from the
/// start of an arena 32 bytes or enough for a block.
pub proof fn lemma_offset(ptr: int, al: int)
    requires
        ptr % 16 == 0,
        power2::is_pow2(al),
    ensures
        al > 0,
        0 <= tree_model::offset(ptr, al) < al,
        tree_model::offset(ptr, al) % 16 == 0,
        (ptr + tree_model::offset(ptr, al)) % al == 0,
        ptr % 64 == 32 ==> tree_model::offset(ptr, al) == 0 || tree_model::offset(ptr, al) % 64 == 32,
        ptr % 64 == 0 ==> tree_model::offset(ptr, al) % 64 == 0,
        ptr % al == 0 ==> tree_model::offset(ptr, al) == 0,
{
    reveal(tree_model::offset);
    lemma_alignments(al);
    align::lemma_rounded_up(ptr, al);
    let x = align::rounded_up(ptr, al);
    let d = tree_model::offset(ptr, al);
    assert(x == ptr + d);
    if al % 64 == 0 {
        lemma_multiple(x, al, 64);
        lemma_offset_residues(ptr, d, x);
    } else if al == 32 {
        lemma_multiple(x, al, 32);
        lemma_offset_residues(ptr, d, x);
    } else {
        lemma_multiple(ptr, 16, al);
    }
}

/// The block that alignment yields is free and not indexed.
#[verifier::rlimit(40)]
pub proof fn lemma_aligned_free(v: TreeView, a: int, al: int, size: int)
    requires
        v.ok_but(a),
        power2::is_pow2(al),
        size >= MIN_PAYLOAD,
        v.blocks[a].size >= size + tree_model::offset(a + HEADER_SIZE, al),
    ensures
        ({
            let (w, x) = v.aligned(a, al);
            &&& heap::heap_ok(w.blocks, w.arenas)
            &&& w.sound()
            &&& heap::ordinary(w.blocks, x)
            &&& !w.blocks[x].used
            &&& !w.indexed(x)
            &&& x == a + tree_model::offset(a + HEADER_SIZE, al)
            &&& w.blocks[x].size == v.blocks[a].size - tree_model::offset(a + HEADER_SIZE, al)
        }),
{
    reveal(TreeView::ok);
    reveal(TreeView::ok_but);
    let offs = tree_model::offset(a + HEADER_SIZE, al);
    let b = v.blocks;
    heap::lemma_free_is_real(b, v.arenas, a);
    heap::lemma_neighbours(b, v.arenas, a);
    lemma_offset(a + HEADER_SIZE, al);
    lemma_mark_used(v, a);
    let x = a + offs;
    let p = b[a].prev;
    let (v1, x1) = v.aligned(a, al);
    if offs >= SPLIT_REMAINDER_MIN {
        heap::lemma_split(b, v.arenas, a, offs - HEADER_SIZE);
        let m = v.with_blocks(heap::split(b, a, offs - HEADER_SIZE));
        assert forall|c: int| #[trigger] v.indexed(c) implies m.blocks.contains_key(c)
            && !m.blocks[c].used && m.blocks[c].size == v.blocks[c].size by {
            lemma_indexed_is_free(v, c);
        }
        lemma_sound_blocks(v, m);
        lemma_attached(m, Some(a));
        assert(v1.indexed(x) <==> m.indexed(x) || x == a);
        assert(m.indexed(x) <==> v.indexed(x));
        if v.indexed(x) {
            lemma_indexed_is_free(v, x);
        }
    } else if offs > 0 {
        if b[p].prev == 0 && p % 64 == 0 {
            heap::lemma_block(b, v.arenas, p);
        }
        heap::lemma_shifted(b, v.arenas, a, offs);
        assert forall|c: int| #[trigger] v.indexed(c) implies v1.blocks.contains_key(c)
            && !v1.blocks[c].used && v1.blocks[c].size == v.blocks[c].size by {
            lemma_indexed_is_free(v, c);
        }
        lemma_sound_blocks(v, v1);
        assert(v1.indexed(x) <==> v.indexed(x));
        if v.indexed(x) {
            lemma_indexed_is_free(v, x);
        }
    }
}

/// Taking that block into use leaves the index sound.
pub proof fn lemma_aligned_marked(v: TreeView, a: int, al: int, size: int)
    requires
        v.ok_but(a),
        power2::is_pow2(al),
        size >= MIN_PAYLOAD,
        v.blocks[a].size >= size + tree_model::offset(a + HEADER_SIZE, al),
    ensures
        ({
            let (w, x) = v.aligned(a, al);
            let m = w.marked(x, true);
            &&& heap::heap_ok(m.blocks, m.arenas)
            &&& m.sound()
            &&& heap::ordinary(m.blocks, x)
        }),
{
    reveal(TreeView::ok);
    reveal(TreeView::ok_but);
    let (w, x) = v.aligned(a, al);
    let m = w.marked(x, true);
    lemma_aligned_free(v, a, al, size);
    heap::lemma_marked(w.blocks, w.arenas, x, true);
    assert forall|c: int| #[trigger] w.indexed(c) implies m.blocks.contains_key(c)
        && !m.blocks[c].used && m.blocks[c].size == w.blocks[c].size by {
        lemma_indexed_is_free(w, c);
    }
    lemma_sound_blocks(w, m);
}

/// Taking `size` bytes at a multiple of `al` from a block that is on its way.
#[verifier::rlimit(40)]
pub proof fn lemma_placed(v: TreeView, a: int, size: int, al: int)
    requires
        v.ok_but(a),
        power2::is_pow2(al),
        size % 16 == 0,
        size >= MIN_PAYLOAD,
        v.blocks[a].size >= size + tree_model::offset(a + HEADER_SIZE, al),
    ensures
        ({
            let (w, x) = v.placed(a, size, al);
            &&& w.ok()
            &&& w.arenas == v.arenas
            &&& w.mapped == v.mapped
            &&& x == a + tree_model::offset(a + HEADER_SIZE, al)
            &&& (x + HEADER_SIZE) % al == 0
            &&& heap::ordinary(w.blocks, x)
            &&& w.blocks[x].used
            &&& size <= w.blocks[x].size < size + SPLIT_REMAINDER_MIN
            &&& !(v.blocks.contains_key(x) && v.blocks[x].used)
            &&& forall|c: int|
                #![trigger w.blocks.contains_key(c)]
                c != x ==> (v.blocks.contains_key(c) && v.blocks[c].used <==> w.blocks.contains_key(c)
                    && w.blocks[c].used)
            &&& forall|c: int|
                #![trigger w.blocks[c]]
                v.blocks.contains_key(c) && v.blocks[c].used ==> {
                    &&& w.blocks[c].prev == 0 <==> v.blocks[c].prev == 0
                    &&& v.blocks[c].size <= w.blocks[c].size
                    &&& block::next_of(v.blocks, c) != a ==> w.blocks[c].size == v.blocks[c].size
                    &&& w.blocks[c].size < v.blocks[c].size + SPLIT_REMAINDER_MIN
                }
        }),
{
    reveal(TreeView::ok);
    reveal(TreeView::ok_but);
    let offs = tree_model::offset(a + HEADER_SIZE, al);
    let b = v.blocks;
    heap::lemma_free_is_real(b, v.arenas, a);
    heap::lemma_neighbours(b, v.arenas, a);
    lemma_offset(a + HEADER_SIZE, al);
    lemma_mark_used(v, a);
    let x = a + offs;
    let n = block::next_of(b, a);
    let p = b[a].prev;
    let (v1, x1) = v.aligned(a, al);
    if offs >= SPLIT_REMAINDER_MIN {
        heap::lemma_split(b, v.arenas, a, offs - HEADER_SIZE);
        let m = v.with_blocks(heap::split(b, a, offs - HEADER_SIZE));
        assert forall|c: int| #[trigger] v.indexed(c) implies m.blocks.contains_key(c)
            && !m.blocks[c].used && m.blocks[c].size == v.blocks[c].size by {
            lemma_indexed_is_free(v, c);
        }
        lemma_sound_blocks(v, m);
        lemma_attached(m, Some(a));
        assert(v1 == m.attached(Some(a)));
        let y = v1.marked(x, true);
        heap::lemma_marked(v1.blocks, v1.arenas, x, true);
        assert(!v1.indexed(x)) by {
            assert(v1.indexed(x) <==> m.indexed(x) || x == a);
            assert(m.indexed(x) <==> v.indexed(x));
            if v.indexed(x) {
                lemma_indexed_is_free(v, x);
            }
        }
        assert forall|c: int| #[trigger] v1.indexed(c) implies y.blocks.contains_key(c)
            && !y.blocks[c].used && y.blocks[c].size == v1.blocks[c].size by {
            lemma_indexed_is_free(v1, c);
        }
        lemma_sound_blocks(v1, y);
        assert forall|c: int| #[trigger] y.blocks.contains_key(c) && !y.blocks[c].used implies (y.indexed(c)
            <==> None::<int> != Some(c)) by {
            assert(v1.blocks.contains_key(c) && c != x);
            assert(b.contains_key(c));
            assert(y.indexed(c) <==> v1.indexed(c));
            assert(v1.indexed(c) <==> m.indexed(c) || c == a);
            assert(m.indexed(c) <==> v.indexed(c));
        }
        assert forall|c: int| y.blocks.contains_key(c) implies #[trigger] y.quiet(c) by {
            if c != x {
                assert(b.contains_key(c));
                assert(v.quiet(c));
                if !b[c].used {
                    heap::lemma_free_is_real(b, v.arenas, c);
                    heap::lemma_neighbours(b, v.arenas, c);
                }
            }
        }
        assert(y.ok());
        lemma_trimmed(y, x, size);
        let w = y.trimmed(x, size);
        assert forall|c: int| #![trigger w.blocks.contains_key(c)] c != x implies (v.blocks.contains_key(c)
            && v.blocks[c].used <==> w.blocks.contains_key(c) && w.blocks[c].used) by {
            assert(y.blocks.contains_key(c) && y.blocks[c].used <==> w.blocks.contains_key(c)
                && w.blocks[c].used);
        }
        assert(y.blocks.contains_key(x) && y.blocks[x].used <==> w.blocks.contains_key(x)
            && w.blocks[x].used);
        assert forall|c: int| #![trigger w.blocks[c]] v.blocks.contains_key(c) && v.blocks[c].used implies {
            &&& w.blocks[c].prev == 0 <==> v.blocks[c].prev == 0
            &&& w.blocks[c].size == v.blocks[c].size
        } by {
            assert(y.blocks.contains_key(c) && y.blocks[c].used);
            assert(w.blocks[c].size == y.blocks[c].size);
            lemma_trimmed_prev(y, x, size, c);
        }
    } else if offs > 0 {
        if b[p].prev == 0 && p % 64 == 0 {
            heap::lemma_block(b, v.arenas, p);
            assert(b[p].size == 0 || b[p].size == 32);
        }
        heap::lemma_shifted(b, v.arenas, a, offs);
        assert(v1 == v.with_blocks(heap::shifted(b, a, offs)));
        assert forall|c: int| #[trigger] v.indexed(c) implies v1.blocks.contains_key(c)
            && !v1.blocks[c].used && v1.blocks[c].size == v.blocks[c].size by {
            lemma_indexed_is_free(v, c);
        }
        lemma_sound_blocks(v, v1);
        assert(!v1.indexed(x)) by {
            assert(v1.indexed(x) <==> v.indexed(x));
            if v.indexed(x) {
                lemma_indexed_is_free(v, x);
            }
        }
        assert forall|c: int| #[trigger] v1.blocks.contains_key(c) && !v1.blocks[c].used implies (v1.indexed(c)
            <==> Some(x) != Some(c)) by {
            assert(v1.indexed(c) <==> v.indexed(c));
            if c != x {
                assert(b.contains_key(c));
            }
        }
        assert forall|c: int| v1.blocks.contains_key(c) implies #[trigger] v1.quiet(c) by {
            if c != x {
                assert(b.contains_key(c));
                assert(v.quiet(c));
                if !b[c].used {
                    heap::lemma_free_is_real(b, v.arenas, c);
                    heap::lemma_neighbours(b, v.arenas, c);
                }
            }
        }
        assert(v1.ok_but(x));
        lemma_taken(v1, x, size);
        let w = v1.taken(x, size);
        assert forall|c: int| #![trigger w.blocks.contains_key(c)] c != x implies (v.blocks.contains_key(c)
            && v.blocks[c].used <==> w.blocks.contains_key(c) && w.blocks[c].used) by {
            assert(v1.blocks.contains_key(c) && v1.blocks[c].used <==> w.blocks.contains_key(c)
                && w.blocks[c].used);
        }
        assert forall|c: int| #![trigger w.blocks[c]] v.blocks.contains_key(c) && v.blocks[c].used implies {
            &&& w.blocks[c].prev == 0 <==> v.blocks[c].prev == 0
            &&& v.blocks[c].size <= w.blocks[c].size
            &&& block::next_of(v.blocks, c) != a ==> w.blocks[c].size == v.blocks[c].size
            &&& w.blocks[c].size < v.blocks[c].size + SPLIT_REMAINDER_MIN
        } by {
            assert(v1.blocks.contains_key(c) && v1.blocks[c].used);
            assert(w.blocks[c].size == v1.blocks[c].size);
            lemma_mark_used(v1, x);
            lemma_trimmed_prev(v1.marked(x, true), x, size, c);
        }
    } else {
        lemma_taken(v, a, size);
        let w = v.taken(a, size);
        assert forall|c: int| #![trigger w.blocks[c]] v.blocks.contains_key(c) && v.blocks[c].used implies {
            &&& w.blocks[c].prev == 0 <==> v.blocks[c].prev == 0
            &&& w.blocks[c].size == v.blocks[c].size
        } by {
            lemma_trimmed_prev(v.marked(a, true), a, size, c);
        }
    }
}

/// Giving back a block changes no arena.
pub proof fn lemma_freed_arenas(v: TreeView, a: int)
    ensures
        v.freed(a).arenas == v.arenas,
        v.freed(a).mapped == v.mapped,
{
}

/// Cutting a block changes no arena.
pub proof fn lemma_shrunk_arenas(v: TreeView, a: int, size: int)
    ensures
        v.shrunk(a, size).arenas == v.arenas,
        v.shrunk(a, size).mapped == v.mapped,
{
}

/// Merging blocks changes no arena.
pub proof fn lemma_merged_arenas(v: TreeView, a: int, size: int)
    ensures
        v.merged_next(a).trimmed(a, size).arenas == v.arenas,
        v.merged_next(a).trimmed(a, size).mapped == v.mapped,
        v.merged_both(a).arenas == v.arenas,
        v.merged_both(a).mapped == v.mapped,
{
}

/// Taking a block into use changes no arena.
pub proof fn lemma_taken_arenas(v: TreeView, a: int, size: int)
    ensures
        v.taken(a, size).arenas == v.arenas,
        v.taken(a, size).mapped == v.mapped,
{
}

/// Placing a block changes no arena.
pub proof fn lemma_placed_arenas(v: TreeView, a: int, size: int, al: int)
    ensures
        v.placed(a, size, al).0.arenas == v.arenas,
        v.placed(a, size, al).0.mapped == v.mapped,
{
}

/// Cutting a block makes no block a fence and no fence a block.
pub proof fn lemma_trimmed_prev(v: TreeView, a: int, size: int, c: int)
    requires
        v.ok(),
        heap::ordinary(v.blocks, a),
        v.blocks[a].used,
        size % 16 == 0,
        size >= MIN_PAYLOAD,
        v.blocks[a].size >= size,
        v.blocks.contains_key(c),
        v.blocks[c].used,
    ensures
        v.trimmed(a, size).blocks[c].prev == 0 <==> v.blocks[c].prev == 0,
{
    reveal(TreeView::ok);
    reveal(TreeView::ok_but);
    heap::lemma_neighbours(v.blocks, v.arenas, a);
    if v.blocks[a].size >= size + SPLIT_REMAINDER_MIN {
        heap::lemma_split(v.blocks, v.arenas, a, size);
        let m = v.with_blocks(heap::split(v.blocks, a, size));
        assert(v.trimmed(a, size).blocks == m.blocks);
    }
}

/// Merging a used block into the free block before it, with what is free behind it.
pub proof fn lemma_merged_both(v: TreeView, a: int)
    requires
        v.ok(),
        heap::ordinary(v.blocks, a),
        v.blocks[a].used,
        !v.blocks[v.blocks[a].prev].used,
    ensures
        ({
            let w = v.merged_both(a);
            let p = v.blocks[a].prev;
            let n = block::next_of(v.blocks, a);
            &&& w == v.merged_prev(a).merged_next(p)
            &&& w.ok_but(p)
            &&& w.arenas == v.arenas
            &&& w.mapped == v.mapped
            &&& w.blocks[p].size == v.blocks[a].size + v.gain(p) + v.gain(n)
            &&& forall|c: int|
                #![trigger w.blocks.contains_key(c)]
                v.blocks.contains_key(c) && v.blocks[c].used && c != a <==> w.blocks.contains_key(c)
                    && w.blocks[c].used
            &&& forall|c: int|
                #![trigger w.blocks[c]]
                v.blocks.contains_key(c) && v.blocks[c].used && c != a ==> w.blocks[c].size
                    == v.blocks[c].size
        }),
{
    reveal(TreeView::ok);
    reveal(TreeView::ok_but);
    let w = v.merged_both(a);
    let p = v.blocks[a].prev;
    let n = block::next_of(v.blocks, a);
    heap::lemma_neighbours(v.blocks, v.arenas, a);
    assert forall|c: int| v.blocks.contains_key(c) && c != a && block::next_of(v.blocks, c) != a implies #[trigger] v.quiet(c) by {}
    lemma_merged_prev(v, a, None);
    let x = v.merged_prev(a);
    assert(x.blocks.contains_key(n));
    assert(w == x.merged_next(p));
    lemma_merged_next(x, p, Some(p));
    heap::lemma_neighbours(x.blocks, x.arenas, p);
    let pp = x.blocks[p].prev;
    assert(w.blocks[pp] == x.blocks[pp]);
    assert forall|c: int| w.blocks.contains_key(c) implies #[trigger] w.quiet(c) by {
        if c != p && block::next_of(w.blocks, c) == p {
            heap::lemma_only_before(w.blocks, w.arenas, p, c);
        }
    }
    assert forall|c: int| #![trigger w.blocks.contains_key(c)]
        v.blocks.contains_key(c) && v.blocks[c].used && c != a <==> w.blocks.contains_key(c)
        && w.blocks[c].used by {
        assert(x.blocks.contains_key(c) <==> v.blocks.contains_key(c) && c != a);
    }
    assert forall|c: int| #![trigger w.blocks[c]]
        v.blocks.contains_key(c) && v.blocks[c].used && c != a implies w.blocks[c].size
        == v.blocks[c].size by {
        assert(x.blocks.contains_key(c));
        assert(w.blocks.contains_key(c));
        assert(x.blocks[c].size == v.blocks[c].size);
    }
}

/// A fresh arena is one free block that is on its way.
pub proof fn lemma_with_arena(v: TreeView, base: int, len: int)
    requires
        v.ok(),
        0 < base,
        base % 16 == 0,
        len % 16 == 0,
        len >= heap::MIN_ARENA,
        base + len <= ADDRESS_LIMIT,
        heap::fresh(v.blocks, v.arenas, base, len),
    ensures
        ({
            let w = v.with_arena(base, len);
            &&& w.ok_but(base + HEADER_SIZE)
            &&& w.blocks[base + HEADER_SIZE].size == len - 3 * HEADER_SIZE
            &&& !v.arenas.contains_key(base)
            &&& forall|c: int|
                #![trigger w.blocks.contains_key(c)]
                v.blocks.contains_key(c) ==> w.blocks.contains_key(c) && w.blocks[c] == v.blocks[c]
            &&& forall|c: int|
                #![trigger w.blocks.contains_key(c)]
                w.blocks.contains_key(c) && heap::ordinary(w.blocks, c) && w.blocks[c].used
                    ==> v.blocks.contains_key(c)
        }),
{
    reveal(TreeView::ok);
    reveal(TreeView::ok_but);
    let w = v.with_arena(base, len);
    let front = base + HEADER_SIZE;
    let end = base + len - HEADER_SIZE;
    heap::lemma_with_arena(v.blocks, v.arenas, base, len);
    assert(!v.blocks.contains_key(base) && !v.blocks.contains_key(front) && !v.blocks.contains_key(end)) by {
        if v.blocks.contains_key(base) {
            heap::lemma_block(v.blocks, v.arenas, base);
        }
        if v.blocks.contains_key(front) {
            heap::lemma_block(v.blocks, v.arenas, front);
        }
        if v.blocks.contains_key(end) {
            heap::lemma_block(v.blocks, v.arenas, end);
        }
    }
    assert forall|c: int| #[trigger] v.indexed(c) implies w.blocks.contains_key(c)
        && !w.blocks[c].used && w.blocks[c].size == v.blocks[c].size by {
        lemma_indexed_is_free(v, c);
    }
    lemma_sound_blocks(v, w);
    assert forall|c: int| #[trigger] w.blocks.contains_key(c) && !w.blocks[c].used implies (w.indexed(c)
        <==> Some(front) != Some(c)) by {
        assert(w.indexed(c) <==> v.indexed(c));
        if c != front {
            assert(v.blocks.contains_key(c));
        } else if v.indexed(c) {
            lemma_indexed_is_free(v, c);
        }
    }
    assert(!w.indexed(front)) by {
        assert(w.indexed(front) <==> v.indexed(front));
        if v.indexed(front) {
            lemma_indexed_is_free(v, front);
        }
    }
    assert forall|c: int| w.blocks.contains_key(c) implies #[trigger] w.quiet(c) by {
        if c != base && c != front && c != end {
            assert(v.blocks.contains_key(c));
            assert(v.quiet(c));
            if !v.blocks[c].used {
                heap::lemma_free_is_real(v.blocks, v.arenas, c);
                heap::lemma_neighbours(v.blocks, v.arenas, c);
            }
        }
    }
    assert(w.mapped_ok()) by {
        assert forall|i: int| 0 <= i < w.mapped.len() implies {
            let m = #[trigger] w.mapped[i];
            m.ok() && w.arenas.contains_key(m.base as int) && w.arenas[m.base as int] == m.len
        } by {
            assert(v.arenas.contains_key(v.mapped[i].base as int));
        }
    }
}

/// A heap that differs in its mappings alone is in order where they are.
proof fn lemma_remapped(u: TreeView, w: TreeView, d: int)
    requires
        u.ok_but(d),
        w == (TreeView { mapped: w.mapped, ..u }),
        w.mapped_ok(),
    ensures
        w.ok_but(d),
{
    reveal(TreeView::ok_but);
    assert forall|c: int| #[trigger] u.indexed(c) implies w.blocks.contains_key(c)
        && !w.blocks[c].used && w.blocks[c].size == u.blocks[c].size by {
        lemma_indexed_is_free(u, c);
    }
    lemma_sound_blocks(u, w);
    assert forall|c: int| #[trigger] w.blocks.contains_key(c) && !w.blocks[c].used implies (w.indexed(c)
        <==> Some(d) != Some(c)) by {
        assert(u.blocks.contains_key(c));
        assert(w.indexed(c) <==> u.indexed(c));
    }
    assert forall|c: int| w.blocks.contains_key(c) implies #[trigger] w.quiet(c) by {
        assert(u.quiet(c));
    }
    assert(!w.indexed(d)) by {
        assert(w.indexed(d) <==> u.indexed(d));
    }
}

/// The mappings of a heap that takes one more are its arenas.
proof fn lemma_grown_mapped(v: TreeView, m: Mapping)
    requires
        v.mapped_ok(),
        m.ok(),
        !v.arenas.contains_key(m.base as int),
    ensures
        v.grown(m).mapped_ok(),
        v.all_mapped() ==> v.grown(m).all_mapped(),
{
    reveal(TreeView::all_mapped);
    let w = v.grown(m);
    assert forall|i: int| 0 <= i < w.mapped.len() implies {
        let k = #[trigger] w.mapped[i];
        k.ok() && w.arenas.contains_key(k.base as int) && w.arenas[k.base as int] == k.len
    } by {
        if i < v.mapped.len() {
            assert(w.mapped[i] == v.mapped[i]);
            assert(v.arenas.contains_key(v.mapped[i].base as int));
        }
    }
    assert forall|i: int, j: int|
        #![trigger w.mapped[i], w.mapped[j]]
        0 <= i < j < w.mapped.len() implies w.mapped[i].base != w.mapped[j].base by {
        assert(w.mapped[i] == v.mapped[i]);
        assert(v.arenas.contains_key(v.mapped[i].base as int));
        if j < v.mapped.len() {
            assert(w.mapped[j] == v.mapped[j]);
        }
    }
    if v.all_mapped() {
        assert forall|base: int| #[trigger] w.arenas.contains_key(base) implies exists|i: int|
            0 <= i < w.mapped.len() && (#[trigger] w.mapped[i]).base == base by {
            if base == m.base {
                assert(w.mapped[v.mapped.len() as int].base == base);
            } else {
                assert(v.arenas.contains_key(base));
                let i = choose|i: int|
                    0 <= i < v.mapped.len() && (#[trigger] v.mapped[i]).base == base;
                assert(w.mapped[i].base == base);
            }
        }
    }
}

/// A mapping of the system becomes an arena.
pub proof fn lemma_grown(v: TreeView, m: Mapping)
    requires
        v.ok(),
        m.ok(),
        heap::fresh(v.blocks, v.arenas, m.base as int, m.len as int),
    ensures
        ({
            let w = v.grown(m);
            let front = m.base + HEADER_SIZE;
            &&& w.ok_but(front)
            &&& w.blocks[front].size == m.len - 3 * HEADER_SIZE
            &&& v.all_mapped() ==> w.all_mapped()
            &&& forall|c: int|
                #![trigger w.blocks.contains_key(c)]
                v.blocks.contains_key(c) ==> w.blocks.contains_key(c) && w.blocks[c] == v.blocks[c]
            &&& forall|c: int|
                #![trigger w.blocks.contains_key(c)]
                w.blocks.contains_key(c) && heap::ordinary(w.blocks, c) && w.blocks[c].used
                    ==> v.blocks.contains_key(c)
        }),
{
    let front = m.base + HEADER_SIZE;
    lemma_with_arena(v, m.base as int, m.len as int);
    assert(v.mapped_ok()) by {
        reveal(TreeView::ok);
    }
    lemma_grown_mapped(v, m);
    lemma_remapped(v.with_arena(m.base as int, m.len as int), v.grown(m), front);
}

/// Pushing the most recently freed block into its index leaves the heap in order.
pub proof fn lemma_flushed(v: TreeView)
    requires
        v.ok(),
    ensures
        v.attached(None).ok(),
{
    reveal(TreeView::ok);
    reveal(TreeView::ok_but);
    let w = v.attached(None);
    lemma_attached(v, None);
    assert forall|a: int| #[trigger] w.blocks.contains_key(a) && !w.blocks[a].used implies (w.indexed(a)
        <==> None::<int> != Some(a)) by {
        assert(v.blocks.contains_key(a));
        assert(w.indexed(a) <==> v.indexed(a) || None::<int> == Some(a));
    }
    assert forall|a: int| w.blocks.contains_key(a) implies #[trigger] w.quiet(a) by {
        assert(v.quiet(a));
    }
}

/// Everything that a purge relies on while it walks: the order of the free blocks in the
/// tree is `kept`, which have been looked at, and `rest`, which have not.
pub open spec fn purging(v: TreeView, o: OsView, kept: Seq<int>, rest: Seq<int>) -> bool {
    &&& v.ok()
    &&& v.index.ok()
    &&& v.mr is None
    &&& tree_model::agree(v, o)
    &&& v.all_mapped()
    &&& v.index.members() == kept + rest
}

/// One step of a purge.
#[verifier::rlimit(40)]
pub proof fn lemma_purged_block(v: TreeView, o: OsView, kept: Seq<int>, rest: Seq<int>)
    requires
        purging(v, o, kept, rest),
        rest.len() > 0,
    ensures
        ({
            let m = rest[0];
            let a = m - HEADER_SIZE;
            let (w, o1) = v.purged_block(o, a);
            let arena = v.arena_of(a);
            let kept1 = if heap::sole(v.blocks, a) {
                kept
            } else {
                kept.push(m)
            };
            &&& v.indexed(a)
            &&& v.index.keys.contains_key(m)
            &&& heap::ordinary(v.blocks, a)
            &&& !v.blocks[a].used
            &&& purging(w, o1, kept1, rest.skip(1))
            &&& heap::sole(v.blocks, a) ==> {
                &&& v.mapped.contains(arena)
                &&& o.held.contains(arena)
                &&& !o.grants.contains(arena)
                &&& arena.base == v.blocks[a].prev
                &&& arena.len == v.arenas[v.blocks[a].prev]
                &&& arena.end() == block::next_of(v.blocks, a) + HEADER_SIZE
                &&& tree_model::total(w.mapped) == tree_model::total(v.mapped) - arena.len
                &&& w.arenas == v.arenas.remove(v.blocks[a].prev)
            }
            &&& !heap::sole(v.blocks, a) ==> w == v && o1 == o
            &&& forall|c: int|
                #![trigger w.blocks.contains_key(c)]
                w.blocks.contains_key(c) <==> v.blocks.contains_key(c) && !(heap::sole(v.blocks, a) && (c == a
                    || c == v.blocks[a].prev || c == block::next_of(v.blocks, a)))
            &&& forall|c: int|
                #![trigger w.blocks[c]]
                w.blocks.contains_key(c) ==> w.blocks[c] == v.blocks[c]
        }),
{
    reveal(TreeView::ok);
    reveal(TreeView::ok_but);
    reveal(tree_model::agree);
    reveal(TreeView::all_mapped);
    let m = rest[0];
    let a = m - HEADER_SIZE;
    let (w, o1) = v.purged_block(o, a);
    let all = v.index.members();
    v.index.lemma_members();
    assert(all[kept.len() as int] == m);
    assert(all.contains(m));
    v.index.lemma_erased_ok(m);
    assert(v.index.keys.contains_key(m));
    assert(v.indexed(a));
    assert(v.blocks.contains_key(m - HEADER_SIZE));
    heap::lemma_free_is_real(v.blocks, v.arenas, a);
    heap::lemma_neighbours(v.blocks, v.arenas, a);
    assert(all.index_of(m) == kept.len());
    if heap::sole(v.blocks, a) {
        let base = v.blocks[a].prev;
        let n = block::next_of(v.blocks, a);
        let arena = v.arena_of(a);
        heap::lemma_without_arena(v.blocks, v.arenas, a);
        let i = choose|i: int| 0 <= i < v.mapped.len() && (#[trigger] v.mapped[i]).base == base;
        let k = v.mapped[i];
        assert(k.len == v.arenas[base]);
        assert(k == arena);
        assert(v.mapped.contains(arena));
        let j = v.mapped.index_of(arena);
        assert(v.mapped[j] == arena);
        assert(i == j) by {
            if i < j {
                assert(v.mapped[i].base != v.mapped[j].base);
            }
            if j < i {
                assert(v.mapped[j].base != v.mapped[i].base);
            }
        }
        o.lemma_unmapped(arena);
        tree_model::lemma_total_remove(v.mapped, j);
        lemma_detached(v, a);
        let d = v.detached(a);
        assert forall|c: int| #[trigger] d.indexed(c) implies w.blocks.contains_key(c)
            && !w.blocks[c].used && w.blocks[c].size == d.blocks[c].size by {
            assert(v.indexed(c) && c != a);
            lemma_indexed_is_free(v, c);
            assert(v.blocks[base].used && v.blocks[n].used) by {
                heap::lemma_block(v.blocks, v.arenas, base);
                heap::lemma_block(v.blocks, v.arenas, n);
            }
        }
        lemma_sound_blocks(d, w);
        assert forall|c: int| #[trigger] w.blocks.contains_key(c) && !w.blocks[c].used implies (w.indexed(c)
            <==> None::<int> != Some(c)) by {
            assert(v.blocks.contains_key(c));
            assert(w.indexed(c) <==> d.indexed(c));
            assert(d.indexed(c) <==> v.indexed(c) && c != a);
        }
        assert forall|c: int| w.blocks.contains_key(c) implies #[trigger] w.quiet(c) by {
            assert(v.blocks.contains_key(c));
            assert(v.quiet(c));
            if !v.blocks[c].used {
                heap::lemma_free_is_real(v.blocks, v.arenas, c);
                heap::lemma_neighbours(v.blocks, v.arenas, c);
                let cn = block::next_of(v.blocks, c);
                assert(v.blocks[cn].prev == c);
                heap::lemma_block(v.blocks, v.arenas, base);
            }
        }
        assert forall|x: int| 0 <= x < w.mapped.len() implies {
            let mm = #[trigger] w.mapped[x];
            &&& mm.ok()
            &&& w.arenas.contains_key(mm.base as int)
            &&& w.arenas[mm.base as int] == mm.len
            &&& o1.held.contains(mm)
            &&& !o1.grants.contains(mm)
        } by {
            let x0 = if x < j { x } else { x + 1 };
            assert(w.mapped[x] == v.mapped[x0]);
            assert(v.arenas.contains_key(v.mapped[x0].base as int));
            assert(v.mapped[x0].base != base) by {
                if x0 < j {
                    assert(v.mapped[x0].base != v.mapped[j].base);
                } else {
                    assert(v.mapped[j].base != v.mapped[x0].base);
                }
            }
        }
        assert forall|x: int, y: int|
            #![trigger w.mapped[x], w.mapped[y]]
            0 <= x < y < w.mapped.len() implies w.mapped[x].base != w.mapped[y].base by {
            let x0 = if x < j { x } else { x + 1 };
            let y0 = if y < j { y } else { y + 1 };
            assert(w.mapped[x] == v.mapped[x0] && w.mapped[y] == v.mapped[y0]);
        }
        assert(w.mapped_ok());
        assert(w.ok());
        assert(w.all_mapped()) by {
            assert forall|b0: int| #[trigger] w.arenas.contains_key(b0) implies exists|x: int|
                0 <= x < w.mapped.len() && (#[trigger] w.mapped[x]).base == b0 by {
                assert(v.arenas.contains_key(b0));
                let x0 = choose|x: int| 0 <= x < v.mapped.len() && (#[trigger] v.mapped[x]).base == b0;
                let x = if x0 < j { x0 } else { x0 - 1 };
                assert(x0 != j);
                assert(w.mapped[x] == v.mapped[x0]);
            }
        }
        assert(tree_model::clear_of(w, o1)) by {
            assert forall|g: Mapping| #[trigger] o1.grants.contains(g) implies heap::fresh(
                w.blocks,
                w.arenas,
                g.base as int,
                g.len as int,
            ) by {
                assert(o.grants.contains(g));
                assert forall|x: int| #[trigger] w.arenas.contains_key(x) implies x + w.arenas[x]
                    <= g.base || g.base + g.len <= x by {
                    assert(v.arenas.contains_key(x));
                }
            }
        }
        assert(tree_model::agree(w, o1));
        v.index.lemma_erased_members(m);
        assert(v.blocks[a].size > MAX_SMALL_ALLOCATION);
        assert(w.index == v.index.erased(m));
        assert(w.index.members() =~= kept + rest.skip(1));
    } else {
        assert(v.index.members() =~= kept.push(m) + rest.skip(1));
    }
}

/// A further mapping that is clear of the heap adds its bytes to the total, which stays
/// in the address range.
pub proof fn lemma_total_with(v: TreeView, m: Mapping)
    requires
        v.ok(),
        m.ok(),
        heap::fresh(v.blocks, v.arenas, m.base as int, m.len as int),
    ensures
        tree_model::total(v.mapped.push(m)) == tree_model::total(v.mapped) + m.len,
        tree_model::total(v.mapped.push(m)) < ADDRESS_LIMIT,
{
    reveal(TreeView::ok);
    reveal(heap::heap_ok);
    let maps = v.mapped.push(m);
    assert(maps.drop_last() =~= v.mapped);
    assert forall|i: int, j: int|
        #![trigger maps[i], maps[j]]
        0 <= i < j < maps.len() implies maps[i].apart(maps[j]) by {
        assert(maps[i] == v.mapped[i]);
        assert(v.arenas.contains_key(v.mapped[i].base as int));
        if j < v.mapped.len() {
            assert(maps[j] == v.mapped[j]);
            assert(v.arenas.contains_key(v.mapped[j].base as int));
        }
    }
    assert forall|i: int| 0 <= i < maps.len() implies (#[trigger] maps[i]).ok() by {
        if i < v.mapped.len() {
            assert(maps[i] == v.mapped[i]);
        }
    }
    tree_model::lemma_total(maps);
}

/// The mapped bytes stay in the address range.
pub proof fn lemma_total_bound(v: TreeView)
    requires
        v.ok(),
    ensures
        0 <= tree_model::total(v.mapped) < ADDRESS_LIMIT,
{
    reveal(TreeView::ok);
    reveal(heap::heap_ok);
    let maps = v.mapped;
    assert forall|i: int, j: int|
        #![trigger maps[i], maps[j]]
        0 <= i < j < maps.len() implies maps[i].apart(maps[j]) by {
        assert(v.arenas.contains_key(maps[i].base as int));
        assert(v.arenas.contains_key(maps[j].base as int));
    }
    tree_model::lemma_total(maps);
}

/// A mapping of the heap is part of the total.
pub proof fn lemma_total_part(v: TreeView, m: Mapping)
    requires
        v.mapped.contains(m),
    ensures
        tree_model::total(v.mapped) >= m.len,
{
    let i = v.mapped.index_of(m);
    tree_model::lemma_total_remove(v.mapped, i);
    tree_model::lemma_total_nonneg(v.mapped.remove(i));
}

/// Taking a mapping on offer into the heap keeps heap and system in agreement.
pub proof fn lemma_agree_grown(v: TreeView, o: OsView, m: Mapping)
    requires
        v.ok(),
        tree_model::agree(v, o),
        o.can_map(m.len as int),
        m == o.grants[os::first_of_len(o.grants, m.len as int)],
    ensures
        tree_model::agree(v.grown(m), o.mapped(m.len as int)),
{
    reveal(tree_model::agree);
    reveal(OsView::ok);
    reveal(TreeView::ok);
    let w = v.grown(m);
    let o1 = o.mapped(m.len as int);
    o.lemma_mapped(m.len as int);
    os::lemma_first_of_len(o.grants, m.len as int);
    assert(o.grants.contains(m));
    assert forall|k: Mapping| #[trigger] o1.grants.contains(k) implies heap::fresh(
        w.blocks,
        w.arenas,
        k.base as int,
        k.len as int,
    ) by {
        assert(o.grants.contains(k) && k != m);
        let i = o.grants.index_of(k);
        assert(o.held.contains(o.grants[i]));
        o.lemma_held_apart(k, m);
        assert forall|x: int| #[trigger] w.arenas.contains_key(x) implies x + w.arenas[x] <= k.base
            || k.base + k.len <= x by {
            if x != m.base {
                assert(v.arenas.contains_key(x));
            }
        }
    }
    assert forall|i: int| 0 <= i < w.mapped.len() implies o1.held.contains(#[trigger] w.mapped[i])
        && !o1.grants.contains(w.mapped[i]) by {
        if i < v.mapped.len() {
            assert(w.mapped[i] == v.mapped[i]);
        }
    }
}

} // verus!
