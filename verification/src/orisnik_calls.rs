//! How the calls of the allocator relate to each other, and what each of them asks of the
//! system.

use crate::align;
use crate::block::{DEFAULT_ALIGNMENT, HEADER_SIZE};
use crate::bucket_model;
use crate::orisnik_laws;
use crate::orisnik_model;
use crate::orisnik_model::OrisnikView;
use crate::orisnik_retry;
use crate::os;
use crate::os::PAGE_SIZE;
use crate::page;
use crate::page::MAX_SMALL_ALLOCATION;
use crate::tree_laws;
use crate::tree_model;
use crate::tree_model::{TreeView, MAX_ALLOCATION};
use vstd::arithmetic::power2;
use vstd::prelude::*;

verus! {

/// A reallocation of nothing is answered exactly as a request is, with no byte to be moved: it
/// leaves the same state, and its answer is a new payload of at least `size` bytes unless the
/// size is zero or beyond the limit, or memory is lacking.
pub proof fn law_realloc_nothing(v: OrisnikView, size: int)
    requires
        v.ok(),
        0 <= size,
    ensures
        ({
            let (w, r) = v.realloc(None, size);
            let (u, x) = v.alloc_bytes(size);
            &&& w == u
            &&& r is Some <==> x is Some
            &&& r matches Some((p, copied)) ==> {
                &&& x == Some(p)
                &&& copied == 0
                &&& w.live(p)
                &&& !v.live(p)
                &&& w.usable(p) >= size
            }
            &&& r is None ==> {
                ||| size == 0
                ||| size > MAX_ALLOCATION
                ||| os::missed(v.os, w.os, orisnik_retry::lacking(size))
            }
        }),
{
    orisnik_laws::law_alloc(v, size);
    law_alloc_effect(v, size);
}

/// The same for an aligned reallocation of nothing and an aligned request.
pub proof fn law_realloc_nothing_aligned(v: OrisnikView, size: int, al: int)
    requires
        v.ok(),
        0 <= size,
        orisnik_model::valid_alignment(al),
    ensures
        ({
            let (w, r) = v.realloc_aligned(None, size, al);
            let (u, x) = v.alloc_aligned(size, al);
            &&& w == u
            &&& r is Some <==> x is Some
            &&& r matches Some((p, copied)) ==> {
                &&& x == Some(p)
                &&& copied == 0
                &&& w.live(p)
                &&& !v.live(p)
                &&& w.usable(p) >= size
                &&& al > 0 ==> p % al == 0
            }
            &&& r is None ==> {
                ||| !orisnik_retry::within(size, al)
                ||| os::missed(v.os, w.os, orisnik_retry::lacking_aligned(size, al))
            }
        }),
{
    orisnik_laws::law_alloc_aligned(v, size, al);
    law_alloc_aligned_effect(v, size, al);
}

/// An alignment up to the default asks for nothing beyond it: aligned calls are then as plain
/// ones.
pub proof fn law_default_alignment(v: OrisnikView, ptr: Option<u64>, size: int, al: int)
    requires
        0 <= al <= 8,
    ensures
        v.alloc_aligned(size, al) == v.alloc_bytes(size),
        v.realloc_aligned(ptr, size, al) == v.realloc(ptr, size),
{
}

/// An alignment can be asked for if and only if it is zero or a power of two.
pub proof fn law_valid_alignment(al: int)
    requires
        0 <= al,
    ensures
        orisnik_model::valid_alignment(al) <==> al == 0 || exists|n: nat|
            #[trigger] vstd::arithmetic::power::pow(2, n) == al,
{
    power2::is_pow2_equiv(al);
}

/// The system of an allocator in order is in order.
proof fn lemma_os(v: OrisnikView)
    requires
        v.ok(),
    ensures
        v.os.ok(),
{
    reveal(OrisnikView::ok);
    reveal(tree_model::agree);
}

/// A request that is answered asks nothing of the system or takes one mapping off its offer,
/// of the length that it lacks. One that is not answered finds no such mapping and notes the
/// length, or is for nothing or beyond the limit.
pub proof fn law_alloc_effect(v: OrisnikView, size: int)
    requires
        v.ok(),
        0 <= size,
    ensures
        ({
            let (w, r) = v.alloc_bytes(size);
            &&& r is Some ==> w.os == v.os || os::took(v.os, w.os, orisnik_retry::lacking(size))
            &&& r is None && 0 < size <= MAX_ALLOCATION ==> os::missed(
                v.os,
                w.os,
                orisnik_retry::lacking(size),
            )
            &&& size == 0 || size > MAX_ALLOCATION ==> w == v
        }),
{
    lemma_os(v);
    os::law_map(v.os, orisnik_retry::lacking(size));
}

/// The same for an aligned request.
pub proof fn law_alloc_aligned_effect(v: OrisnikView, size: int, al: int)
    requires
        v.ok(),
        0 <= size,
        orisnik_model::valid_alignment(al),
    ensures
        ({
            let (w, r) = v.alloc_aligned(size, al);
            let len = orisnik_retry::lacking_aligned(size, al);
            &&& r is Some ==> w.os == v.os || os::took(v.os, w.os, len)
            &&& r is None && orisnik_retry::within(size, al) ==> os::missed(v.os, w.os, len)
            &&& !orisnik_retry::within(size, al) ==> w == v
        }),
{
    lemma_os(v);
    os::law_map(v.os, orisnik_retry::lacking_aligned(size, al));
}

/// The same for a reallocation of a payload.
pub proof fn law_realloc_effect(v: OrisnikView, ptr: u64, size: int)
    requires
        v.ok(),
        v.live(ptr as int),
        0 < size,
        tree_model::normalized(size) matches Some(n) && n <= MAX_ALLOCATION,
    ensures
        ({
            let (w, r) = v.realloc(Some(ptr), size);
            let len = orisnik_retry::lacking_move(v, ptr as int, size);
            &&& r is Some ==> w.os == v.os || os::took(v.os, w.os, len)
            &&& r is None ==> os::missed(v.os, w.os, len)
        }),
{
    lemma_os(v);
    os::law_map(v.os, orisnik_retry::lacking_move(v, ptr as int, size));
    orisnik_retry::lemma_renormalized(size);
}

/// The same for an aligned reallocation of a payload.
pub proof fn law_realloc_aligned_effect(v: OrisnikView, ptr: u64, size: int, al: int)
    requires
        v.ok(),
        v.live(ptr as int),
        0 < size,
        orisnik_model::valid_alignment(al),
        tree_model::normalized(size) matches Some(n) && n + al <= MAX_ALLOCATION,
    ensures
        ({
            let (w, r) = v.realloc_aligned(Some(ptr), size, al);
            let len = orisnik_retry::lacking_move_aligned(v, ptr as int, size, al);
            &&& r is Some ==> w.os == v.os || os::took(v.os, w.os, len)
            &&& r is None ==> os::missed(v.os, w.os, len)
        }),
{
    reveal_with_fuel(power2::is_pow2, 2);
    let p = ptr as int;
    if al <= DEFAULT_ALIGNMENT {
        law_realloc_effect(v, ptr, size);
    } else if p % al != 0 {
        lemma_move_effect(v, p, size, al);
    } else if v.buckets.owns(p) {
        let s = page::clamped(size);
        tree_laws::law_normalized(size);
        tree_laws::law_normalized(s);
        lemma_move_effect(v, p, s, al);
    } else {
        lemma_tree_effect(v, p, size, al);
    }
}

/// A payload that is moved asks the system for what its new place asks for.
proof fn lemma_move_effect(v: OrisnikView, p: int, size: int, al: int)
    requires
        v.ok(),
        orisnik_retry::within(size, al),
        orisnik_model::valid_alignment(al),
    ensures
        ({
            let (w, r) = v.move_aligned(p, size, al);
            let len = orisnik_retry::lacking_aligned(size, al);
            &&& r is Some ==> w.os == v.os || os::took(v.os, w.os, len)
            &&& r is None ==> os::missed(v.os, w.os, len)
        }),
{
    law_alloc_aligned_effect(v, size, al);
}

proof fn lemma_tree_effect(v: OrisnikView, p: int, size: int, al: int)
    requires
        v.ok(),
        0 < size,
        0 <= al,
        tree_model::normalized(size) matches Some(n) && n + al <= MAX_ALLOCATION,
    ensures
        ({
            let (t, o, r) = v.tree.realloc_aligned(v.os, p - HEADER_SIZE, size, al);
            let len = tree_model::arena_len(tree_model::normalized(size)->0 + al);
            &&& r is Some ==> o == v.os || os::took(v.os, o, len)
            &&& r is None ==> os::missed(v.os, o, len)
        }),
{
    lemma_os(v);
    orisnik_retry::lemma_renormalized(size);
    os::law_map(v.os, tree_model::arena_len(tree_model::normalized(size)->0 + al));
}

/// What a request lacks is one page where it is small, and else whole pages with room for
/// three headers, the alignment and the size rounded up, and less than one page beyond that.
pub proof fn law_lacking(size: int, al: int)
    requires
        0 < size <= MAX_ALLOCATION,
        0 <= al,
    ensures
        size <= 256 ==> orisnik_retry::lacking(size) == 65536,
        size > 256 ==> {
            let len = orisnik_retry::lacking(size);
            &&& len % 65536 == 0
            &&& size + 48 <= len < size + 15 + 48 + 65536
        },
        al <= 8 ==> orisnik_retry::lacking_aligned(size, al) == orisnik_retry::lacking(size),
        8 < al <= 256 && size <= 256 ==> orisnik_retry::lacking_aligned(size, al) == 65536,
        al > 256 || (al > 8 && size > 256) ==> {
            let len = orisnik_retry::lacking_aligned(size, al);
            &&& len % 65536 == 0
            &&& size + al + 48 <= len
            &&& len < (if size < 48 {
                48
            } else {
                size + 15
            }) + al + 48 + 65536
        },
{
    tree_laws::law_normalized(size);
    let n = tree_model::normalized(size)->0;
    align::lemma_rounded_up(n + 3 * HEADER_SIZE, PAGE_SIZE as int);
    align::lemma_rounded_up(n + al + 3 * HEADER_SIZE, PAGE_SIZE as int);
    assert(n + al + 3 * HEADER_SIZE == (n + al) + 3 * HEADER_SIZE);
}

/// What a reallocation lacks is what a request lacks, at the least.
pub proof fn law_lacking_move(v: OrisnikView, ptr: int, size: int, al: int)
    requires
        0 < size <= MAX_ALLOCATION,
        0 <= al,
    ensures
        v.buckets.owns(ptr) ==> orisnik_retry::lacking_move(v, ptr, size) == orisnik_retry::lacking(size),
        v.buckets.owns(ptr) ==> orisnik_retry::lacking_move_aligned(v, ptr, size, al)
            == orisnik_retry::lacking_aligned(size, al),
        !v.buckets.owns(ptr) ==> {
            let len = orisnik_retry::lacking_move(v, ptr, size);
            &&& len % 65536 == 0
            &&& size + 48 <= len < (if size < 48 {
                48
            } else {
                size + 15
            }) + 48 + 65536
        },
        size > 256 ==> orisnik_retry::lacking_move(v, ptr, size) == orisnik_retry::lacking(size),
        size > 256 || al > 256 ==> orisnik_retry::lacking_move_aligned(v, ptr, size, al) == if al <= 8 {
            orisnik_retry::lacking_move(v, ptr, size)
        } else {
            orisnik_retry::lacking_aligned(size, al)
        },
{
    tree_laws::law_normalized(size);
    let n = tree_model::normalized(size)->0;
    align::lemma_rounded_up(n + 3 * HEADER_SIZE, PAGE_SIZE as int);
}

/// Memory at hand is used first: as long as a page of the class of a small request has a slot
/// that is not in use, or a free block above the small limit is large enough for another, the
/// request is answered and nothing is asked of the system.
pub proof fn law_at_hand(v: OrisnikView, size: int, a: int)
    requires
        v.ok(),
        0 < size <= MAX_ALLOCATION,
        size <= 256 ==> v.buckets.pages.contains_key(a) && v.buckets.pages[a].elem() == align::rounded_up(
            size,
            8,
        ) && v.buckets.pages[a].free.len() > 0,
        size > 256 ==> {
            &&& v.tree.blocks.contains_key(a)
            &&& !v.tree.blocks[a].used
            &&& v.tree.blocks[a].size >= size
        },
    ensures
        v.alloc_bytes(size).1 is Some,
        v.alloc_bytes(size).0.os == v.os,
        v.alloc_bytes(size).0.allocated() == v.allocated(),
{
    let (w, r) = v.alloc_bytes(size);
    if size <= 256 {
        align::lemma_rounded_up(size, 8);
        let bi = orisnik_model::plain_class(size);
        lemma_class(size, v.buckets.pages[a].index);
        lemma_slot_at_hand(v, bi, a);
    } else {
        assert(v.tree.ok()) by {
            reveal(OrisnikView::ok);
        }
        lemma_room(v.tree, size, a);
        tree_laws::law_at_hand(v.tree, v.os, size, a);
    }
}

/// The class whose slots have the size rounded up is the one that serves it.
proof fn lemma_class(size: int, index: int)
    requires
        0 < size <= 256,
        page::elem_of(index) == align::rounded_up(size, 8),
    ensures
        index == orisnik_model::plain_class(size),
{
    align::lemma_rounded_up(size, 8);
    vstd::arithmetic::div_mod::lemma_fundamental_div_mod(page::clamped(size) - 1, 8);
}

/// A bucket with a free slot answers from it.
proof fn lemma_slot_at_hand(v: OrisnikView, bi: int, p: int)
    requires
        v.ok(),
        0 <= bi < page::NUM_BUCKETS,
        v.buckets.pages.contains_key(p),
        v.buckets.pages[p].index == bi,
        v.buckets.pages[p].free.len() > 0,
    ensures
        v.from_bucket(bi).1 is Some,
        v.from_bucket(bi).0.os == v.os,
        v.from_bucket(bi).0.buckets.pages.dom() == v.buckets.pages.dom(),
{
    assert(v.buckets.ok()) by {
        reveal(OrisnikView::ok);
    }
    bucket_model::law_at_hand(v.buckets, v.os, bi, p);
}

/// A free block that has room for `size` bytes has room for them rounded up.
proof fn lemma_room(t: TreeView, size: int, a: int)
    requires
        t.ok(),
        256 < size <= MAX_ALLOCATION,
        t.blocks.contains_key(a),
        !t.blocks[a].used,
        t.blocks[a].size >= size,
    ensures
        t.blocks[a].size >= tree_model::normalized(size)->0,
{
    tree_laws::law_normalized(size);
    reveal(TreeView::ok);
    crate::heap::lemma_free_is_real(t.blocks, t.arenas, a);
}

/// Memory after `n` bytes from `ptr` on were set to zero.
pub open spec fn with_zeroed(mem: spec_fn(int) -> u8, ptr: int, n: int) -> spec_fn(int) -> u8 {
    |a: int|
        if ptr <= a < ptr + n {
            0u8
        } else {
            mem(a)
        }
}

/// What setting the first `n` bytes of the payload at `x` to zero makes of memory: these are
/// zero, and every payload of `v` has what it had.
pub open spec fn zeroes(v: OrisnikView, x: int, n: int, mem: spec_fn(int) -> u8) -> bool {
    let m = with_zeroed(mem, x, n);
    &&& forall|k: int| 0 <= k < n ==> #[trigger] m(x + k) == 0u8
    &&& forall|q: int, k: int|
        v.live(q) && 0 <= k < v.usable(q) ==> #[trigger] m(q + k) == mem(q + k)
}

/// Setting bytes of a new payload to zero touches no other.
pub proof fn lemma_zeroes(
    v: OrisnikView,
    w: OrisnikView,
    x: int,
    size: int,
    slack: int,
    n: int,
    mem: spec_fn(int) -> u8,
)
    requires
        v.ok(),
        orisnik_laws::served_well(v, w, Some(x), size, slack),
        n <= size,
    ensures
        zeroes(v, x, n, mem),
{
    let m = with_zeroed(mem, x, n);
    assert forall|q: int, k: int| v.live(q) && 0 <= k < v.usable(q) implies #[trigger] m(q + k) == mem(
        q + k,
    ) by {
        assert(w.live(q));
        assert(v.usable(q) <= w.usable(q));
        orisnik_laws::law_live_apart(w, q, x);
    }
}

/// Setting the bytes that a zeroed request tells to zero gives `count` times `size` zero bytes
/// in a payload of its own, and touches no other.
pub proof fn law_calloc_contents(v: OrisnikView, count: int, size: int, mem: spec_fn(int) -> u8)
    requires
        v.ok(),
        0 <= count,
        0 <= size,
    ensures
        v.calloc(count, size).1 matches Some((x, len)) ==> len == count * size && zeroes(v, x, len, mem),
{
    orisnik_laws::law_calloc(v, count, size);
    let (w, r) = v.calloc(count, size);
    if let Some((x, len)) = r {
        lemma_zeroes(v, w, x, len, 0, len, mem);
    }
}

/// Nothing has no bytes, can be given back and be asked to change its size, and neither changes
/// anything. A payload has the bytes that it can hold, which are eight at the least. Giving it
/// back takes it out of use, and nothing is asked of the system for it.
pub proof fn law_optional(v: OrisnikView, ptr: Option<u64>, size: int)
    requires
        v.ok(),
        v.holds(ptr),
        0 <= size,
    ensures
        ptr is None ==> {
            &&& v.size(ptr) == 0
            &&& v.free(ptr) == v
            &&& v.resized(ptr, size) == v
        },
        ptr matches Some(p) ==> {
            &&& v.live(p as int)
            &&& v.size(ptr) == v.usable(p as int)
            &&& v.size(ptr) >= 8
            &&& !v.free(ptr).live(p as int)
            &&& v.free(ptr).ok()
            &&& v.free(ptr).os == v.os
            &&& forall|q: int|
                #![trigger v.free(ptr).live(q)]
                q != p ==> (v.free(ptr).live(q) <==> v.live(q))
            &&& forall|q: int|
                #![trigger v.free(ptr).usable(q)]
                v.live(q) && q != p ==> v.free(ptr).usable(q) == v.usable(q)
            &&& v.resized(ptr, size).os == v.os
            &&& v.resized(ptr, size).live(p as int)
            &&& 0 < size <= v.size(ptr) ==> v.resized(ptr, size).size(ptr) >= size
        },
{
    if let Some(p) = ptr {
        orisnik_laws::law_live(v, p as int);
        orisnik_laws::law_free(v, p as int);
        orisnik_laws::law_resize(v, p, size);
        let w = v.resized(ptr, size);
        assert(w.live(p as int) <==> v.live(p as int));
    }
}

/// A payload answers the request that it was served for as long as it stays where it is.
pub proof fn law_fits_kept(v: OrisnikView, w: OrisnikView, p: int, size: int, al: int)
    requires
        v.live(p),
        w.live(p),
        orisnik_laws::same_path(v, w, p),
    ensures
        v.fits_request(p, size) ==> w.fits_request(p, size),
        v.fits_aligned_request(p, size, al) ==> w.fits_aligned_request(p, size, al),
{
}

/// A payload answers a request for `size` bytes if and only if it is in use and the size is
/// zero, or small and rounded up to the size of the slot, or above the small limit and the
/// payload is a block.
pub proof fn law_fits_request(v: OrisnikView, p: int, size: int)
    requires
        v.ok(),
        0 <= size,
    ensures
        v.fits_request(p, size) ==> v.live(p),
        size == 0 ==> (v.fits_request(p, size) <==> v.live(p)),
        0 < size <= 256 ==> (v.fits_request(p, size) <==> v.buckets.live(p) && v.usable(p)
            == align::rounded_up(size, 8)),
        size > 256 ==> (v.fits_request(p, size) <==> v.tree.live(p)),
{
    if 0 < size <= 256 && v.buckets.live(p) {
        orisnik_laws::lemma_usable(v, p);
        let i = v.buckets.bucket(p);
        align::lemma_rounded_up(size, 8);
        page::law_spacing(0, page::clamped(size));
        align::lemma_rounded_up(page::clamped(size), 8);
        if v.usable(p) == align::rounded_up(size, 8) {
            lemma_class(size, i);
        }
    }
}

/// What was given back is served again: once a payload that answers a request is given back,
/// the request is answered and nothing is asked of the system.
pub proof fn law_reuse(v: OrisnikView, ptr: u64, size: int)
    requires
        v.ok(),
        0 < size <= MAX_ALLOCATION,
        v.fits_request(ptr as int, size),
        size <= v.usable(ptr as int),
    ensures
        v.freed(ptr as int).alloc_bytes(size).1 is Some,
        v.freed(ptr as int).alloc_bytes(size).0.os == v.os,
        v.freed(ptr as int).alloc_bytes(size).0.allocated() == v.allocated(),
{
    let p = ptr as int;
    let w = v.freed(p);
    law_fits_request(v, p, size);
    orisnik_laws::lemma_usable(v, p);
    orisnik_laws::law_free(v, p);
    assert(v.buckets.ok() && v.tree.ok()) by {
        reveal(OrisnikView::ok);
    }
    if size <= 256 {
        let g = page::page_of(p);
        assert(w.buckets.pages[g].free[0] == p);
        law_at_hand(w, size, g);
    } else {
        tree_laws::law_normalized(size);
        tree_laws::law_reuse(v.tree, p, v.os, size);
        let n = tree_model::normalized(size)->0;
        let x = choose|x: int|
            w.tree.mr == Some(x) && x <= p - HEADER_SIZE && w.tree.blocks[x].size >= v.tree.usable(p) + (p
                - HEADER_SIZE - x) && (n <= #[trigger] w.tree.blocks[x].size ==> w.tree.served(v.os, size)
                == (w.tree.detached(x).taken(x, n), v.os, Some(x + HEADER_SIZE)));
        assert(w.tree.ok() && w.tree.blocks.contains_key(x) && !w.tree.blocks[x].used) by {
            reveal(OrisnikView::ok);
            reveal(TreeView::ok);
        }
        law_at_hand(w, size, x);
    }
}

/// A payload that was reallocated has little more than asked for: a slot of the smallest class
/// that holds the size, or the slot that it was, or a block with a rest that is too small for
/// one of its own. A block stays a block, and a slot stays one as long as the size is small.
pub proof fn law_realloc_fit(v: OrisnikView, ptr: u64, size: int)
    requires
        v.ok(),
        v.live(ptr as int),
        0 < size,
    ensures
        ({
            let (w, r) = v.realloc(Some(ptr), size);
            &&& r matches Some((x, copied)) ==> v.tree.live(ptr as int) ==> w.tree.live(x)
            &&& r matches Some((x, copied)) ==> v.buckets.live(ptr as int) ==> (w.buckets.live(x) <==> size
                <= 256)
            &&& r matches Some((x, copied)) ==> {
                ||| w.buckets.live(x) && w.usable(x) == page::elem_of(orisnik_model::plain_class(size))
                ||| v.buckets.live(ptr as int) && x == ptr && size <= v.usable(x) && w == v
                ||| w.tree.live(x) && tree_model::snug(w.usable(x), size)
            }
        }),
{
    let p = ptr as int;
    let (w, r) = v.realloc(Some(ptr), size);
    orisnik_laws::law_realloc(v, ptr, size);
    orisnik_laws::lemma_usable(v, p);
    assert(v.buckets.ok() && v.tree.ok() && tree_model::agree(v.tree, v.os)) by {
        reveal(OrisnikView::ok);
    }
    if let Some((x, copied)) = r {
        orisnik_laws::lemma_usable(w, x);
        if v.buckets.live(p) {
            let s = page::clamped(size);
            bucket_model::lemma_live(v.buckets, p);
            if s <= MAX_SMALL_ALLOCATION {
                orisnik_laws::lemma_slot_realloc(v, p, s);
            } else {
                orisnik_laws::lemma_from_tree(v, s);
                let (u, y) = v.from_tree(s);
                assert(u.live(p));
                orisnik_laws::law_free(u, p);
                assert(w.usable(x) == u.usable(x) && orisnik_laws::same_path(u, w, x));
            }
        } else {
            tree_laws::law_realloc(v.tree, v.os, p, size);
        }
    }
}

/// A block that has room for the size asked for, with a free block behind it if there is one,
/// stays where it is, and nothing is asked of the system as long as there is room on either
/// side of it.
pub proof fn law_realloc_in_place(v: OrisnikView, ptr: u64, size: int)
    requires
        v.ok(),
        v.tree.live(ptr as int),
        0 < size <= MAX_ALLOCATION,
    ensures
        ({
            let (w, r) = v.realloc(Some(ptr), size);
            let n = tree_model::normalized(size)->0;
            &&& tree_laws::roomy_behind(v.tree, ptr as int, n) ==> r == Some((ptr as int, 0int))
                && w.os == v.os
            &&& tree_laws::roomy_before(v.tree, ptr as int, n) ==> r is Some && w.os == v.os
        }),
{
    orisnik_laws::lemma_usable(v, ptr as int);
    assert(v.tree.ok() && tree_model::agree(v.tree, v.os)) by {
        reveal(OrisnikView::ok);
    }
    tree_laws::law_realloc(v.tree, v.os, ptr as int, size);
}

/// The same for a block that an aligned reallocation finds aligned. A slot that is aligned and
/// large enough stays as it is.
pub proof fn law_realloc_aligned_in_place(v: OrisnikView, ptr: u64, size: int, al: int)
    requires
        v.ok(),
        v.live(ptr as int),
        0 < size <= MAX_ALLOCATION,
        power2::is_pow2(al),
        al > 8,
        ptr as int % al == 0,
        tree_model::normalized(size)->0 + al <= MAX_ALLOCATION,
    ensures
        ({
            let (w, r) = v.realloc_aligned(Some(ptr), size, al);
            let n = tree_model::normalized(size)->0;
            &&& v.tree.live(ptr as int) && tree_laws::roomy_behind(v.tree, ptr as int, n) ==> r == Some(
                (ptr as int, 0int),
            ) && w.os == v.os
            &&& v.tree.live(ptr as int) && tree_laws::roomy_before(v.tree, ptr as int, n + al) ==> r is Some
                && w.os == v.os
            &&& v.buckets.live(ptr as int) && size <= v.usable(ptr as int) && al <= 256 ==> r == Some(
                (ptr as int, 0int),
            ) && w == v
            &&& r matches Some((x, copied)) ==> v.tree.live(ptr as int) ==> tree_model::snug(
                w.usable(x),
                size,
            )
        }),
{
    let p = ptr as int;
    let (w, r) = v.realloc_aligned(Some(ptr), size, al);
    orisnik_laws::lemma_usable(v, p);
    orisnik_laws::law_live(v, p);
    assert(v.buckets.ok() && v.tree.ok() && tree_model::agree(v.tree, v.os)) by {
        reveal(OrisnikView::ok);
    }
    if v.tree.live(p) {
        tree_laws::law_realloc_aligned_room(v.tree, v.os, p, size, al);
        tree_laws::law_realloc_aligned(v.tree, v.os, p, size, al);
        orisnik_laws::law_realloc_aligned(v, ptr, size, al);
        if let Some((x, copied)) = r {
            assert(w.tree.live(x));
            orisnik_laws::lemma_usable(w, x);
        }
    }
}

/// The slot that serves a small request has the size rounded up to a multiple of eight, or of the
/// alignment where that is larger.
pub proof fn law_slot_size(size: int, al: int)
    requires
        0 < size <= 256,
        power2::is_pow2(al),
        8 < al <= 256,
    ensures
        page::elem_of(orisnik_model::plain_class(size)) == align::rounded_up(size, 8),
        page::elem_of(orisnik_model::aligned_class(size, al)) == align::rounded_up(size, al),
        size <= align::rounded_up(size, 8) < size + 8,
        align::rounded_up(size, 8) % 8 == 0,
        size <= align::rounded_up(size, al) < size + al,
        align::rounded_up(size, al) % al == 0,
{
    align::lemma_rounded_up(size, 8);
    align::lemma_rounded_up(size, al);
    page::law_spacing(0, page::clamped(size));
    align::lemma_rounded_up(page::clamped(size), 8);
    if size < 8 {
        orisnik_model::lemma_only_multiple(align::rounded_up(size, 8), 8);
        orisnik_model::lemma_only_multiple(align::rounded_up(8, 8), 8);
    }
    orisnik_model::law_sized_class(size, al);
    let n = align::rounded_up(size, al);
    page::law_spacing(0, n);
    orisnik_model::lemma_rounded_small(size, al);
    align::lemma_rounded_up(n, 8);
    align::lemma_gap(n, 8);
}

/// A payload answers an aligned request beyond the default alignment if and only if it is in use
/// and the size is zero, or size and alignment are small and the slot has the size rounded up to
/// the alignment, or one of them is not small and the payload is a block.
pub proof fn law_fits_aligned_request(v: OrisnikView, p: int, size: int, al: int)
    requires
        v.ok(),
        0 <= size,
        power2::is_pow2(al),
    ensures
        al <= 8 ==> (v.fits_aligned_request(p, size, al) <==> v.fits_request(p, size)),
        v.fits_aligned_request(p, size, al) ==> v.live(p),
        size == 0 ==> (v.fits_aligned_request(p, size, al) <==> v.live(p)),
        al > 8 && size > 0 && (size > 256 || al > 256) ==> (v.fits_aligned_request(p, size, al)
            <==> v.tree.live(p)),
        8 < al <= 256 && 0 < size <= 256 ==> (v.fits_aligned_request(p, size, al) <==> v.buckets.live(p)
            && v.usable(p) == align::rounded_up(size, al)),
{
    law_fits_request(v, p, size);
    if 8 < al <= 256 && 0 < size <= 256 {
        law_slot_size(size, al);
        if v.buckets.live(p) {
            orisnik_laws::lemma_usable(v, p);
        }
    }
}

/// The limit is the largest size that can be rounded up to a header, given three headers and
/// rounded up to a page within 64 bits.
pub proof fn law_limit()
    ensures
        MAX_ALLOCATION + 16 + 3 * 16 + 65536 == u64::MAX,
{
}

/// The two paths are independent: a request, a reallocation and a payload that is given back
/// change one of them at most unless a slot becomes a block, and the size decides which one
/// serves a request.
pub proof fn law_paths(v: OrisnikView, ptr: u64, size: int)
    requires
        v.ok(),
        v.live(ptr as int),
        0 <= size,
    ensures
        size <= 256 ==> v.alloc_bytes(size).0.tree == v.tree,
        size > 256 ==> v.alloc_bytes(size).0.buckets == v.buckets,
        v.buckets.live(ptr as int) ==> v.freed(ptr as int).tree == v.tree,
        v.tree.live(ptr as int) ==> v.freed(ptr as int).buckets == v.buckets,
        v.buckets.live(ptr as int) && size <= 256 ==> v.realloc(Some(ptr), size).0.tree == v.tree,
        v.tree.live(ptr as int) ==> v.realloc(Some(ptr), size).0.buckets == v.buckets,
        v.buckets.live(ptr as int) <==> !v.tree.live(ptr as int),
{
    orisnik_laws::lemma_usable(v, ptr as int);
}

/// An allocator that has just been made holds nothing, has asked for nothing and has nothing to
/// return.
pub proof fn law_fresh()
    ensures
        OrisnikView::empty().os.held.len() == 0,
        OrisnikView::empty().os.grants.len() == 0,
        OrisnikView::empty().os.released.len() == 0,
        OrisnikView::empty().os.wanted is None,
{
}

} // verus!
