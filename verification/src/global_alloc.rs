//! The allocator for a whole program: layouts in, addresses out, null where memory is
//! lacking.

use crate::allocator_trait::Layout;
use crate::block::DEFAULT_ALIGNMENT;
use crate::capi;
use crate::capi::NULL;
use crate::orisnik::{Orisnik, Zeroed};
use crate::orisnik_calls;
use crate::orisnik_laws;
use crate::orisnik_model::OrisnikView;
use crate::orisnik_retry;
use crate::os;
use crate::tree;
use crate::tree::Relocation;
use crate::tree_model;
use crate::tree_model::{MAX_ALLOCATION, SPLIT_REMAINDER_MIN};
use vstd::arithmetic::power2;
use vstd::prelude::*;

verus! {

fn as_address(r: Option<u64>) -> (a: u64)
    ensures
        a == capi::or_null(tree::as_int(r)),
{
    match r {
        Some(x) => x,
        None => NULL,
    }
}

/// Serves a payload with `layout`.
pub fn alloc_layout(orisnik: &mut Orisnik, layout: Layout) -> (r: u64)
    requires
        old(orisnik).wf(),
        layout.ok(),
    ensures
        final(orisnik).wf(),
        ({
            let (v, x) = old(orisnik)@.alloc_aligned(layout.size as int, layout.align as int);
            final(orisnik)@ == v && r == capi::or_null(x)
        }),
{
    as_address(
        if layout.align <= DEFAULT_ALIGNMENT {
            orisnik.alloc_bytes(layout.size)
        } else {
            orisnik.alloc_aligned(layout.size, layout.align)
        },
    )
}

/// The state and the answer after a request with `layout` for zero bytes: all bytes of the
/// layout are to be set to zero.
pub open spec fn zeroed_allocation(v: OrisnikView, layout: Layout) -> (OrisnikView, (int, int)) {
    let (w, r) = v.alloc_aligned(layout.size as int, layout.align as int);
    (
        w,
        capi::or_null_move(
            match r {
                Some(x) => Some((x, layout.size as int)),
                None => None,
            },
        ),
    )
}

/// Serves a payload with `layout` and tells how many of its bytes are to be set to zero: all
/// that the layout has, none where the answer is null.
pub fn alloc_zeroed(orisnik: &mut Orisnik, layout: Layout) -> (r: Zeroed)
    requires
        old(orisnik).wf(),
        layout.ok(),
    ensures
        final(orisnik).wf(),
        (final(orisnik)@, (r.ptr as int, r.len as int)) == zeroed_allocation(
            old(orisnik)@,
            layout,
        ),
{
    let r = if layout.align <= DEFAULT_ALIGNMENT {
        orisnik.calloc(1, layout.size)
    } else {
        match orisnik.alloc_aligned(layout.size, layout.align) {
            Some(ptr) => Some(Zeroed { ptr, len: layout.size }),
            None => None,
        }
    };
    match r {
        Some(z) => z,
        None => Zeroed { ptr: NULL, len: 0 },
    }
}

/// Gives back the payload at `ptr`, by its address alone: its layout may have changed since
/// it was served.
pub fn dealloc(orisnik: &mut Orisnik, ptr: u64)
    requires
        old(orisnik).wf(),
        old(orisnik)@.live(ptr as int),
    ensures
        final(orisnik).wf(),
        final(orisnik)@ == old(orisnik)@.freed(ptr as int),
{
    orisnik.free(Some(ptr));
}

/// The state and the answer after the payload at `ptr` was asked to hold `new_size` bytes.
/// Null says that the payload is untouched, and so it is for a size of zero, too.
pub open spec fn reallocation(v: OrisnikView, ptr: u64, layout: Layout, new_size: u64) -> (
    OrisnikView,
    (int, int),
) {
    if new_size == 0 {
        (v, (NULL as int, 0))
    } else {
        let (w, r) = v.realloc_aligned(Some(ptr), new_size as int, layout.align as int);
        (w, capi::or_null_move(r))
    }
}

/// Lets the payload at `ptr`, which has `layout`, hold `new_size` bytes.
pub fn realloc(orisnik: &mut Orisnik, ptr: u64, layout: Layout, new_size: u64) -> (r: Relocation)
    requires
        old(orisnik).wf(),
        old(orisnik)@.live(ptr as int),
        layout.ok(),
    ensures
        final(orisnik).wf(),
        (final(orisnik)@, (r.ptr as int, r.copied as int)) == reallocation(
            old(orisnik)@,
            ptr,
            layout,
            new_size,
        ),
{
    if new_size == 0 {
        return Relocation { ptr: NULL, copied: 0 };
    }
    let r = if layout.align <= DEFAULT_ALIGNMENT {
        orisnik.realloc(Some(ptr), new_size)
    } else {
        orisnik.realloc_aligned(Some(ptr), new_size, layout.align)
    };
    match r {
        Some(m) => m,
        None => Relocation { ptr: NULL, copied: 0 },
    }
}

/// A request with a layout is answered with a new payload that has the bytes of the layout at
/// a multiple of its alignment; with null if and only if the layout is of no bytes or beyond the
/// limit, or memory is lacking.
pub proof fn law_alloc_layout(v: OrisnikView, layout: Layout)
    requires
        v.ok(),
        layout.ok(),
    ensures
        ({
            let (w, x) = v.alloc_aligned(layout.size as int, layout.align as int);
            let r = capi::or_null(x);
            &&& r == 0 <==> x is None
            &&& r != 0 ==> {
                &&& w.live(r)
                &&& !v.live(r)
                &&& w.usable(r) >= layout.size
                &&& r % (layout.align as int) == 0
            }
            &&& r == 0 ==> w.buckets == v.buckets && w.tree == v.tree
            &&& r == 0 ==> !orisnik_retry::within(layout.size as int, layout.align as int)
                || os::missed(
                v.os,
                w.os,
                orisnik_retry::lacking_aligned(layout.size as int, layout.align as int),
            )
        }),
{
    reveal_with_fuel(power2::is_pow2, 2);
    capi::law_oris_alloc_aligned(v, layout.size, layout.align);
}

/// A zeroed request with a layout is answered as one that is not zeroed, with the same address
/// and the same state afterwards. Whatever the alignment, the bytes to be set to zero are all
/// that the layout has, and none where the answer is null. Doing so touches no other payload.
pub proof fn law_alloc_zeroed(v: OrisnikView, layout: Layout, mem: spec_fn(int) -> u8)
    requires
        v.ok(),
        layout.ok(),
    ensures
        ({
            let (w, (ptr, len)) = zeroed_allocation(v, layout);
            let (u, x) = v.alloc_aligned(layout.size as int, layout.align as int);
            &&& w == u
            &&& ptr == 0 <==> x is None
            &&& x matches Some(p) ==> ptr == p
            &&& ptr == 0 ==> len == 0
            &&& ptr != 0 ==> {
                &&& len == layout.size
                &&& w.live(ptr)
                &&& !v.live(ptr)
                &&& w.usable(ptr) >= layout.size
                &&& ptr % (layout.align as int) == 0
                &&& orisnik_calls::zeroes(v, ptr, layout.size as int, mem)
            }
        }),
{
    law_alloc_layout(v, layout);
    orisnik_laws::law_alloc_aligned(v, layout.size as int, layout.align as int);
    let (w, (ptr, len)) = zeroed_allocation(v, layout);
    if ptr != 0 {
        orisnik_calls::lemma_zeroes(
            v,
            w,
            ptr,
            layout.size as int,
            SPLIT_REMAINDER_MIN as int,
            layout.size as int,
            mem,
        );
    }
}

/// A reallocation with a layout is answered with a payload that holds the new size at a multiple
/// of the alignment of the layout and, once the bytes told were moved, what the old one held.
/// Null says that the payload is untouched: for a size of zero, beyond the limit, and where
/// memory is lacking.
pub proof fn law_realloc_layout(
    v: OrisnikView,
    ptr: u64,
    layout: Layout,
    new_size: u64,
    mem: spec_fn(int) -> u8,
)
    requires
        v.ok(),
        v.live(ptr as int),
        layout.ok(),
    ensures
        ({
            let (w, (x, copied)) = reallocation(v, ptr, layout, new_size);
            let al = layout.align as int;
            &&& new_size == 0 ==> x == 0 && copied == 0 && w == v
            &&& x == 0 ==> w.buckets == v.buckets && w.tree == v.tree && w.live(ptr as int)
            &&& x == 0 && new_size > 0 ==> {
                ||| new_size > MAX_ALLOCATION
                ||| al > 8 && tree_model::normalized(new_size as int)->0 + al > MAX_ALLOCATION
                ||| !v.os.can_map(
                    orisnik_retry::lacking_move_aligned(v, ptr as int, new_size as int, al),
                )
            }
            &&& x != 0 ==> {
                &&& x % al == 0
                &&& orisnik_laws::moved_well(
                    v,
                    w,
                    Some((x, copied)),
                    ptr as int,
                    new_size as int,
                    SPLIT_REMAINDER_MIN as int,
                )
                &&& orisnik_laws::keeps_contents(
                    v,
                    ptr as int,
                    new_size as int,
                    x,
                    copied,
                    mem,
                )
            }
            &&& 0 < new_size <= v.usable(ptr as int) && al <= 8 ==> x == ptr && copied == 0
        }),
{
    reveal_with_fuel(power2::is_pow2, 2);
    let al = layout.align as int;
    let (w, (x, copied)) = reallocation(v, ptr, layout, new_size);
    orisnik_laws::law_live(v, ptr as int);
    if new_size > 0 {
        orisnik_laws::law_realloc_aligned(v, ptr, new_size as int, al);
        orisnik_laws::law_realloc_aligned_contents(v, ptr, new_size as int, al, mem);
        if al <= 8 {
            orisnik_laws::law_realloc(v, ptr, new_size as int);
        }
        if let Some((y, n)) = v.realloc_aligned(Some(ptr), new_size as int, al).1 {
            orisnik_laws::law_live(w, y);
        }
    }
}

} // verus!
