//! The allocator for containers, which ask with a layout and may ask for nothing.
//!
//! A layout of no bytes is answered with an address that is aligned but stands for no
//! memory, and such an address is never given back.

use crate::block::DEFAULT_ALIGNMENT;
use crate::orisnik::{Orisnik, Zeroed};
use crate::orisnik_calls;
use crate::orisnik_laws;
use crate::orisnik_model;
use crate::orisnik_model::OrisnikView;
use crate::orisnik_retry;
use crate::os;
use crate::tree_model;
use crate::tree_model::{MAX_ALLOCATION, SPLIT_REMAINDER_MIN};
use vstd::arithmetic::power2;
use vstd::prelude::*;

verus! {

/// A size and an alignment, which is a power of two.
#[derive(Clone, Copy, PartialEq, Eq, Structural, Debug)]
pub struct Layout {
    pub size: u64,
    pub align: u64,
}

impl Layout {
    pub open spec fn ok(self) -> bool {
        power2::is_pow2(self.align as int)
    }
}

/// Memory is lacking or the size is beyond the limit.
#[derive(Clone, Copy, PartialEq, Eq, Structural, Debug)]
pub struct AllocError;

/// A payload of `len` bytes, of which the first `copied` are to be moved there from where
/// it was, and the first `zeroed` are to be set to zero.
#[derive(Clone, Copy, PartialEq, Eq, Structural, Debug)]
pub struct Memory {
    pub ptr: u64,
    pub len: u64,
    pub copied: u64,
    pub zeroed: u64,
}

/// The answer to a request for nothing.
pub open spec fn dangling(layout: Layout) -> Memory {
    Memory { ptr: layout.align, len: 0, copied: 0, zeroed: 0 }
}

/// The answer of the allocator with the length that was asked for.
pub open spec fn answered(r: Option<(int, int)>, len: u64) -> Result<Memory, AllocError> {
    match r {
        Some((x, copied)) => Ok(Memory { ptr: x as u64, len, copied: copied as u64, zeroed: 0 }),
        None => Err(AllocError),
    }
}

/// The state and the answer after a request with `layout`.
pub open spec fn allocation(v: OrisnikView, layout: Layout) -> (OrisnikView, Result<Memory, AllocError>) {
    if layout.size == 0 {
        (v, Ok(dangling(layout)))
    } else {
        let (w, r) = v.alloc_aligned(layout.size as int, layout.align as int);
        (w, answered(orisnik_model::unmoved(r), layout.size))
    }
}

/// The state and the answer after a request with `layout` for zero bytes: all bytes of the
/// layout are to be set to zero.
pub open spec fn zeroed_allocation(v: OrisnikView, layout: Layout) -> (
    OrisnikView,
    Result<Memory, AllocError>,
) {
    let (w, r) = allocation(v, layout);
    (
        w,
        match r {
            Ok(m) => Ok(Memory { zeroed: layout.size, ..m }),
            Err(e) => Err(e),
        },
    )
}

/// The state and the answer after the payload at `ptr`, which has `old_layout`, was asked to
/// have `new_layout`.
pub open spec fn reallocation(v: OrisnikView, ptr: u64, old_layout: Layout, new_layout: Layout) -> (
    OrisnikView,
    Result<Memory, AllocError>,
) {
    if old_layout.size == 0 {
        allocation(v, new_layout)
    } else if new_layout.size == 0 {
        (v.freed(ptr as int), Ok(dangling(new_layout)))
    } else {
        let (w, r) = v.realloc_aligned(
            Some(ptr),
            new_layout.size as int,
            new_layout.align as int,
        );
        (w, answered(r, new_layout.size))
    }
}

fn dangling_for(layout: Layout) -> (r: Memory)
    ensures
        r == dangling(layout),
{
    Memory { ptr: layout.align, len: 0, copied: 0, zeroed: 0 }
}

/// Serves a payload with `layout`.
pub fn allocate(orisnik: &mut Orisnik, layout: Layout) -> (r: Result<Memory, AllocError>)
    requires
        old(orisnik).wf(),
        layout.ok(),
    ensures
        final(orisnik).wf(),
        (final(orisnik)@, r) == allocation(old(orisnik)@, layout),
{
    if layout.size == 0 {
        return Ok(dangling_for(layout));
    }
    let ptr = if layout.align <= DEFAULT_ALIGNMENT {
        orisnik.alloc_bytes(layout.size)
    } else {
        orisnik.alloc_aligned(layout.size, layout.align)
    };
    match ptr {
        Some(ptr) => Ok(Memory { ptr, len: layout.size, copied: 0, zeroed: 0 }),
        None => Err(AllocError),
    }
}

/// Serves a payload with `layout`, all of whose bytes are to be set to zero.
pub fn allocate_zeroed(orisnik: &mut Orisnik, layout: Layout) -> (r: Result<Memory, AllocError>)
    requires
        old(orisnik).wf(),
        layout.ok(),
    ensures
        final(orisnik).wf(),
        (final(orisnik)@, r) == zeroed_allocation(old(orisnik)@, layout),
{
    if layout.size == 0 {
        return Ok(dangling_for(layout));
    }
    let z = if layout.align <= DEFAULT_ALIGNMENT {
        orisnik.calloc(1, layout.size)
    } else {
        match orisnik.alloc_aligned(layout.size, layout.align) {
            Some(ptr) => Some(Zeroed { ptr, len: layout.size }),
            None => None,
        }
    };
    match z {
        Some(z) => Ok(Memory { ptr: z.ptr, len: layout.size, copied: 0, zeroed: z.len }),
        None => Err(AllocError),
    }
}

/// Gives back the payload at `ptr`, which has `layout`.
pub fn deallocate(orisnik: &mut Orisnik, ptr: u64, layout: Layout)
    requires
        old(orisnik).wf(),
        layout.size != 0 ==> old(orisnik)@.live(ptr as int),
    ensures
        final(orisnik).wf(),
        final(orisnik)@ == if layout.size == 0 {
            old(orisnik)@
        } else {
            old(orisnik)@.freed(ptr as int)
        },
{
    if layout.size == 0 {
        return ;
    }
    orisnik.free(Some(ptr));
}

/// Lets the payload at `ptr`, which has `old_layout`, have `new_layout`, neither of no bytes.
fn change(orisnik: &mut Orisnik, ptr: u64, new_layout: Layout) -> (r: Result<Memory, AllocError>)
    requires
        old(orisnik).wf(),
        old(orisnik)@.live(ptr as int),
        new_layout.ok(),
    ensures
        final(orisnik).wf(),
        ({
            let (w, m) = old(orisnik)@.realloc_aligned(
                Some(ptr),
                new_layout.size as int,
                new_layout.align as int,
            );
            final(orisnik)@ == w && r == answered(m, new_layout.size)
        }),
{
    let new_ptr = if new_layout.align <= DEFAULT_ALIGNMENT {
        orisnik.realloc(Some(ptr), new_layout.size)
    } else {
        orisnik.realloc_aligned(Some(ptr), new_layout.size, new_layout.align)
    };
    match new_ptr {
        Some(m) => Ok(
            Memory { ptr: m.ptr, len: new_layout.size, copied: m.copied, zeroed: 0 },
        ),
        None => Err(AllocError),
    }
}

/// Lets the payload at `ptr`, which has `old_layout`, have `new_layout`, which is not
/// smaller. Where there is no answer, the payload is untouched.
pub fn grow(orisnik: &mut Orisnik, ptr: u64, old_layout: Layout, new_layout: Layout) -> (r: Result<
    Memory,
    AllocError,
>)
    requires
        old(orisnik).wf(),
        old_layout.size != 0 ==> old(orisnik)@.live(ptr as int),
        new_layout.size >= old_layout.size,
        new_layout.align == old_layout.align,
        new_layout.ok(),
    ensures
        final(orisnik).wf(),
        (final(orisnik)@, r) == reallocation(old(orisnik)@, ptr, old_layout, new_layout),
{
    if old_layout.size == 0 {
        return allocate(orisnik, new_layout);
    }
    if new_layout.size == 0 {
        deallocate(orisnik, ptr, old_layout);
        return Ok(dangling_for(new_layout));
    }
    change(orisnik, ptr, new_layout)
}

/// Lets the payload at `ptr`, which has `old_layout`, have `new_layout`, which is not
/// larger.
pub fn shrink(orisnik: &mut Orisnik, ptr: u64, old_layout: Layout, new_layout: Layout) -> (r: Result<
    Memory,
    AllocError,
>)
    requires
        old(orisnik).wf(),
        old_layout.size != 0 ==> old(orisnik)@.live(ptr as int),
        new_layout.size <= old_layout.size,
        new_layout.align == old_layout.align,
        new_layout.ok(),
    ensures
        final(orisnik).wf(),
        (final(orisnik)@, r) == reallocation(old(orisnik)@, ptr, old_layout, new_layout),
{
    if old_layout.size == 0 {
        return Ok(dangling_for(new_layout));
    }
    if new_layout.size == 0 {
        deallocate(orisnik, ptr, old_layout);
        return Ok(dangling_for(new_layout));
    }
    change(orisnik, ptr, new_layout)
}

/// The alignments that a layout may have are the powers of two.
pub proof fn law_layout(layout: Layout)
    ensures
        layout.ok() <==> exists|n: nat| #[trigger] vstd::arithmetic::power::pow(2, n) == layout.align,
{
    power2::is_pow2_equiv(layout.align as int);
}

/// The answer stands for no memory but is not null and is at a multiple of the alignment of the
/// layout, the first there is, and neither bytes to be moved nor bytes to be set to zero are told.
pub open spec fn hollow(m: Memory, layout: Layout) -> bool {
    &&& m.ptr != 0
    &&& m.ptr == layout.align
    &&& m.ptr as int % layout.align as int == 0
    &&& m.len == 0
    &&& m.copied == 0
    &&& m.zeroed == 0
}

/// A request with a layout of no bytes is answered without memory. Another is answered if and
/// only if one for its size at its alignment is, with that payload, which is new, has the bytes
/// of the layout and is at a multiple of its alignment.
pub proof fn law_allocate(v: OrisnikView, layout: Layout)
    requires
        v.ok(),
        layout.ok(),
    ensures
        ({
            let (w, r) = allocation(v, layout);
            let (u, x) = v.alloc_aligned(layout.size as int, layout.align as int);
            &&& layout.size == 0 ==> w == v && r is Ok && hollow(r->Ok_0, layout)
            &&& layout.size > 0 ==> w == u && (r is Ok <==> x is Some)
            &&& r is Err ==> {
                &&& w.buckets == v.buckets
                &&& w.tree == v.tree
                &&& !orisnik_retry::within(layout.size as int, layout.align as int) || os::missed(
                    v.os,
                    w.os,
                    orisnik_retry::lacking_aligned(layout.size as int, layout.align as int),
                )
            }
            &&& r matches Ok(m) ==> {
                &&& m.ptr as int % layout.align as int == 0
                &&& m.len == layout.size
                &&& m.copied == 0
                &&& m.zeroed == 0
                &&& layout.size > 0 ==> x == Some(m.ptr as int) && orisnik_laws::served_well(
                    v,
                    w,
                    Some(m.ptr as int),
                    layout.size as int,
                    SPLIT_REMAINDER_MIN as int,
                )
            }
        }),
{
    reveal_with_fuel(power2::is_pow2, 2);
    let al = layout.align as int;
    vstd::arithmetic::div_mod::lemma_mod_self_0(al);
    orisnik_laws::law_alloc_aligned(v, layout.size as int, al);
    orisnik_calls::law_alloc_aligned_effect(v, layout.size as int, al);
    let (u, x) = v.alloc_aligned(layout.size as int, al);
    if let Some(p) = x {
        orisnik_laws::law_live(u, p);
    }
}

/// A zeroed request with a layout is answered as one that is not zeroed, with the same address
/// and length and the same state afterwards. Whatever the alignment, the bytes to be set to zero
/// are all that the layout has, and doing so touches no other payload.
pub proof fn law_allocate_zeroed(v: OrisnikView, layout: Layout, mem: spec_fn(int) -> u8)
    requires
        v.ok(),
        layout.ok(),
    ensures
        ({
            let (w, r) = zeroed_allocation(v, layout);
            let (u, p) = allocation(v, layout);
            &&& w == u
            &&& r is Ok <==> p is Ok
            &&& r matches Ok(m) ==> {
                &&& m.ptr == p->Ok_0.ptr
                &&& m.len == layout.size
                &&& m.copied == 0
                &&& m.zeroed == layout.size
                &&& m.ptr as int % layout.align as int == 0
                &&& layout.size > 0 ==> orisnik_calls::zeroes(
                    v,
                    m.ptr as int,
                    layout.size as int,
                    mem,
                )
            }
        }),
{
    law_allocate(v, layout);
    let (w, r) = zeroed_allocation(v, layout);
    if let Ok(m) = r {
        if layout.size > 0 {
            orisnik_calls::lemma_zeroes(
                v,
                w,
                m.ptr as int,
                layout.size as int,
                SPLIT_REMAINDER_MIN as int,
                layout.size as int,
                mem,
            );
        }
    }
}

/// Whenever a request to grow or to shrink is answered, the address is a multiple of the new
/// alignment, the length is the new size and, for a layout with bytes, the address is a payload
/// in use with at least that many.
pub proof fn law_grow_shrink(v: OrisnikView, ptr: u64, old_layout: Layout, new_layout: Layout)
    requires
        v.ok(),
        old_layout.size != 0 ==> v.live(ptr as int),
        new_layout.ok(),
    ensures
        reallocation(v, ptr, old_layout, new_layout).1 matches Ok(m) ==> {
            let w = reallocation(v, ptr, old_layout, new_layout).0;
            &&& m.ptr as int % new_layout.align as int == 0
            &&& m.len == new_layout.size
            &&& m.zeroed == 0
            &&& new_layout.size > 0 ==> w.live(m.ptr as int) && w.usable(m.ptr as int)
                >= new_layout.size
        },
{
    reveal_with_fuel(power2::is_pow2, 2);
    let size = new_layout.size as int;
    let al = new_layout.align as int;
    let (w, r) = reallocation(v, ptr, old_layout, new_layout);
    vstd::arithmetic::div_mod::lemma_mod_self_0(al);
    if old_layout.size == 0 {
        law_allocate(v, new_layout);
    } else if size > 0 {
        orisnik_laws::law_realloc_aligned(v, ptr, size, al);
        if let Some((x, copied)) = v.realloc_aligned(Some(ptr), size, al).1 {
            orisnik_laws::law_live(w, x);
        }
    }
}

/// A request to grow or to shrink is answered with memory of the new size at a multiple of the
/// new alignment. For a layout with bytes that is a payload in use with at least that many, and,
/// once the bytes told were moved, it has what the old one had. From no bytes it is a request,
/// to no bytes the payload is given back. Where there is no answer the payload is untouched: the
/// size is beyond the limit or memory is lacking.
pub proof fn law_reallocation(
    v: OrisnikView,
    ptr: u64,
    old_layout: Layout,
    new_layout: Layout,
    mem: spec_fn(int) -> u8,
)
    requires
        v.ok(),
        old_layout.size != 0 ==> v.live(ptr as int),
        new_layout.ok(),
    ensures
        ({
            let (w, r) = reallocation(v, ptr, old_layout, new_layout);
            let p = ptr as int;
            let size = new_layout.size as int;
            let al = new_layout.align as int;
            &&& old_layout.size == 0 ==> (w, r) == allocation(v, new_layout)
            &&& old_layout.size != 0 && size == 0 ==> {
                &&& r is Ok
                &&& hollow(r->Ok_0, new_layout)
                &&& w.os == v.os
                &&& forall|q: int| #![trigger w.live(q)] w.live(q) <==> v.live(q) && q != p
            }
            &&& r matches Ok(m) ==> {
                &&& m.ptr as int % al == 0
                &&& m.len == size
                &&& m.zeroed == 0
                &&& size > 0 ==> w.live(m.ptr as int) && w.usable(m.ptr as int) >= size
                &&& size > 0 && old_layout.size != 0 ==> {
                    &&& orisnik_laws::moved_well(
                        v,
                        w,
                        Some((m.ptr as int, m.copied as int)),
                        p,
                        size,
                        SPLIT_REMAINDER_MIN as int,
                    )
                    &&& orisnik_laws::keeps_contents(
                        v,
                        p,
                        size,
                        m.ptr as int,
                        m.copied as int,
                        mem,
                    )
                }
            }
            &&& r is Err ==> w.buckets == v.buckets && w.tree == v.tree
            &&& r is Err && old_layout.size != 0 ==> {
                ||| size > MAX_ALLOCATION
                ||| al > 8 && tree_model::normalized(size)->0 + al > MAX_ALLOCATION
                ||| !v.os.can_map(orisnik_retry::lacking_move_aligned(v, p, size, al))
            }
            &&& old_layout.size != 0 && 0 < size <= v.usable(p) && al <= 8 ==> (r matches Ok(m)
                && m.ptr == ptr && m.copied == 0)
        }),
{
    reveal_with_fuel(power2::is_pow2, 2);
    let p = ptr as int;
    let size = new_layout.size as int;
    let al = new_layout.align as int;
    vstd::arithmetic::div_mod::lemma_mod_self_0(al);
    law_allocate(v, new_layout);
    law_grow_shrink(v, ptr, old_layout, new_layout);
    let (w, r) = reallocation(v, ptr, old_layout, new_layout);
    if old_layout.size != 0 {
        orisnik_laws::law_live(v, p);
        if size == 0 {
            orisnik_laws::law_free(v, p);
        } else {
            orisnik_laws::law_realloc_aligned(v, ptr, size, al);
            orisnik_laws::law_realloc_aligned_contents(v, ptr, size, al, mem);
            if al <= 8 {
                orisnik_laws::law_realloc(v, ptr, size);
            }
            if let Some((x, copied)) = v.realloc_aligned(Some(ptr), size, al).1 {
                orisnik_laws::law_live(w, x);
            }
        }
    }
}

} // verus!
