//! The allocator with plain addresses, as C passes them: null stands for nothing.
//!
//! The handle is the allocator itself. A caller that owns real memory sets to zero and
//! moves what the answers tell.

use crate::orisnik::{Orisnik, Zeroed};
use crate::orisnik_calls;
use crate::orisnik_laws;
use crate::orisnik_model;
use crate::orisnik_model::OrisnikView;
use crate::orisnik_retry;
use crate::os;
use crate::tree;
use crate::tree::Relocation;
use crate::tree_model::{MAX_ALLOCATION, SPLIT_REMAINDER_MIN};
use vstd::prelude::*;

verus! {

/// The address that stands for nothing.
pub const NULL: u64 = 0;

/// An address that is not null.
pub open spec fn non_null(ptr: u64) -> Option<u64> {
    if ptr == NULL {
        None
    } else {
        Some(ptr)
    }
}

/// The address of an answer, null where there is none.
pub open spec fn or_null(r: Option<int>) -> int {
    match r {
        Some(x) => x,
        None => NULL as int,
    }
}

/// The move of an answer, of nothing to null where there is none.
pub open spec fn or_null_move(r: Option<(int, int)>) -> (int, int) {
    match r {
        Some(m) => m,
        None => (NULL as int, 0),
    }
}

fn as_option(ptr: u64) -> (r: Option<u64>)
    ensures
        r == non_null(ptr),
{
    if ptr == NULL {
        None
    } else {
        Some(ptr)
    }
}

fn as_address(r: Option<u64>) -> (a: u64)
    ensures
        a == or_null(tree::as_int(r)),
{
    match r {
        Some(x) => x,
        None => NULL,
    }
}

fn as_relocation(r: Option<Relocation>) -> (m: Relocation)
    ensures
        (m.ptr as int, m.copied as int) == or_null_move(tree::as_move(r)),
{
    match r {
        Some(m) => m,
        None => Relocation { ptr: NULL, copied: 0 },
    }
}

/// A fresh allocator.
pub fn oris_new() -> (handle: Orisnik)
    ensures
        handle.wf(),
        handle@ == OrisnikView::empty(),
{
    Orisnik::new()
}

/// Serves `size` bytes; null for no bytes and where memory is lacking.
pub fn oris_alloc(handle: &mut Orisnik, size: u64) -> (r: u64)
    requires
        old(handle).wf(),
    ensures
        final(handle).wf(),
        ({
            let (v, x) = old(handle)@.alloc_bytes(size as int);
            final(handle)@ == v && r == or_null(x)
        }),
{
    as_address(handle.alloc_bytes(size))
}

/// Serves `size` bytes at a multiple of `alignment`.
pub fn oris_alloc_aligned(handle: &mut Orisnik, size: u64, alignment: u64) -> (r: u64)
    requires
        old(handle).wf(),
        orisnik_model::valid_alignment(alignment as int),
    ensures
        final(handle).wf(),
        ({
            let (v, x) = old(handle)@.alloc_aligned(size as int, alignment as int);
            final(handle)@ == v && r == or_null(x)
        }),
{
    as_address(handle.alloc_aligned(size, alignment))
}

/// Serves `count` times `size` bytes, of which the answer tells how many to set to zero.
pub fn oris_calloc(handle: &mut Orisnik, count: u64, size: u64) -> (r: Zeroed)
    requires
        old(handle).wf(),
    ensures
        final(handle).wf(),
        ({
            let (v, z) = old(handle)@.calloc(count as int, size as int);
            final(handle)@ == v && (r.ptr as int, r.len as int) == or_null_move(z)
        }),
{
    match handle.calloc(count, size) {
        Some(z) => z,
        None => Zeroed { ptr: NULL, len: 0 },
    }
}

/// Lets the payload at `ptr` hold `size` bytes.
pub fn oris_realloc(handle: &mut Orisnik, ptr: u64, size: u64) -> (r: Relocation)
    requires
        old(handle).wf(),
        old(handle)@.holds(non_null(ptr)),
    ensures
        final(handle).wf(),
        ({
            let (v, m) = old(handle)@.realloc(non_null(ptr), size as int);
            final(handle)@ == v && (r.ptr as int, r.copied as int) == or_null_move(m)
        }),
{
    as_relocation(handle.realloc(as_option(ptr), size))
}

/// Lets the payload at `ptr` hold `size` bytes at a multiple of `alignment`.
pub fn oris_realloc_aligned(handle: &mut Orisnik, ptr: u64, size: u64, alignment: u64) -> (r: Relocation)
    requires
        old(handle).wf(),
        old(handle)@.holds(non_null(ptr)),
        orisnik_model::valid_alignment(alignment as int),
    ensures
        final(handle).wf(),
        ({
            let (v, m) = old(handle)@.realloc_aligned(
                non_null(ptr),
                size as int,
                alignment as int,
            );
            final(handle)@ == v && (r.ptr as int, r.copied as int) == or_null_move(m)
        }),
{
    as_relocation(handle.realloc_aligned(as_option(ptr), size, alignment))
}

/// Lets the payload at `ptr` hold `size` bytes without moving it, as far as that goes, and
/// returns the size that it has then; zero for null.
pub fn oris_resize(handle: &mut Orisnik, ptr: u64, size: u64) -> (r: u64)
    requires
        old(handle).wf(),
        old(handle)@.holds(non_null(ptr)),
    ensures
        final(handle).wf(),
        final(handle)@ == old(handle)@.resized(non_null(ptr), size as int),
        r == final(handle)@.size(non_null(ptr)),
{
    handle.resize(as_option(ptr), size)
}

/// How many bytes the payload at `ptr` has; zero for null.
pub fn oris_size(handle: &Orisnik, ptr: u64) -> (r: u64)
    requires
        handle.wf(),
        handle@.holds(non_null(ptr)),
    ensures
        r == handle@.size(non_null(ptr)),
{
    handle.size(as_option(ptr))
}

/// Gives the payload at `ptr` back; nothing is done for null.
pub fn oris_free(handle: &mut Orisnik, ptr: u64)
    requires
        old(handle).wf(),
        old(handle)@.holds(non_null(ptr)),
    ensures
        final(handle).wf(),
        final(handle)@ == old(handle)@.free(non_null(ptr)),
{
    handle.free(as_option(ptr));
}

/// Gives back the payload at `ptr`, which answered a request for `orig_size` bytes.
pub fn oris_free_with_size(handle: &mut Orisnik, ptr: u64, orig_size: u64)
    requires
        old(handle).wf(),
        ptr != NULL ==> old(handle)@.fits_request(ptr as int, orig_size as int),
    ensures
        final(handle).wf(),
        final(handle)@ == old(handle)@.free(non_null(ptr)),
{
    handle.free_with_size(as_option(ptr), orig_size);
}

/// Gives back the payload at `ptr`, which answered a request for `orig_size` bytes at a
/// multiple of `old_alignment`.
pub fn oris_free_with_size_aligned(handle: &mut Orisnik, ptr: u64, orig_size: u64, old_alignment: u64)
    requires
        old(handle).wf(),
        orisnik_model::valid_alignment(old_alignment as int),
        ptr != NULL ==> old(handle)@.fits_aligned_request(
            ptr as int,
            orig_size as int,
            old_alignment as int,
        ),
    ensures
        final(handle).wf(),
        final(handle)@ == old(handle)@.free(non_null(ptr)),
{
    handle.free_with_size_aligned(as_option(ptr), orig_size, old_alignment);
}

/// Gives everything that is not in use back to the system.
pub fn oris_purge(handle: &mut Orisnik)
    requires
        old(handle).wf(),
    ensures
        final(handle).wf(),
        final(handle)@ == old(handle)@.purged(),
{
    handle.purge();
}

/// The bytes that the system has served and that were not given back.
pub fn oris_allocated(handle: &Orisnik) -> (r: u64)
    requires
        handle.wf(),
    ensures
        r == handle@.allocated(),
{
    handle.allocated()
}

/// Zero, and no other address, stands for nothing.
pub proof fn law_null(ptr: u64, x: int, n: int)
    ensures
        non_null(0) is None,
        ptr != 0 ==> non_null(ptr) == Some(ptr),
        or_null(None) == 0,
        or_null(Some(x)) == x,
        or_null_move(None) == (0int, 0int),
        or_null_move(Some((x, n))) == (x, n),
{
}

/// A request is answered with null if and only if there is no payload for it: for no bytes,
/// beyond the limit, or where memory is lacking. Else the answer is a new payload that is
/// large enough.
pub proof fn law_oris_alloc(v: OrisnikView, size: u64)
    requires
        v.ok(),
    ensures
        ({
            let (w, x) = v.alloc_bytes(size as int);
            let r = or_null(x);
            &&& r == 0 <==> x is None
            &&& r != 0 ==> {
                &&& w.live(r)
                &&& !v.live(r)
                &&& w.usable(r) >= size
                &&& r % 8 == 0
            }
            &&& r == 0 ==> w.buckets == v.buckets && w.tree == v.tree
            &&& r == 0 ==> size == 0 || size > MAX_ALLOCATION || os::missed(
                v.os,
                w.os,
                orisnik_retry::lacking(size as int),
            )
        }),
{
    orisnik_laws::law_alloc(v, size as int);
    orisnik_calls::law_alloc_effect(v, size as int);
    let (w, x) = v.alloc_bytes(size as int);
    if let Some(p) = x {
        orisnik_laws::law_live(w, p);
    }
}

/// The same for an aligned request, whose answer is at a multiple of the alignment.
pub proof fn law_oris_alloc_aligned(v: OrisnikView, size: u64, alignment: u64)
    requires
        v.ok(),
        orisnik_model::valid_alignment(alignment as int),
    ensures
        ({
            let (w, x) = v.alloc_aligned(size as int, alignment as int);
            let r = or_null(x);
            &&& r == 0 <==> x is None
            &&& r != 0 ==> {
                &&& w.live(r)
                &&& !v.live(r)
                &&& w.usable(r) >= size
                &&& alignment > 0 ==> r % (alignment as int) == 0
            }
            &&& r == 0 ==> w.buckets == v.buckets && w.tree == v.tree
            &&& r == 0 ==> !orisnik_retry::within(size as int, alignment as int) || os::missed(
                v.os,
                w.os,
                orisnik_retry::lacking_aligned(size as int, alignment as int),
            )
        }),
{
    orisnik_laws::law_alloc_aligned(v, size as int, alignment as int);
    orisnik_calls::law_alloc_aligned_effect(v, size as int, alignment as int);
    let (w, x) = v.alloc_aligned(size as int, alignment as int);
    if let Some(p) = x {
        orisnik_laws::law_live(w, p);
    }
}

/// A zeroed request is answered with the address that a request for the product is answered
/// with, and with all bytes of the product to be set to zero; with null and no bytes where the
/// product is zero or exceeds 64 bits.
pub proof fn law_oris_calloc(v: OrisnikView, count: u64, size: u64)
    requires
        v.ok(),
    ensures
        ({
            let total = count as int * size as int;
            let (w, z) = v.calloc(count as int, size as int);
            let (ptr, len) = or_null_move(z);
            &&& total == 0 || total > u64::MAX ==> ptr == 0 && len == 0 && w == v
            &&& 0 < total <= u64::MAX ==> {
                &&& w == v.alloc_bytes(total).0
                &&& ptr == or_null(v.alloc_bytes(total).1)
            }
            &&& ptr != 0 ==> len == total && w.live(ptr) && w.usable(ptr) >= total
            &&& ptr == 0 ==> len == 0 && w.buckets == v.buckets && w.tree == v.tree
        }),
{
    orisnik_laws::law_calloc(v, count as int, size as int);
    let (w, z) = v.calloc(count as int, size as int);
    if let Some((p, len)) = z {
        orisnik_laws::law_live(w, p);
    }
}

/// A reallocation of null is a request, one to no bytes gives the payload back and answers
/// null, and another answers with a payload that holds the size and, once the bytes told were
/// moved, what the old one held; with null where that is beyond the limit or memory is lacking,
/// and the payload is untouched then.
pub proof fn law_oris_realloc(v: OrisnikView, ptr: u64, size: u64, mem: spec_fn(int) -> u8)
    requires
        v.ok(),
        v.holds(non_null(ptr)),
    ensures
        ({
            let (w, m) = v.realloc(non_null(ptr), size as int);
            let (x, copied) = or_null_move(m);
            &&& ptr == 0 ==> {
                &&& w == v.alloc_bytes(size as int).0
                &&& x == or_null(v.alloc_bytes(size as int).1)
                &&& copied == 0
            }
            &&& ptr != 0 && size == 0 ==> {
                &&& x == 0
                &&& forall|q: int| #![trigger w.live(q)] w.live(q) <==> v.live(q) && q != ptr
            }
            &&& ptr != 0 && size > 0 && x != 0 ==> {
                &&& orisnik_laws::moved_well(v, w, Some((x, copied)), ptr as int, size as int, 0)
                &&& orisnik_laws::keeps_contents(v, ptr as int, size as int, x, copied, mem)
            }
            &&& ptr != 0 && 0 < size <= v.usable(ptr as int) ==> x == ptr && copied == 0
            &&& ptr != 0 && size > 0 && x == 0 ==> {
                &&& w.buckets == v.buckets && w.tree == v.tree
                &&& size > MAX_ALLOCATION || !v.os.can_map(
                    orisnik_retry::lacking_move(v, ptr as int, size as int),
                )
            }
        }),
{
    let (w, m) = v.realloc(non_null(ptr), size as int);
    if ptr == 0 {
        orisnik_calls::law_realloc_nothing(v, size as int);
    } else {
        orisnik_laws::law_realloc(v, ptr, size as int);
        orisnik_laws::law_free(v, ptr as int);
        orisnik_laws::law_live(v, ptr as int);
        if size > 0 {
            orisnik_laws::law_realloc_contents(v, ptr, size as int, mem);
            if let Some((x, copied)) = m {
                orisnik_laws::law_live(w, x);
            }
        }
    }
}

/// The same for an aligned reallocation, whose answer is at a multiple of the alignment.
pub proof fn law_oris_realloc_aligned(
    v: OrisnikView,
    ptr: u64,
    size: u64,
    alignment: u64,
    mem: spec_fn(int) -> u8,
)
    requires
        v.ok(),
        v.holds(non_null(ptr)),
        orisnik_model::valid_alignment(alignment as int),
    ensures
        ({
            let al = alignment as int;
            let (w, m) = v.realloc_aligned(non_null(ptr), size as int, al);
            let (x, copied) = or_null_move(m);
            &&& ptr == 0 ==> {
                &&& w == v.alloc_aligned(size as int, al).0
                &&& x == or_null(v.alloc_aligned(size as int, al).1)
                &&& copied == 0
            }
            &&& ptr != 0 && size == 0 ==> {
                &&& x == 0
                &&& forall|q: int| #![trigger w.live(q)] w.live(q) <==> v.live(q) && q != ptr
            }
            &&& x != 0 && al > 0 ==> x % al == 0
            &&& ptr != 0 && size > 0 && x != 0 ==> {
                &&& orisnik_laws::moved_well(
                    v,
                    w,
                    Some((x, copied)),
                    ptr as int,
                    size as int,
                    SPLIT_REMAINDER_MIN as int,
                )
                &&& orisnik_laws::keeps_contents(v, ptr as int, size as int, x, copied, mem)
            }
            &&& ptr != 0 && size > 0 && x == 0 ==> w.buckets == v.buckets && w.tree == v.tree
        }),
{
    let al = alignment as int;
    let (w, m) = v.realloc_aligned(non_null(ptr), size as int, al);
    if ptr == 0 {
        orisnik_calls::law_realloc_nothing_aligned(v, size as int, al);
    } else {
        orisnik_laws::law_realloc_aligned(v, ptr, size as int, al);
        orisnik_laws::law_free(v, ptr as int);
        if size > 0 {
            orisnik_laws::law_realloc_aligned_contents(v, ptr, size as int, al, mem);
            if let Some((x, copied)) = m {
                orisnik_laws::law_live(w, x);
            }
        }
    }
}

/// Null has no bytes, and giving it back or asking it to change its size changes nothing.
/// Another address is a payload, which has its bytes, is out of use once it is given back, and
/// stays in use when its size is changed.
pub proof fn law_oris_free(v: OrisnikView, ptr: u64, size: u64)
    requires
        v.ok(),
        v.holds(non_null(ptr)),
    ensures
        ptr == 0 ==> {
            &&& v.size(non_null(ptr)) == 0
            &&& v.free(non_null(ptr)) == v
            &&& v.resized(non_null(ptr), size as int) == v
        },
        ptr != 0 ==> {
            let w = v.free(non_null(ptr));
            let u = v.resized(non_null(ptr), size as int);
            &&& v.size(non_null(ptr)) == v.usable(ptr as int)
            &&& forall|q: int| #![trigger w.live(q)] w.live(q) <==> v.live(q) && q != ptr
            &&& forall|q: int| #![trigger u.live(q)] u.live(q) <==> v.live(q)
        },
{
    if ptr != 0 {
        orisnik_laws::law_free(v, ptr as int);
        orisnik_laws::law_resize(v, ptr, size as int);
    }
}

} // verus!
