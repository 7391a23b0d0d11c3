//! The allocator: small requests to the buckets, large ones to the tree.

use crate::align;
use crate::block::{DEFAULT_ALIGNMENT, HEADER_SIZE};
use crate::bucket::Buckets;
use crate::bucket_model;
use crate::orisnik_account;
use crate::orisnik_laws;
use crate::orisnik_model;
use crate::orisnik_model::OrisnikView;
use crate::os::{Mapping, Os, OsView};
use crate::page;
use crate::page::{MAX_SMALL_ALLOCATION, NUM_BUCKETS};
use crate::tree;
use crate::tree::{Relocation, Tree};
use crate::tree_laws;
use crate::tree_model;
use crate::tree_purge;
use vstd::arithmetic::power2;
use vstd::prelude::*;

verus! {

/// A payload of which the first `len` bytes are to be set to zero before it is used.
#[derive(Clone, Copy, PartialEq, Eq, Structural, Debug)]
pub struct Zeroed {
    pub ptr: u64,
    pub len: u64,
}

/// An optional payload to be zeroed as numbers.
pub open spec fn as_zeroed(r: Option<Zeroed>) -> Option<(int, int)> {
    match r {
        Some(z) => Some((z.ptr as int, z.len as int)),
        None => None,
    }
}

proof fn lemma_single_bit(a: u64)
    ensures
        a > 0 ==> (a & (a - 1) as u64 == 0 <==> power2::is_pow2(a as int)),
    decreases a,
{
    reveal_with_fuel(power2::is_pow2, 2);
    if a > 1 {
        let b = a / 2;
        lemma_single_bit(b);
        assert(a > 1 && a % 2 == 1 ==> a & (a - 1) as u64 != 0) by (bit_vector);
        assert(a > 1 && a % 2 == 0 ==> (a & (a - 1) as u64 == 0 <==> (a / 2) & (a / 2 - 1) as u64 == 0))
            by (bit_vector);
    } else if a == 1 {
        assert(1u64 & 0u64 == 0) by (bit_vector);
    }
}

/// Whether `alignment` is a power of two or zero.
pub fn is_hpha_alignment(alignment: u64) -> (r: bool)
    ensures
        r == orisnik_model::valid_alignment(alignment as int),
{
    proof {
        lemma_single_bit(alignment);
        let m = alignment.wrapping_sub(1);
        if alignment == 0 {
            assert(0u64 & m == 0) by (bit_vector);
        }
    }
    alignment & alignment.wrapping_sub(1) == 0
}

/// An allocator.
///
/// Requests are answered with addresses inside the memory that [`Orisnik::grant`] hands
/// over. One that lacks memory is answered with `None` and changes nothing but what
/// [`Orisnik::take_wanted`] then says: how many bytes to map and to hand over before the
/// request is made again. What [`Orisnik::take_released`] lists is to be unmapped.
pub struct Orisnik {
    buckets: Buckets,
    tree: Tree,
    os: Os,
}

impl View for Orisnik {
    type V = OrisnikView;

    closed spec fn view(&self) -> OrisnikView {
        OrisnikView { buckets: self.buckets@, tree: self.tree@, os: self.os@ }
    }
}

impl Orisnik {
    /// The two paths are in order.
    pub closed spec fn inv(&self) -> bool {
        self.buckets.wf() && self.tree.wf()
    }

    /// The allocator is in order.
    pub open spec fn wf(&self) -> bool {
        self.inv() && self@.ok()
    }

    /// An allocator that has no memory yet.
    pub fn new() -> (r: Self)
        ensures
            r.wf(),
            r@ == OrisnikView::empty(),
    {
        let r = Orisnik { buckets: Buckets::new(), tree: Tree::new(), os: Os::new() };
        proof {
            assert(r@ == OrisnikView::empty());
            orisnik_model::lemma_empty();
        }
        r
    }

    /// Takes over `[base, base + len)`, which the caller has mapped. Declined, with nothing
    /// changed, where it is not page-aligned, empty, null, above the address limit or
    /// overlaps memory that is already held.
    pub fn grant(&mut self, base: u64, len: u64) -> (r: bool)
        requires
            old(self).wf(),
        ensures
            final(self).wf(),
            r == old(self)@.os.accepts(Mapping { base, len }),
            final(self)@ == (OrisnikView {
                os: if r {
                    old(self)@.os.granted(Mapping { base, len })
                } else {
                    old(self)@.os
                },
                ..old(self)@
            }),
    {
        let ghost v = self@;
        proof {
            reveal(OrisnikView::ok);
            tree_model::lemma_agree_same(v.tree, v.tree, v.os);
            if v.os.accepts(Mapping { base, len }) {
                orisnik_model::lemma_granted(v, Mapping { base, len });
            }
        }
        self.os.grant(base, len)
    }

    /// The number of bytes that the last unanswered request lacked, if there was one since
    /// the last call.
    pub fn take_wanted(&mut self) -> (r: Option<u64>)
        requires
            old(self).wf(),
        ensures
            final(self).wf(),
            tree::as_int(r) == old(self)@.os.wanted,
            final(self)@ == (OrisnikView {
                os: OsView { wanted: None, ..old(self)@.os },
                ..old(self)@
            }),
    {
        let ghost v = self@;
        proof {
            assert(v.os.ok()) by {
                reveal(OrisnikView::ok);
                tree_model::lemma_agree_same(v.tree, v.tree, v.os);
            }
        }
        let r = self.os.take_wanted();
        proof {
            orisnik_model::lemma_notes(v, self.os@);
        }
        r
    }

    /// The mappings that were given back since the last call, in that order.
    pub fn take_released(&mut self) -> (r: Vec<Mapping>)
        requires
            old(self).wf(),
        ensures
            final(self).wf(),
            r@ == old(self)@.os.released,
            final(self)@ == (OrisnikView {
                os: OsView { released: Seq::empty(), ..old(self)@.os },
                ..old(self)@
            }),
    {
        let ghost v = self@;
        proof {
            assert(v.os.ok()) by {
                reveal(OrisnikView::ok);
                tree_model::lemma_agree_same(v.tree, v.tree, v.os);
            }
        }
        let r = self.os.take_released();
        proof {
            orisnik_model::lemma_notes(v, self.os@);
        }
        r
    }

    /// Serves a slot of the bucket at `bi`.
    fn from_bucket(&mut self, bi: u64) -> (r: Option<u64>)
        requires
            old(self).wf(),
            bi < NUM_BUCKETS,
        ensures
            final(self).wf(),
            (final(self)@, tree::as_int(r)) == old(self)@.from_bucket(bi as int),
    {
        let ghost v = self@;
        proof {
            reveal(OrisnikView::ok);
            orisnik_model::lemma_bucket_fed(v, bi as int);
        }
        self.buckets.alloc_direct(&mut self.os, bi)
    }

    /// Serves a block of the tree.
    fn from_tree(&mut self, size: u64) -> (r: Option<u64>)
        requires
            old(self).wf(),
        ensures
            final(self).wf(),
            (final(self)@, tree::as_int(r)) == old(self)@.from_tree(size as int),
    {
        let ghost v = self@;
        proof {
            reveal(OrisnikView::ok);
            orisnik_model::lemma_served_fed(v.tree, v.os, size as int);
        }
        let r = self.tree.alloc_bytes(&mut self.os, size);
        proof {
            orisnik_model::lemma_tree_fed(v, self@);
        }
        r
    }

    /// Serves a block of the tree at a multiple of `alignment`.
    fn from_tree_aligned(&mut self, size: u64, alignment: u64) -> (r: Option<u64>)
        requires
            old(self).wf(),
            power2::is_pow2(alignment as int),
        ensures
            final(self).wf(),
            (final(self)@, tree::as_int(r)) == old(self)@.from_tree_aligned(
                size as int,
                alignment as int,
            ),
    {
        let ghost v = self@;
        proof {
            reveal(OrisnikView::ok);
            orisnik_model::lemma_served_aligned_fed(
                v.tree,
                v.os,
                size as int,
                alignment as int,
            );
        }
        let r = self.tree.alloc_aligned(&mut self.os, size, alignment);
        proof {
            orisnik_model::lemma_tree_fed(v, self@);
        }
        r
    }

    /// Serves `size` bytes. `None`, with nothing changed, for no bytes, for more than the
    /// size arithmetic can carry, and where memory is lacking.
    pub fn alloc_bytes(&mut self, size: u64) -> (r: Option<u64>)
        requires
            old(self).wf(),
        ensures
            final(self).wf(),
            (final(self)@, tree::as_int(r)) == old(self)@.alloc_bytes(size as int),
    {
        if !page::is_small_allocation(size) {
            return self.from_tree(size);
        }
        if size == 0 {
            return None;
        }
        let size = page::clamp_small_allocation(size);
        self.from_bucket(page::bucket_spacing_function(size))
    }

    /// Serves `size` bytes at a multiple of `alignment`, which is a power of two, or zero
    /// for the default.
    pub fn alloc_aligned(&mut self, size: u64, alignment: u64) -> (r: Option<u64>)
        requires
            old(self).wf(),
            orisnik_model::valid_alignment(alignment as int),
        ensures
            final(self).wf(),
            (final(self)@, tree::as_int(r)) == old(self)@.alloc_aligned(
                size as int,
                alignment as int,
            ),
    {
        if alignment <= DEFAULT_ALIGNMENT {
            return self.alloc_bytes(size);
        }
        if size == 0 {
            return None;
        }
        if !page::is_small_allocation(size) || alignment > MAX_SMALL_ALLOCATION {
            return self.from_tree_aligned(size, alignment);
        }
        let size = page::clamp_small_allocation(size);
        proof {
            orisnik_model::lemma_rounded_small(size as int, alignment as int);
        }
        self.from_bucket(page::bucket_spacing_function(align::round_up(size, alignment)))
    }

    /// Serves `count` times `size` bytes, and says how many of them to set to zero. `None`
    /// where the product is zero or exceeds 64 bits, and as [`Orisnik::alloc_bytes`] says.
    pub fn calloc(&mut self, count: u64, size: u64) -> (r: Option<Zeroed>)
        requires
            old(self).wf(),
        ensures
            final(self).wf(),
            (final(self)@, as_zeroed(r)) == old(self)@.calloc(count as int, size as int),
    {
        let total = match count.checked_mul(size) {
            Some(t) => t,
            None => {
                return None;
            },
        };
        match self.alloc_bytes(total) {
            Some(ptr) => Some(Zeroed { ptr, len: total }),
            None => None,
        }
    }

    /// Gives the payload at `ptr` back.
    fn free_payload(&mut self, ptr: u64)
        requires
            old(self).wf(),
            old(self)@.live(ptr as int),
        ensures
            final(self).wf(),
            final(self)@ == old(self)@.freed(ptr as int),
    {
        let ghost v = self@;
        proof {
            orisnik_model::lemma_freed_ok(v, ptr as int);
            if v.tree.live(ptr as int) {
                orisnik_model::law_dispatch(v, ptr as int);
            }
        }
        if self.buckets.ptr_in_bucket(ptr) {
            self.buckets.free(ptr);
            return ;
        }
        self.tree.free(ptr);
    }

    /// Gives the payload at `ptr` back. Nothing is done for nothing.
    pub fn free(&mut self, ptr: Option<u64>)
        requires
            old(self).wf(),
            old(self)@.holds(ptr),
        ensures
            final(self).wf(),
            final(self)@ == old(self)@.free(ptr),
    {
        match ptr {
            Some(p) => {
                self.free_payload(p);
            },
            None => {},
        }
    }

    /// How many bytes the payload at `ptr` has; zero for nothing.
    pub fn size(&self, ptr: Option<u64>) -> (r: u64)
        requires
            self.wf(),
            self@.holds(ptr),
        ensures
            r == self@.size(ptr),
    {
        let ptr = match ptr {
            Some(p) => p,
            None => {
                return 0;
            },
        };
        proof {
            if self@.tree.live(ptr as int) {
                orisnik_model::law_dispatch(self@, ptr as int);
            }
        }
        if self.buckets.ptr_in_bucket(ptr) {
            return self.buckets.size(ptr);
        }
        self.tree.size(ptr)
    }

    /// Whether `ptr` is a payload in use.
    pub fn is_live(&self, ptr: u64) -> (r: bool)
        requires
            self.wf(),
        ensures
            r == self@.live(ptr as int),
    {
        self.buckets.is_live(ptr) || self.tree.is_live(ptr)
    }

    /// Whether `ptr` is a payload that a request for `size` bytes goes to, or any payload in
    /// use where `size` is zero.
    pub fn fits_request(&self, ptr: u64, size: u64) -> (r: bool)
        requires
            self.wf(),
        ensures
            r == self@.fits_request(ptr as int, size as int),
    {
        self.fits_aligned_request(ptr, size, 0)
    }

    /// The same for a request at a multiple of `alignment`.
    pub fn fits_aligned_request(&self, ptr: u64, size: u64, alignment: u64) -> (r: bool)
        requires
            self.wf(),
            orisnik_model::valid_alignment(alignment as int),
        ensures
            r == self@.fits_aligned_request(ptr as int, size as int, alignment as int),
    {
        if size == 0 {
            return self.is_live(ptr);
        }
        let alignment = if alignment == 0 {
            DEFAULT_ALIGNMENT
        } else {
            alignment
        };
        proof {
            reveal_with_fuel(power2::is_pow2, 5);
        }
        if page::is_small_allocation(size) && alignment <= MAX_SMALL_ALLOCATION {
            proof {
                orisnik_model::law_sized_class(size as int, alignment as int);
            }
            if !self.buckets.is_live(ptr) {
                return false;
            }
            let bi = page::bucket_spacing_function(align::round_up(size, alignment));
            return self.buckets.size(ptr) == page::bucket_spacing_function_inverse(bi);
        }
        self.tree.is_live(ptr)
    }

    /// Lets the slot at `ptr` hold `size` bytes as a slot.
    fn slot_realloc(&mut self, ptr: u64, size: u64) -> (r: Option<Relocation>)
        requires
            old(self).wf(),
            old(self)@.buckets.live(ptr as int),
            0 < size <= MAX_SMALL_ALLOCATION,
        ensures
            final(self).wf(),
            (final(self)@, tree::as_move(r)) == old(self)@.slot_realloc(ptr as int, size as int),
    {
        let ghost v = self@;
        proof {
            reveal(OrisnikView::ok);
        }
        let r = self.buckets.realloc(&mut self.os, ptr, size);
        proof {
            orisnik_laws::lemma_slot_realloc(v, ptr as int, size as int);
        }
        r
    }

    /// Gives the payload at `ptr` back where there is a new one for its bytes.
    fn move_to(&mut self, ptr: u64, new_ptr: Option<u64>, copied: u64) -> (r: Option<Relocation>)
        requires
            old(self).wf(),
            new_ptr is Some ==> old(self)@.live(ptr as int),
        ensures
            final(self).wf(),
            (final(self)@, tree::as_move(r)) == old(self)@.moved(
                ptr as int,
                tree::as_int(new_ptr),
                copied as int,
            ),
    {
        match new_ptr {
            Some(p) => {
                self.free_payload(ptr);
                Some(Relocation { ptr: p, copied })
            },
            None => None,
        }
    }

    /// Lets the payload at `ptr` hold `size` bytes, in place where that can be. Nothing
    /// becomes a request for `size` bytes, and a size of zero gives the payload back and
    /// returns `None`. Where memory is lacking, `None` is returned and the payload is
    /// untouched. The caller moves the bytes that the answer tells.
    pub fn realloc(&mut self, ptr: Option<u64>, size: u64) -> (r: Option<Relocation>)
        requires
            old(self).wf(),
            old(self)@.holds(ptr),
        ensures
            final(self).wf(),
            (final(self)@, tree::as_move(r)) == old(self)@.realloc(ptr, size as int),
    {
        let ghost v = self@;
        let ptr = match ptr {
            Some(p) => p,
            None => {
                return match self.alloc_bytes(size) {
                    Some(p) => Some(Relocation { ptr: p, copied: 0 }),
                    None => None,
                };
            },
        };
        if size == 0 {
            self.free_payload(ptr);
            return None;
        }
        proof {
            if v.tree.live(ptr as int) {
                orisnik_model::law_dispatch(v, ptr as int);
            }
        }
        if self.buckets.ptr_in_bucket(ptr) {
            let size = page::clamp_small_allocation(size);
            if page::is_small_allocation(size) {
                return self.slot_realloc(ptr, size);
            }
            let elem_size = self.buckets.size(ptr);
            let new_ptr = self.from_tree(size);
            return self.move_to(ptr, new_ptr, elem_size);
        }
        self.tree_realloc(ptr, size)
    }

    /// Lets the payload at `ptr` of the tree hold `size` bytes.
    fn tree_realloc(&mut self, ptr: u64, size: u64) -> (r: Option<Relocation>)
        requires
            old(self).wf(),
            old(self)@.tree.live(ptr as int),
        ensures
            final(self).wf(),
            ({
                let v = old(self)@;
                let (t, o, m) = v.tree.realloc(v.os, ptr - HEADER_SIZE, size as int);
                &&& final(self)@ == (OrisnikView { tree: t, os: o, ..v })
                &&& tree::as_move(r) == m
            }),
    {
        let ghost v = self@;
        proof {
            reveal(OrisnikView::ok);
            orisnik_model::lemma_realloc_fed(v.tree, v.os, ptr - HEADER_SIZE, size as int);
        }
        let r = self.tree.realloc(&mut self.os, ptr, size);
        proof {
            orisnik_model::lemma_tree_fed(v, self@);
        }
        r
    }

    /// Lets the payload at `ptr` of the tree, which is at a multiple of `alignment`, hold
    /// `size` bytes at one.
    fn tree_realloc_aligned(&mut self, ptr: u64, size: u64, alignment: u64) -> (r: Option<Relocation>)
        requires
            old(self).wf(),
            old(self)@.tree.live(ptr as int),
            power2::is_pow2(alignment as int),
            ptr as int % alignment as int == 0,
        ensures
            final(self).wf(),
            ({
                let v = old(self)@;
                let (t, o, m) = v.tree.realloc_aligned(
                    v.os,
                    ptr - HEADER_SIZE,
                    size as int,
                    alignment as int,
                );
                &&& final(self)@ == (OrisnikView { tree: t, os: o, ..v })
                &&& tree::as_move(r) == m
            }),
    {
        let ghost v = self@;
        proof {
            reveal(OrisnikView::ok);
            orisnik_model::lemma_realloc_aligned_fed(
                v.tree,
                v.os,
                ptr - HEADER_SIZE,
                size as int,
                alignment as int,
            );
        }
        let r = self.tree.realloc_aligned(&mut self.os, ptr, size, alignment);
        proof {
            orisnik_model::lemma_tree_fed(v, self@);
        }
        r
    }

    /// Moves the payload at `ptr` to one of `size` bytes at a multiple of `alignment`.
    fn move_aligned(&mut self, ptr: u64, size: u64, alignment: u64) -> (r: Option<Relocation>)
        requires
            old(self).wf(),
            old(self)@.live(ptr as int),
            orisnik_model::valid_alignment(alignment as int),
        ensures
            final(self).wf(),
            (final(self)@, tree::as_move(r)) == old(self)@.move_aligned(
                ptr as int,
                size as int,
                alignment as int,
            ),
    {
        proof {
            orisnik_laws::law_alloc_aligned(self@, size as int, alignment as int);
        }
        let new_ptr = self.alloc_aligned(size, alignment);
        assert(self@.live(ptr as int));
        let have = self.size(Some(ptr));
        let count = if have < size {
            have
        } else {
            size
        };
        self.move_to(ptr, new_ptr, count)
    }

    /// Lets the slot at `ptr`, which is at a multiple of `alignment`, hold `size` bytes at one:
    /// as it is where size and alignment are small and it is large enough, else by moving it.
    fn slot_realloc_aligned(&mut self, ptr: u64, size: u64, alignment: u64) -> (r: Option<Relocation>)
        requires
            old(self).wf(),
            old(self)@.buckets.live(ptr as int),
            power2::is_pow2(alignment as int),
        ensures
            final(self).wf(),
            (final(self)@, tree::as_move(r)) == old(self)@.slot_realloc_aligned(
                ptr as int,
                size as int,
                alignment as int,
            ),
    {
        if alignment <= MAX_SMALL_ALLOCATION && size <= self.buckets.size(ptr) {
            return Some(Relocation { ptr, copied: 0 });
        }
        self.move_aligned(ptr, size, alignment)
    }

    /// The same at a multiple of `alignment`, which is a power of two, or zero for the
    /// default. A payload that is not at one is moved.
    pub fn realloc_aligned(&mut self, ptr: Option<u64>, size: u64, alignment: u64) -> (r: Option<Relocation>)
        requires
            old(self).wf(),
            old(self)@.holds(ptr),
            orisnik_model::valid_alignment(alignment as int),
        ensures
            final(self).wf(),
            (final(self)@, tree::as_move(r)) == old(self)@.realloc_aligned(
                ptr,
                size as int,
                alignment as int,
            ),
    {
        let ghost v = self@;
        if alignment <= DEFAULT_ALIGNMENT {
            return self.realloc(ptr, size);
        }
        let ptr = match ptr {
            Some(p) => p,
            None => {
                return match self.alloc_aligned(size, alignment) {
                    Some(p) => Some(Relocation { ptr: p, copied: 0 }),
                    None => None,
                };
            },
        };
        if size == 0 {
            self.free_payload(ptr);
            return None;
        }
        proof {
            align::lemma_mask_is_mod(ptr, alignment);
            if v.tree.live(ptr as int) {
                orisnik_model::law_dispatch(v, ptr as int);
            }
        }
        if ptr & (alignment - 1) != 0 {
            return self.move_aligned(ptr, size, alignment);
        }
        if self.buckets.ptr_in_bucket(ptr) {
            let size = page::clamp_small_allocation(size);
            return self.slot_realloc_aligned(ptr, size, alignment);
        }
        self.tree_realloc_aligned(ptr, size, alignment)
    }

    /// Lets the payload at `ptr` hold `size` bytes as far as that can be without moving it,
    /// and returns the size that it has then; zero for nothing. A size of zero leaves the
    /// payload as it is.
    pub fn resize(&mut self, ptr: Option<u64>, size: u64) -> (r: u64)
        requires
            old(self).wf(),
            old(self)@.holds(ptr),
        ensures
            final(self).wf(),
            final(self)@ == old(self)@.resized(ptr, size as int),
            r == final(self)@.size(ptr),
    {
        let ghost v = self@;
        let ptr = match ptr {
            Some(p) => p,
            None => {
                return 0;
            },
        };
        proof {
            if v.tree.live(ptr as int) {
                orisnik_model::law_dispatch(v, ptr as int);
            }
        }
        if self.buckets.ptr_in_bucket(ptr) {
            return self.buckets.size(ptr);
        }
        proof {
            reveal(OrisnikView::ok);
            tree_laws::law_resized(v.tree, ptr as int, size as int);
            tree_model::lemma_agree_same(
                v.tree,
                v.tree.resized(ptr - HEADER_SIZE, size as int),
                v.os,
            );
            orisnik_model::lemma_covered_same(
                v.buckets,
                v.tree,
                v.buckets,
                v.tree.resized(ptr - HEADER_SIZE, size as int),
                v.os,
            );
        }
        self.tree.resize(ptr, size)
    }

    /// Gives back the payload at `ptr`, which answered a request for `orig_size` bytes. A
    /// size of zero, which no payload answers, is as [`Orisnik::free`]. Nothing is done for
    /// nothing.
    pub fn free_with_size(&mut self, ptr: Option<u64>, orig_size: u64)
        requires
            old(self).wf(),
            ptr matches Some(p) ==> old(self)@.fits_request(p as int, orig_size as int),
        ensures
            final(self).wf(),
            final(self)@ == old(self)@.free(ptr),
    {
        let ghost v = self@;
        let ptr = match ptr {
            Some(p) => p,
            None => {
                return ;
            },
        };
        if orig_size == 0 {
            self.free_payload(ptr);
            return ;
        }
        proof {
            orisnik_model::lemma_freed_ok(v, ptr as int);
            if v.tree.live(ptr as int) {
                orisnik_model::law_dispatch(v, ptr as int);
            }
        }
        if page::is_small_allocation(orig_size) {
            self.buckets.free_direct(ptr, page::bucket_spacing_function(orig_size));
            return ;
        }
        self.tree.free(ptr);
    }

    /// Gives back the payload at `ptr`, which answered a request for `orig_size` bytes at a
    /// multiple of `old_alignment`.
    pub fn free_with_size_aligned(&mut self, ptr: Option<u64>, orig_size: u64, old_alignment: u64)
        requires
            old(self).wf(),
            orisnik_model::valid_alignment(old_alignment as int),
            ptr matches Some(p) ==> old(self)@.fits_aligned_request(
                p as int,
                orig_size as int,
                old_alignment as int,
            ),
        ensures
            final(self).wf(),
            final(self)@ == old(self)@.free(ptr),
    {
        let ghost v = self@;
        let ptr = match ptr {
            Some(p) => p,
            None => {
                return ;
            },
        };
        if orig_size == 0 {
            self.free_payload(ptr);
            return ;
        }
        let old_alignment = if old_alignment == 0 {
            DEFAULT_ALIGNMENT
        } else {
            old_alignment
        };
        proof {
            orisnik_model::lemma_freed_ok(v, ptr as int);
            if v.tree.live(ptr as int) {
                orisnik_model::law_dispatch(v, ptr as int);
            }
            reveal_with_fuel(power2::is_pow2, 5);
        }
        if page::is_small_allocation(orig_size) && old_alignment <= MAX_SMALL_ALLOCATION {
            proof {
                orisnik_model::law_sized_class(orig_size as int, old_alignment as int);
            }
            self.buckets.free_direct(
                ptr,
                page::bucket_spacing_function(align::round_up(orig_size, old_alignment)),
            );
            return ;
        }
        self.tree.free(ptr);
    }

    /// Gives everything that is not in use back to the system: every arena and every page
    /// without a payload in use.
    pub fn purge(&mut self)
        requires
            old(self).wf(),
        ensures
            final(self).wf(),
            final(self)@ == old(self)@.purged(),
    {
        let ghost v = self@;
        proof {
            reveal(OrisnikView::ok);
            tree_purge::law_purged(v.tree, v.os);
        }
        self.tree.purge(&mut self.os);
        proof {
            tree_model::lemma_agree_same(self.tree@, self.tree@, self.os@);
            orisnik_model::lemma_tree_purged(v, self.os@, self.tree@);
        }
        let ghost o = self.os@;
        proof {
            bucket_model::law_purged(v.buckets, o);
        }
        self.buckets.purge(&mut self.os);
        proof {
            bucket_model::lemma_agree_fresh(self.buckets@, self.os@);
            orisnik_model::lemma_buckets_purged(
                v.buckets,
                self.tree@,
                o,
                self.buckets@,
                self.os@,
            );
        }
    }

    /// The bytes that the system has served and that were not given back.
    pub fn allocated(&self) -> (r: u64)
        requires
            self.wf(),
        ensures
            r == self@.allocated(),
    {
        proof {
            orisnik_account::law_allocated(self@);
            bucket_model::lemma_total(self@.buckets);
            tree_model::lemma_total_nonneg(self@.tree.mapped);
        }
        self.buckets.allocated() + self.tree.allocated()
    }
}

impl Default for Orisnik {
    fn default() -> (r: Self)
        ensures
            r.wf(),
            r@ == OrisnikView::empty(),
    {
        Orisnik::new()
    }
}

} // verus!
