//! The allocator as a mathematical state, and what each operation makes of it.

use crate::align;
use crate::block;
use crate::block::{DEFAULT_ALIGNMENT, HEADER_SIZE};
use crate::bucket_model;
use crate::bucket_model::BucketsView;
use crate::os;
use crate::os::{Mapping, OsView, PAGE_SIZE};
use crate::page;
use crate::page::MAX_SMALL_ALLOCATION;
use crate::tree_laws;
use crate::tree_model;
use crate::tree_model::TreeView;
use crate::tree_purge;
use crate::tree_steps;
use vstd::arithmetic::power2;
use vstd::prelude::*;

verus! {

/// The state of the allocator: the two paths, and the system that both take memory from.
pub struct OrisnikView {
    pub buckets: BucketsView,
    pub tree: TreeView,
    pub os: OsView,
}

/// Whether `alignment` can be asked for: zero, which stands for the default, or a power of
/// two.
pub open spec fn valid_alignment(alignment: int) -> bool {
    alignment == 0 || power2::is_pow2(alignment)
}

/// The smaller of two numbers.
pub open spec fn smaller(a: int, b: int) -> int {
    if a <= b {
        a
    } else {
        b
    }
}

/// The bucket that serves a small request of `size` bytes.
pub open spec fn plain_class(size: int) -> int {
    page::class_of(page::clamped(size))
}

/// The bucket that serves a small request of `size` bytes at a multiple of `alignment`.
pub open spec fn aligned_class(size: int, alignment: int) -> int {
    page::class_of(align::rounded_up(page::clamped(size), alignment))
}

/// The answer to a request as the outcome of a reallocation that moves nothing.
pub open spec fn unmoved(r: Option<int>) -> Option<(int, int)> {
    match r {
        Some(x) => Some((x, 0)),
        None => None,
    }
}

/// No page of a bucket is an arena of the tree.
pub open spec fn separate(b: BucketsView, t: TreeView) -> bool {
    forall|p: int| #[trigger] b.pages.contains_key(p) ==> !t.mapped.contains(page::mapping_of(p))
}

/// Every mapping that is held is on offer, a page of a bucket or an arena of the tree.
#[verifier::opaque]
pub open spec fn covered(b: BucketsView, t: TreeView, o: OsView) -> bool {
    forall|m: Mapping| #[trigger]
        o.held.contains(m) ==> o.grants.contains(m) || bucket_model::maps(b, m) || t.mapped.contains(m)
}

impl OrisnikView {
    /// The state of an allocator that has nothing yet.
    pub open spec fn empty() -> OrisnikView {
        OrisnikView {
            buckets: BucketsView::empty(),
            tree: TreeView::empty(),
            os: OsView {
                grants: Seq::empty(),
                held: Seq::empty(),
                released: Seq::empty(),
                wanted: None,
            },
        }
    }

    /// Both paths are in order, agree with the system on what it has served, share none of
    /// it, and have all of it.
    #[verifier::opaque]
    pub open spec fn ok(self) -> bool {
        &&& self.buckets.ok()
        &&& self.tree.ok()
        &&& self.tree.all_mapped()
        &&& bucket_model::agree(self.buckets, self.os)
        &&& tree_model::agree(self.tree, self.os)
        &&& separate(self.buckets, self.tree)
        &&& covered(self.buckets, self.tree, self.os)
    }

    /// Whether `ptr` is a payload in use.
    pub open spec fn live(self, ptr: int) -> bool {
        self.buckets.live(ptr) || self.tree.live(ptr)
    }

    /// How many bytes the payload at `ptr` has.
    pub open spec fn usable(self, ptr: int) -> int {
        if self.buckets.owns(ptr) {
            self.buckets.usable(ptr)
        } else {
            self.tree.usable(ptr)
        }
    }

    /// Whether `ptr` is nothing, or a payload in use.
    pub open spec fn holds(self, ptr: Option<u64>) -> bool {
        ptr matches Some(p) ==> self.live(p as int)
    }

    /// The bytes that the system has served.
    pub open spec fn allocated(self) -> int {
        self.buckets.total() + tree_model::total(self.tree.mapped)
    }

    /// After a request to the bucket at `bi`.
    pub open spec fn from_bucket(self, bi: int) -> (OrisnikView, Option<int>) {
        let (b, o, r) = self.buckets.served(self.os, bi);
        (OrisnikView { buckets: b, os: o, ..self }, r)
    }

    /// After a request to the tree for `size` bytes.
    pub open spec fn from_tree(self, size: int) -> (OrisnikView, Option<int>) {
        let (t, o, r) = self.tree.served(self.os, size);
        (OrisnikView { tree: t, os: o, ..self }, r)
    }

    /// After a request to the tree for `size` bytes at a multiple of `alignment`.
    pub open spec fn from_tree_aligned(self, size: int, alignment: int) -> (
        OrisnikView,
        Option<int>,
    ) {
        let (t, o, r) = self.tree.served_aligned(self.os, size, alignment);
        (OrisnikView { tree: t, os: o, ..self }, r)
    }

    /// After a request for `size` bytes, and the payload that answers it. Small requests go
    /// to the buckets, others to the tree, and nothing is served for nothing.
    pub open spec fn alloc_bytes(self, size: int) -> (OrisnikView, Option<int>) {
        if size > MAX_SMALL_ALLOCATION {
            self.from_tree(size)
        } else if size == 0 {
            (self, None)
        } else {
            self.from_bucket(plain_class(size))
        }
    }

    /// After a request for `size` bytes at a multiple of `alignment`. An alignment up to the
    /// default asks for nothing beyond it.
    pub open spec fn alloc_aligned(self, size: int, alignment: int) -> (OrisnikView, Option<int>) {
        if alignment <= DEFAULT_ALIGNMENT {
            self.alloc_bytes(size)
        } else if size == 0 {
            (self, None)
        } else if size > MAX_SMALL_ALLOCATION || alignment > MAX_SMALL_ALLOCATION {
            self.from_tree_aligned(size, alignment)
        } else {
            self.from_bucket(aligned_class(size, alignment))
        }
    }

    /// After a request for `count` times `size` bytes, and the payload that answers it with
    /// the number of bytes to be set to zero.
    pub open spec fn calloc(self, count: int, size: int) -> (OrisnikView, Option<(int, int)>) {
        if count * size > u64::MAX {
            (self, None)
        } else {
            let (v, r) = self.alloc_bytes(count * size);
            (
                v,
                match r {
                    Some(x) => Some((x, count * size)),
                    None => None,
                },
            )
        }
    }

    /// With the payload at `ptr` given back.
    pub open spec fn freed(self, ptr: int) -> OrisnikView {
        if self.buckets.owns(ptr) {
            OrisnikView { buckets: self.buckets.freed(ptr), ..self }
        } else {
            OrisnikView { tree: self.tree.freed(ptr - HEADER_SIZE), ..self }
        }
    }

    /// With the payload at `ptr`, if there is one, given back.
    pub open spec fn free(self, ptr: Option<u64>) -> OrisnikView {
        match ptr {
            Some(p) => self.freed(p as int),
            None => self,
        }
    }

    /// The outcome of moving the payload at `ptr` to `r`, where there is one, with `copied`
    /// bytes.
    pub open spec fn moved(self, ptr: int, r: Option<int>, copied: int) -> (
        OrisnikView,
        Option<(int, int)>,
    ) {
        match r {
            Some(x) => (self.freed(ptr), Some((x, copied))),
            None => (self, None),
        }
    }

    /// After the slot at `ptr` was asked to hold `size` bytes as a slot.
    pub open spec fn slot_realloc(self, ptr: int, size: int) -> (OrisnikView, Option<(int, int)>) {
        let (b, o, r) = self.buckets.realloc(self.os, ptr, size);
        (OrisnikView { buckets: b, os: o, ..self }, r)
    }

    /// After the payload at `ptr` was asked to hold `size` bytes, the address then, and how
    /// many bytes have to be moved there. Nothing becomes a request, and a size of zero
    /// gives the payload back.
    pub open spec fn realloc(self, ptr: Option<u64>, size: int) -> (
        OrisnikView,
        Option<(int, int)>,
    ) {
        match ptr {
            None => {
                let (v, r) = self.alloc_bytes(size);
                (v, unmoved(r))
            },
            Some(p) => if size == 0 {
                (self.freed(p as int), None)
            } else if self.buckets.owns(p as int) {
                let size = page::clamped(size);
                if size <= MAX_SMALL_ALLOCATION {
                    self.slot_realloc(p as int, size)
                } else {
                    let (v, r) = self.from_tree(size);
                    v.moved(p as int, r, self.buckets.usable(p as int))
                }
            } else {
                let (t, o, r) = self.tree.realloc(self.os, p - HEADER_SIZE, size);
                (OrisnikView { tree: t, os: o, ..self }, r)
            },
        }
    }

    /// After the payload at `ptr` was moved to one of `size` bytes at a multiple of
    /// `alignment`.
    pub open spec fn move_aligned(self, ptr: int, size: int, alignment: int) -> (
        OrisnikView,
        Option<(int, int)>,
    ) {
        let (v, r) = self.alloc_aligned(size, alignment);
        v.moved(ptr, r, smaller(v.usable(ptr), size))
    }

    /// After the slot at `ptr`, which is at a multiple of `alignment`, was asked to hold
    /// `size` bytes at one. It stays where size and alignment are small and it is large
    /// enough, and is moved else.
    pub open spec fn slot_realloc_aligned(self, ptr: int, size: int, alignment: int) -> (
        OrisnikView,
        Option<(int, int)>,
    ) {
        if size <= self.buckets.usable(ptr) && alignment <= MAX_SMALL_ALLOCATION {
            (self, Some((ptr, 0)))
        } else {
            self.move_aligned(ptr, size, alignment)
        }
    }

    /// The same at a multiple of `alignment`. A payload that is not at one is moved.
    pub open spec fn realloc_aligned(self, ptr: Option<u64>, size: int, alignment: int) -> (
        OrisnikView,
        Option<(int, int)>,
    ) {
        if alignment <= DEFAULT_ALIGNMENT {
            self.realloc(ptr, size)
        } else {
            match ptr {
                None => {
                    let (v, r) = self.alloc_aligned(size, alignment);
                    (v, unmoved(r))
                },
                Some(p) => if size == 0 {
                    (self.freed(p as int), None)
                } else if p as int % alignment != 0 {
                    self.move_aligned(p as int, size, alignment)
                } else if self.buckets.owns(p as int) {
                    self.slot_realloc_aligned(p as int, page::clamped(size), alignment)
                } else {
                    let (t, o, r) = self.tree.realloc_aligned(
                        self.os,
                        p - HEADER_SIZE,
                        size,
                        alignment,
                    );
                    (OrisnikView { tree: t, os: o, ..self }, r)
                },
            }
        }
    }

    /// After the payload at `ptr` was asked to hold `size` bytes without moving. A slot
    /// stays as it is, and a size of zero changes nothing.
    pub open spec fn resized(self, ptr: Option<u64>, size: int) -> OrisnikView {
        match ptr {
            Some(p) if !self.buckets.owns(p as int) => OrisnikView {
                tree: self.tree.resized(p - HEADER_SIZE, size),
                ..self
            },
            _ => self,
        }
    }

    /// The size of the payload at `ptr`, zero for nothing.
    pub open spec fn size(self, ptr: Option<u64>) -> int {
        match ptr {
            Some(p) => self.usable(p as int),
            None => 0,
        }
    }

    /// Whether `ptr` is a payload that a request for `size` bytes goes to, or any payload
    /// where `size` is zero, which no payload was asked for with.
    pub open spec fn fits_request(self, ptr: int, size: int) -> bool {
        if size == 0 {
            self.live(ptr)
        } else if size <= MAX_SMALL_ALLOCATION {
            self.buckets.live(ptr) && self.buckets.bucket(ptr) == plain_class(size)
        } else {
            self.tree.live(ptr)
        }
    }

    /// The same for a request at a multiple of `alignment`.
    pub open spec fn fits_aligned_request(self, ptr: int, size: int, alignment: int) -> bool {
        if alignment <= DEFAULT_ALIGNMENT {
            self.fits_request(ptr, size)
        } else if size == 0 {
            self.live(ptr)
        } else if size <= MAX_SMALL_ALLOCATION && alignment <= MAX_SMALL_ALLOCATION {
            self.buckets.live(ptr) && self.buckets.bucket(ptr) == aligned_class(size, alignment)
        } else {
            self.tree.live(ptr)
        }
    }

    /// After everything that is not in use was given back to the system.
    pub open spec fn purged(self) -> OrisnikView {
        let (t, o) = self.tree.purged(self.os);
        let (b, o1) = self.buckets.purged(o);
        OrisnikView { buckets: b, tree: t, os: o1 }
    }
}

/// One mapping of `len` bytes was asked for, and the heap has it if there was one.
pub open spec fn fed_by(v: TreeView, o: OsView, w: TreeView, o1: OsView, len: int) -> bool {
    &&& o1 == o.mapped(len)
    &&& w.mapped == if o.can_map(len) {
        v.mapped.push(o.grants[os::first_of_len(o.grants, len)])
    } else {
        v.mapped
    }
}

/// Nothing was asked for, or one mapping was.
pub open spec fn fed(v: TreeView, o: OsView, w: TreeView, o1: OsView) -> bool {
    ||| o1 == o && w.mapped == v.mapped
    ||| exists|len: int| #[trigger] fed_by(v, o, w, o1, len)
}

/// A request asks the system for one mapping at most.
pub proof fn lemma_served_fed(v: TreeView, o: OsView, size: int)
    requires
        tree_model::agree(v, o),
    ensures
        fed(v, o, v.served(o, size).0, v.served(o, size).1),
{
    if let Some(n) = tree_model::normalized(size) {
        if v.fit(n) is None {
            let len = tree_model::arena_len(n);
            tree_model::lemma_agree_fresh(v, o, len);
            assert(fed_by(v, o, v.served(o, size).0, v.served(o, size).1, len));
        }
    }
}

/// An aligned request asks the system for one mapping at most.
pub proof fn lemma_served_aligned_fed(v: TreeView, o: OsView, size: int, al: int)
    requires
        tree_model::agree(v, o),
    ensures
        fed(v, o, v.served_aligned(o, size, al).0, v.served_aligned(o, size, al).1),
{
    if let Some(n) = tree_model::normalized(size) {
        if n + al <= tree_model::MAX_ALLOCATION && v.fit_aligned(n, al) is None {
            let len = tree_model::arena_len(n + al);
            tree_model::lemma_agree_fresh(v, o, len);
            assert(fed_by(
                v,
                o,
                v.served_aligned(o, size, al).0,
                v.served_aligned(o, size, al).1,
                len,
            ));
        }
    }
}

/// Giving a block back after a request asks the system for nothing more.
proof fn lemma_freed_fed(v: TreeView, o: OsView, u: TreeView, o1: OsView, a: int)
    requires
        fed(v, o, u, o1),
    ensures
        fed(v, o, u.freed(a), o1),
{
    tree_steps::lemma_freed_arenas(u, a);
    if !(o1 == o && u.mapped == v.mapped) {
        let len = choose|len: int| #[trigger] fed_by(v, o, u, o1, len);
        assert(fed_by(v, o, u.freed(a), o1, len));
    }
}

/// A reallocation asks the system for one mapping at most.
pub proof fn lemma_realloc_fed(v: TreeView, o: OsView, a: int, size: int)
    requires
        tree_model::agree(v, o),
    ensures
        fed(v, o, v.realloc(o, a, size).0, v.realloc(o, a, size).1),
{
    if let Some(n) = tree_model::normalized(size) {
        let have = v.blocks[a].size;
        let p = v.blocks[a].prev;
        let next = block::next_of(v.blocks, a);
        if have >= n {
            tree_steps::lemma_shrunk_arenas(v, a, n);
        } else if have + v.gain(next) >= n {
            tree_steps::lemma_merged_arenas(v, a, n);
        } else if have + v.gain(p) + v.gain(next) >= n {
            tree_steps::lemma_merged_arenas(v, a, n);
            tree_steps::lemma_taken_arenas(v.merged_both(a), p, n);
        } else {
            lemma_served_fed(v, o, n);
            let (u, o1, r) = v.served(o, n);
            lemma_freed_fed(v, o, u, o1, a);
            assert(v.realloc(o, a, size) == v.relocated(o, a, n));
        }
    }
}

/// An aligned reallocation asks the system for one mapping at most.
pub proof fn lemma_realloc_aligned_fed(v: TreeView, o: OsView, a: int, size: int, al: int)
    requires
        tree_model::agree(v, o),
    ensures
        fed(v, o, v.realloc_aligned(o, a, size, al).0, v.realloc_aligned(o, a, size, al).1),
{
    if let Some(n) = tree_model::normalized(size) {
        let have = v.blocks[a].size;
        let p = v.blocks[a].prev;
        let next = block::next_of(v.blocks, a);
        let offs = if v.blocks[p].used {
            0
        } else {
            tree_model::offset(p + HEADER_SIZE, al)
        };
        if n + al > tree_model::MAX_ALLOCATION {
        } else if have >= n {
            tree_steps::lemma_shrunk_arenas(v, a, n);
        } else if have + v.gain(next) >= n {
            tree_steps::lemma_merged_arenas(v, a, n);
        } else if have + v.gain(p) + v.gain(next) >= n + offs {
            tree_steps::lemma_merged_arenas(v, a, n);
            tree_steps::lemma_placed_arenas(v.merged_both(a), p, n, al);
        } else {
            lemma_served_aligned_fed(v, o, n, al);
            let (u, o1, r) = v.served_aligned(o, n, al);
            lemma_freed_fed(v, o, u, o1, a);
            assert(v.realloc_aligned(o, a, size, al) == v.relocated_aligned(o, a, n, al));
        }
    }
}

/// What the tree takes from the system leaves the buckets as they were with it.
pub proof fn lemma_tree_fed(v: OrisnikView, w: OrisnikView)
    requires
        bucket_model::agree(v.buckets, v.os),
        tree_model::agree(v.tree, v.os),
        separate(v.buckets, v.tree),
        covered(v.buckets, v.tree, v.os),
        w.buckets == v.buckets,
        fed(v.tree, v.os, w.tree, w.os),
    ensures
        bucket_model::agree(w.buckets, w.os),
        separate(w.buckets, w.tree),
        covered(w.buckets, w.tree, w.os),
        os::offers_less(v.os, w.os),
{
    reveal(bucket_model::agree);
    reveal(covered);
    if !(w.os == v.os && w.tree.mapped == v.tree.mapped) {
        let len = choose|len: int| #[trigger] fed_by(v.tree, v.os, w.tree, w.os, len);
        v.os.lemma_mapped(len);
        let b = v.buckets;
        assert forall|p: int| #[trigger] b.pages.contains_key(p) implies w.os.held.contains(
            page::mapping_of(p),
        ) && !w.os.grants.contains(page::mapping_of(p)) && !w.tree.mapped.contains(
            page::mapping_of(p),
        ) by {
            let m = page::mapping_of(p);
            if v.os.can_map(len) {
                let g = v.os.grants[os::first_of_len(v.os.grants, len)];
                os::lemma_first_of_len(v.os.grants, len);
                assert(v.os.grants.contains(g));
                if w.tree.mapped.contains(m) {
                    let i = w.tree.mapped.index_of(m);
                    assert(i < v.tree.mapped.len());
                    assert(v.tree.mapped[i] == m);
                }
            }
        }
        assert forall|m: Mapping| #[trigger] w.os.held.contains(m) implies w.os.grants.contains(m)
            || bucket_model::maps(b, m) || w.tree.mapped.contains(m) by {
            assert(v.os.held.contains(m));
            if v.os.can_map(len) {
                let g = v.os.grants[os::first_of_len(v.os.grants, len)];
                if v.tree.mapped.contains(m) {
                    assert(w.tree.mapped[v.tree.mapped.index_of(m)] == m);
                } else if m == g {
                    assert(w.tree.mapped[v.tree.mapped.len() as int] == m);
                }
            }
        }
    }
}

/// What the buckets take from the system leaves the tree as it was with it.
pub proof fn lemma_bucket_fed(v: OrisnikView, bi: int)
    requires
        v.buckets.ok(),
        bucket_model::agree(v.buckets, v.os),
        tree_model::agree(v.tree, v.os),
        separate(v.buckets, v.tree),
        covered(v.buckets, v.tree, v.os),
        0 <= bi < page::NUM_BUCKETS,
    ensures
        ({
            let (b, o, r) = v.buckets.served(v.os, bi);
            &&& tree_model::agree(v.tree, o)
            &&& separate(b, v.tree)
            &&& covered(b, v.tree, o)
            &&& os::offers_less(v.os, o)
        }),
{
    let (b, o, r) = v.buckets.served(v.os, bi);
    let len = PAGE_SIZE as int;
    bucket_model::lemma_list(v.buckets, bi);
    bucket_model::lemma_agree_fresh(v.buckets, v.os);
    reveal(tree_model::agree);
    match bucket_model::free_page(v.buckets.pages, v.buckets.lists[bi]) {
        Some(p) => {
            assert(v.buckets.pages.contains_key(v.buckets.lists[bi][0]));
            assert forall|q: int| #[trigger] b.pages.contains_key(q) implies !v.tree.mapped.contains(
                page::mapping_of(q),
            ) by {
                assert(v.buckets.pages.contains_key(q));
            }
        },
        None => {
            v.os.lemma_mapped(len);
            os::lemma_first_of_len(v.os.grants, len);
            if v.os.can_map(len) {
                let g = v.os.grants[os::first_of_len(v.os.grants, len)];
                assert(v.os.grants.contains(g));
                let base = g.base as int;
                assert(page::mapping_of(base + page::USABLE) == g);
                assert forall|q: int| #[trigger] b.pages.contains_key(q) implies !v.tree.mapped.contains(
                    page::mapping_of(q),
                ) by {
                    if q != base + page::USABLE {
                        assert(v.buckets.pages.contains_key(q));
                    } else if v.tree.mapped.contains(g) {
                        let i = v.tree.mapped.index_of(g);
                        assert(v.tree.mapped[i] == g);
                    }
                }
            }
            assert(tree_model::clear_of(v.tree, o));
        },
    }
    reveal(covered);
    assert forall|m: Mapping| #[trigger] o.held.contains(m) implies o.grants.contains(m)
        || bucket_model::maps(b, m) || v.tree.mapped.contains(m) by {
        assert(v.os.held.contains(m));
        if bucket_model::maps(v.buckets, m) {
            let p = choose|p: int| #[trigger] v.buckets.pages.contains_key(p) && page::mapping_of(p) == m;
            assert(b.pages.contains_key(p));
        } else if v.os.grants.contains(m) && !o.grants.contains(m) {
            let base = v.os.map_base(len)->0;
            assert(b.pages.contains_key(base + page::USABLE));
            assert(page::mapping_of(base + page::USABLE) == m);
        }
    }
}

/// A payload of the tree does not lie in a page of a bucket.
pub proof fn law_dispatch(v: OrisnikView, ptr: int)
    requires
        v.ok(),
        v.tree.live(ptr),
    ensures
        !v.buckets.owns(ptr),
        !v.buckets.live(ptr),
{
    reveal(OrisnikView::ok);
    reveal(bucket_model::agree);
    reveal(tree_model::agree);
    tree_laws::law_live(v.tree, ptr);
    let base = choose|base: int| #[trigger]
        v.tree.arenas.contains_key(base) && base + 2 * HEADER_SIZE <= ptr && ptr + v.tree.usable(ptr)
            + HEADER_SIZE <= base + v.tree.arenas[base];
    if v.buckets.owns(ptr) {
        let p = page::page_of(ptr);
        bucket_model::lemma_page(v.buckets, p);
        reveal(TreeView::all_mapped);
        reveal(TreeView::ok);
        let i = choose|i: int| 0 <= i < v.tree.mapped.len() && (#[trigger] v.tree.mapped[i]).base == base;
        let m = v.tree.mapped[i];
        assert(m.len == v.tree.arenas[base]);
        assert(v.tree.mapped.contains(m));
        assert(v.buckets.pages.contains_key(p));
        v.os.lemma_held_apart(m, page::mapping_of(p));
        align::lemma_rounded_down(ptr, PAGE_SIZE as int);
    }
}

/// The empty allocator is in order.
pub proof fn lemma_empty()
    requires
        BucketsView::empty().ok(),
        TreeView::empty().ok(),
        OrisnikView::empty().os.ok(),
    ensures
        OrisnikView::empty().ok(),
{
    reveal(OrisnikView::ok);
    reveal(bucket_model::agree);
    reveal(tree_model::agree);
    reveal(TreeView::all_mapped);
    reveal(covered);
    let v = OrisnikView::empty();
    assert(tree_model::clear_of(v.tree, v.os)) by {
        assert forall|m: Mapping| #[trigger] v.os.grants.contains(m) implies crate::heap::fresh(
            v.tree.blocks,
            v.tree.arenas,
            m.base as int,
            m.len as int,
        ) by {}
    }
}

/// A mapping that the caller hands over is clear of both paths.
pub proof fn lemma_granted(v: OrisnikView, m: Mapping)
    requires
        v.ok(),
        v.os.accepts(m),
    ensures
        (OrisnikView { os: v.os.granted(m), ..v }).ok(),
{
    reveal(OrisnikView::ok);
    reveal(bucket_model::agree);
    reveal(tree_model::agree);
    let o1 = v.os.granted(m);
    v.os.lemma_granted(m);
    assert forall|g: Mapping| #[trigger] o1.grants.contains(g) implies crate::heap::fresh(
        v.tree.blocks,
        v.tree.arenas,
        g.base as int,
        g.len as int,
    ) by {
        if g == m {
            reveal(TreeView::all_mapped);
            reveal(TreeView::ok);
            assert forall|x: int| #[trigger] v.tree.arenas.contains_key(x) implies x + v.tree.arenas[x] <= g.base
                || g.base + g.len <= x by {
                let i = choose|i: int| 0 <= i < v.tree.mapped.len() && (#[trigger] v.tree.mapped[i]).base == x;
                let h = v.tree.mapped[i];
                assert(v.os.held.contains(h));
                let j = v.os.held.index_of(h);
                assert(m.apart(v.os.held[j]));
            }
        } else {
            assert(v.os.grants.contains(g));
        }
    }
    assert(tree_model::clear_of(v.tree, o1));
    assert forall|i: int| 0 <= i < v.tree.mapped.len() implies o1.held.contains(#[trigger] v.tree.mapped[i])
        && !o1.grants.contains(v.tree.mapped[i]) by {
        assert(v.os.held.contains(v.tree.mapped[i]));
    }
    assert forall|p: int| #[trigger] v.buckets.pages.contains_key(p) implies o1.held.contains(
        page::mapping_of(p),
    ) && !o1.grants.contains(page::mapping_of(p)) by {
        assert(v.os.held.contains(page::mapping_of(p)));
    }
    reveal(covered);
    assert forall|h: Mapping| #[trigger] o1.held.contains(h) implies o1.grants.contains(h)
        || bucket_model::maps(v.buckets, h) || v.tree.mapped.contains(h) by {
        if h != m {
            assert(v.os.held.contains(h));
        }
    }
}

/// What is listed for the caller to return or to map bears on neither path.
pub proof fn lemma_notes(v: OrisnikView, o1: OsView)
    requires
        v.ok(),
        o1.ok(),
        o1.grants == v.os.grants,
        o1.held == v.os.held,
    ensures
        (OrisnikView { os: o1, ..v }).ok(),
{
    reveal(OrisnikView::ok);
    reveal(bucket_model::agree);
    reveal(tree_model::agree);
    reveal(covered);
    assert(tree_model::clear_of(v.tree, o1)) by {
        assert forall|m: Mapping| #[trigger] o1.grants.contains(m) implies crate::heap::fresh(
            v.tree.blocks,
            v.tree.arenas,
            m.base as int,
            m.len as int,
        ) by {
            assert(v.os.grants.contains(m));
        }
    }
}

/// A purge of the tree leaves the buckets as they were with the system.
pub proof fn lemma_tree_purged(v: OrisnikView, o1: OsView, t: TreeView)
    requires
        v.ok(),
        o1.ok(),
        tree_purge::spares(v.tree, v.os, o1),
        tree_purge::gives_back(v.tree, t, v.os, o1),
        forall|h: Mapping| #[trigger] t.mapped.contains(h) ==> v.tree.mapped.contains(h),
    ensures
        bucket_model::agree(v.buckets, o1),
        separate(v.buckets, t),
        covered(v.buckets, t, o1),
{
    reveal(OrisnikView::ok);
    reveal(covered);
    reveal(bucket_model::agree);
    assert forall|p: int| #[trigger] v.buckets.pages.contains_key(p) implies o1.held.contains(
        page::mapping_of(p),
    ) && !o1.grants.contains(page::mapping_of(p)) by {
        assert(v.os.held.contains(page::mapping_of(p)));
    }
}

/// A purge of the buckets leaves the tree as it was with the system.
pub proof fn lemma_buckets_purged(b0: BucketsView, t: TreeView, o0: OsView, b: BucketsView, o1: OsView)
    requires
        tree_model::agree(t, o0),
        separate(b0, t),
        covered(b0, t, o0),
        o1.ok(),
        bucket_model::spares(b0, o0, o1),
        bucket_model::gives_back(b0, b, o0, o1),
        forall|p: int| #[trigger] b.pages.contains_key(p) ==> b0.pages.contains_key(p),
    ensures
        tree_model::agree(t, o1),
        separate(b, t),
        covered(b, t, o1),
{
    reveal(tree_model::agree);
    reveal(covered);
    assert(tree_model::clear_of(t, o1)) by {
        assert forall|m: Mapping| #[trigger] o1.grants.contains(m) implies crate::heap::fresh(
            t.blocks,
            t.arenas,
            m.base as int,
            m.len as int,
        ) by {
            assert(o0.grants.contains(m));
        }
    }
    assert forall|i: int| 0 <= i < t.mapped.len() implies o1.held.contains(#[trigger] t.mapped[i])
        && !o1.grants.contains(t.mapped[i]) by {
        let h = t.mapped[i];
        assert(t.mapped.contains(h));
        if bucket_model::maps(b0, h) {
            let p = choose|p: int| #[trigger] b0.pages.contains_key(p) && page::mapping_of(p) == h;
            assert(!t.mapped.contains(page::mapping_of(p)));
        }
    }
}

/// A small size rounded up to a small power of two is small.
pub proof fn lemma_rounded_small(size: int, al: int)
    requires
        0 < size <= MAX_SMALL_ALLOCATION,
        DEFAULT_ALIGNMENT < al <= MAX_SMALL_ALLOCATION,
        power2::is_pow2(al),
    ensures
        size <= align::rounded_up(size, al) <= MAX_SMALL_ALLOCATION,
        align::rounded_up(size, al) % al == 0,
        align::rounded_up(size, al) % 8 == 0,
{
    reveal_with_fuel(power2::is_pow2, 10);
    align::lemma_rounded_up(size, al);
    let r = align::rounded_up(size, al);
    if al == 16 {
        assert(r % 16 == 0);
    } else if al == 32 {
        assert(r % 32 == 0);
    } else if al == 64 {
        assert(r % 64 == 0);
    } else if al == 128 {
        assert(r % 128 == 0);
    } else {
        assert(al == 256);
        assert(r % 256 == 0);
    }
}

/// A request for a small size without an alignment, which stands for the default, goes to
/// the bucket that the size rounded up to the alignment asks for, and so does one at a small
/// alignment.
pub proof fn law_sized_class(size: int, al: int)
    requires
        0 < size <= MAX_SMALL_ALLOCATION,
        0 < al <= MAX_SMALL_ALLOCATION,
        power2::is_pow2(al),
    ensures
        0 < align::rounded_up(size, al) <= MAX_SMALL_ALLOCATION,
        al <= DEFAULT_ALIGNMENT ==> page::class_of(align::rounded_up(size, al)) == plain_class(size),
        al > DEFAULT_ALIGNMENT ==> page::class_of(align::rounded_up(size, al)) == aligned_class(
            size,
            al,
        ),
{
    if al <= DEFAULT_ALIGNMENT {
        reveal_with_fuel(power2::is_pow2, 5);
        let r = align::rounded_up(size, al);
        align::lemma_rounded_up(size, al);
        if al == 1 {
            assert(r == size);
        } else if al == 2 {
            assert(r % 2 == 0);
        } else if al == 4 {
            assert(r % 4 == 0);
        } else {
            assert(al == 8);
            assert(r % 8 == 0);
        }
    } else {
        lemma_rounded_small(size, al);
        let s = page::clamped(size);
        lemma_rounded_small(s, al);
        if size < 8 {
            assert(align::rounded_up(size, al) == al) by {
                align::lemma_rounded_up(size, al);
                lemma_only_multiple(align::rounded_up(size, al), al);
            }
            assert(align::rounded_up(s, al) == al) by {
                align::lemma_rounded_up(s, al);
                lemma_only_multiple(align::rounded_up(s, al), al);
            }
        }
    }
}

/// The only multiple of `al` above zero and below twice `al` is `al`.
pub proof fn lemma_only_multiple(x: int, al: int)
    requires
        al > 0,
        x % al == 0,
        0 < x < 2 * al,
    ensures
        x == al,
{
    vstd::arithmetic::div_mod::lemma_fundamental_div_mod(x, al);
    let q = x / al;
    assert(q == 1) by (nonlinear_arith)
        requires
            x == al * q,
            0 < x < 2 * al,
            al > 0,
    ;
}

/// Giving a payload back keeps the allocator in order.
pub proof fn lemma_freed_ok(v: OrisnikView, ptr: int)
    requires
        v.ok(),
        v.live(ptr),
    ensures
        v.freed(ptr).ok(),
{
    reveal(OrisnikView::ok);
    if v.buckets.live(ptr) {
        let b = v.buckets.freed(ptr);
        bucket_model::lemma_freed(v.buckets, ptr);
        bucket_model::lemma_agree_same(v.buckets, b, v.os);
        lemma_covered_same(v.buckets, v.tree, b, v.tree, v.os);
        assert forall|p: int| #[trigger] b.pages.contains_key(p) implies !v.tree.mapped.contains(
            page::mapping_of(p),
        ) by {
            assert(b.pages.dom().contains(p));
            assert(v.buckets.pages.contains_key(p));
        }
    } else {
        law_dispatch(v, ptr);
        tree_laws::law_freed(v.tree, ptr);
        let t = v.tree.freed(ptr - HEADER_SIZE);
        tree_model::lemma_agree_same(v.tree, t, v.os);
        lemma_covered_same(v.buckets, v.tree, v.buckets, t, v.os);
    }
}

/// As long as neither the pages nor the arenas change, they are all that is held.
pub proof fn lemma_covered_same(b: BucketsView, t: TreeView, b1: BucketsView, t1: TreeView, o: OsView)
    requires
        covered(b, t, o),
        b1.pages.dom() == b.pages.dom(),
        t1.mapped == t.mapped,
    ensures
        covered(b1, t1, o),
{
    reveal(covered);
    assert forall|m: Mapping| #[trigger] o.held.contains(m) implies o.grants.contains(m)
        || bucket_model::maps(b1, m) || t1.mapped.contains(m) by {
        if bucket_model::maps(b, m) {
            let p = choose|p: int| #[trigger] b.pages.contains_key(p) && page::mapping_of(p) == m;
            assert(b1.pages.dom().contains(p));
            assert(b1.pages.contains_key(p));
        }
    }
}

} // verus!
