//! The path for large requests: the best fit among the free blocks, which are indexed by
//! size and merged with their free neighbours.
//!
//! The most recently freed block is kept aside and tried first. The next free pushes it
//! into the tree of free blocks or, where it is small, onto a list.

use crate::align;
use crate::block;
use crate::block::{Blocks, FREE_NODE_SIZE, HEADER_SIZE};
use crate::heap;
use crate::heap::{Arenas, MIN_ARENA, MIN_PAYLOAD};
use crate::list::IntrusiveList;
use crate::os;
use crate::os::{Mapping, Os, ADDRESS_LIMIT, PAGE_SIZE};
use crate::page::MAX_SMALL_ALLOCATION;
use crate::rbtree::IntrusiveMultiRbTree;
use crate::tree_laws;
use crate::tree_model;
use crate::tree_model::{TreeView, MAX_ALLOCATION, MIN_PURGEABLE, SPLIT_REMAINDER_MIN};
use crate::tree_steps;
use vstd::arithmetic::power2;
use vstd::prelude::*;

verus! {

/// Where a payload is after a reallocation, and how many of its bytes have to be moved
/// there from its old address. Old and new place may overlap.
#[derive(Clone, Copy, PartialEq, Eq, Structural, Debug)]
pub struct Relocation {
    pub ptr: u64,
    pub copied: u64,
}

/// The state of the large-block path.
pub struct Tree {
    blocks: Blocks,
    mr_free_block: Option<u64>,
    free_tree: IntrusiveMultiRbTree,
    small_free_list: IntrusiveList,
    allocated_bytes: u64,
    arenas: Ghost<Arenas>,
    mapped: Ghost<Seq<Mapping>>,
}

impl View for Tree {
    type V = TreeView;

    closed spec fn view(&self) -> TreeView {
        TreeView {
            blocks: self.blocks@,
            arenas: self.arenas@,
            mr: match self.mr_free_block {
                Some(m) => Some(m as int),
                None => None,
            },
            index: self.free_tree@,
            small: self.small_free_list@,
            mapped: self.mapped@,
        }
    }
}

/// An optional address as a number.
pub open spec fn as_int(r: Option<u64>) -> Option<int> {
    match r {
        Some(a) => Some(a as int),
        None => None,
    }
}

/// An optional relocation as numbers.
pub open spec fn as_move(r: Option<Relocation>) -> Option<(int, int)> {
    match r {
        Some(m) => Some((m.ptr as int, m.copied as int)),
        None => None,
    }
}

/// Whether two optional addresses are the same.
fn same(a: Option<u64>, b: Option<u64>) -> (r: bool)
    ensures
        r == (a == b),
{
    match (a, b) {
        (Some(x), Some(y)) => x == y,
        (None, None) => true,
        _ => false,
    }
}

/// The payload size that a request for `size` bytes is served with; `None` where it is
/// beyond what the size arithmetic can carry.
pub fn normalize_size(size: u64) -> (r: Option<u64>)
    ensures
        as_int(r) == tree_model::normalized(size as int),
        r matches Some(n) ==> n % 16 == 0 && n >= MIN_PAYLOAD && n >= size && n <= MAX_ALLOCATION + 1,
{
    if size > MAX_ALLOCATION {
        return None;
    }
    let size = if size < FREE_NODE_SIZE {
        FREE_NODE_SIZE
    } else {
        size
    };
    proof {
        reveal_with_fuel(power2::is_pow2, 6);
    }
    Some(align::round_up(size, HEADER_SIZE))
}

impl Tree {
    /// The parts are in order and the index is sound.
    #[verifier::opaque]
    pub closed spec fn inv(&self) -> bool {
        &&& self.free_tree.wf()
        &&& self.small_free_list.wf()
        &&& heap::heap_ok(self@.blocks, self@.arenas)
        &&& self@.sound()
    }

    /// The counter says how much the system has served.
    pub closed spec fn counted(&self) -> bool {
        self.allocated_bytes == tree_model::total(self@.mapped)
    }

    /// The heap is in order and the counter says how much the system has served.
    pub open spec fn wf(&self) -> bool {
        &&& self.inv()
        &&& self@.ok()
        &&& self.counted()
    }

    /// The same with one free block, at `d`, that is not indexed.
    pub open spec fn wf_but(&self, d: int) -> bool {
        &&& self.inv()
        &&& self@.ok_but(d)
        &&& self.counted()
    }

    pub closed spec fn counter_same(&self, other: &Self) -> bool {
        self.allocated_bytes == other.allocated_bytes
    }

    /// The mappings alone do not bear on the parts.
    proof fn lemma_remapped(self, t: Self)
        requires
            self.inv(),
            t == (Tree { mapped: t.mapped, ..self }),
        ensures
            t.inv(),
    {
        reveal(Tree::inv);
        assert(t@ == (TreeView { mapped: t@.mapped, ..self@ }));
        assert(t@.sound());
    }

    /// What a well-formed heap says of its view.
    pub proof fn lemma_view(&self)
        requires
            self.wf(),
        ensures
            self@.ok(),
            self@.index.ok(),
    {
        tree_laws::lemma_index(self@);
    }

    /// A heap that has nothing yet.
    pub fn new() -> (t: Self)
        ensures
            t.wf(),
            t@ == TreeView::empty(),
    {
        proof {
            reveal(Tree::inv);
            reveal(TreeView::ok);
            reveal(TreeView::ok_but);
        }
        let t = Tree {
            blocks: Blocks::new(),
            mr_free_block: None,
            free_tree: IntrusiveMultiRbTree::new(),
            small_free_list: IntrusiveList::new(),
            allocated_bytes: 0,
            arenas: Ghost(Map::empty()),
            mapped: Ghost(Seq::empty()),
        };
        proof {
            reveal(heap::heap_ok);
            t.free_tree.lemma_view();
            reveal(tree_model::index_ok);
            assert forall|m: int| !t@.small.contains(m) by {}
        }
        t
    }

    /// The bytes that the system has served for this path.
    pub fn allocated(&self) -> (r: u64)
        requires
            self.wf(),
        ensures
            r == tree_model::total(self@.mapped),
    {
        self.allocated_bytes
    }

    /// Makes `bl` the most recently freed block, or none; the one before it goes into the
    /// index that its size asks for.
    pub fn attach(&mut self, bl: Option<u64>)
        requires
            old(self).inv(),
            bl matches Some(a) ==> old(self)@.blocks.contains_key(a as int) && !old(
                self,
            )@.blocks[a as int].used && !old(self)@.indexed(a as int),
        ensures
            final(self).inv(),
            final(self)@ == old(self)@.attached(as_int(bl)),
            final(self).counter_same(old(self)),
            bl matches Some(a) ==> old(self).wf_but(a as int) ==> final(self).wf(),
    {
        proof {
            reveal(Tree::inv);
            reveal(TreeView::ok);
            reveal(TreeView::ok_but);
        }
        let ghost v = self@;
        proof {
            tree_steps::lemma_attached(v, as_int(bl));
            if let Some(a) = bl {
                if v.ok_but(a as int) {
                    tree_steps::lemma_attach_ok(v, a as int);
                }
            }
        }
        if let Some(last) = self.mr_free_block {
            proof {
                heap::lemma_free_is_real(v.blocks, v.arenas, last as int);
            }
            let size = self.blocks.size(last);
            let mem = self.blocks.mem(last);
            if size > MAX_SMALL_ALLOCATION {
                self.free_tree.insert(mem, size);
            } else {
                self.small_free_list.push_back(mem);
            }
        }
        self.mr_free_block = bl;
    }

    /// Takes `bl` out of the place where it is indexed.
    fn detach(&mut self, bl: u64)
        requires
            old(self).inv(),
            old(self)@.indexed(bl as int),
        ensures
            final(self).inv(),
            final(self)@ == old(self)@.detached(bl as int),
            final(self).counter_same(old(self)),
    {
        proof {
            reveal(Tree::inv);
            reveal(TreeView::ok);
            reveal(TreeView::ok_but);
        }
        let ghost v = self@;
        proof {
            tree_steps::lemma_detached(v, bl as int);
            tree_steps::lemma_indexed_is_free(v, bl as int);
            heap::lemma_free_is_real(v.blocks, v.arenas, bl as int);
        }
        if let Some(m) = self.mr_free_block {
            if m == bl {
                self.mr_free_block = None;
                return ;
            }
        }
        let size = self.blocks.size(bl);
        let mem = self.blocks.mem(bl);
        proof {
            if v.index.keys.contains_key(mem as int) {
                assert(v.blocks[mem - HEADER_SIZE].size > MAX_SMALL_ALLOCATION);
            }
            if v.small.contains(mem as int) {
                assert(v.blocks[mem - HEADER_SIZE].size <= MAX_SMALL_ALLOCATION);
            }
        }
        if size > MAX_SMALL_ALLOCATION {
            self.free_tree.erase(mem);
        } else {
            self.small_free_list.unlink_node(mem);
        }
    }

    /// Cuts `bl` to `size` bytes; the rest becomes a free block that is not indexed.
    #[verifier::spinoff_prover]
    #[verifier::rlimit(40)]
    fn split_block(&mut self, bl: u64, size: u64)
        requires
            old(self).inv(),
            heap::ordinary(old(self)@.blocks, bl as int),
            !old(self)@.indexed(bl as int),
            size % 16 == 0,
            size >= MIN_PAYLOAD,
            old(self)@.blocks[bl as int].size >= size + SPLIT_REMAINDER_MIN,
        ensures
            final(self).inv(),
            final(self)@ == old(self)@.with_blocks(
                heap::split(old(self)@.blocks, bl as int, size as int),
            ),
            final(self).counter_same(old(self)),
            bl + HEADER_SIZE + size <= u64::MAX,
            heap::ordinary(final(self)@.blocks, bl + HEADER_SIZE + size),
            !final(self)@.indexed(bl + HEADER_SIZE + size),
    {
        proof {
            reveal(Tree::inv);
        }
        let ghost v = self@;
        let ghost w = v.with_blocks(heap::split(v.blocks, bl as int, size as int));
        proof {
            heap::lemma_neighbours(v.blocks, v.arenas, bl as int);
            tree_steps::lemma_split(v, bl as int, size as int);
        }
        let new_bl = bl + (size + HEADER_SIZE);
        self.blocks.link_after(new_bl, bl);
        self.blocks.set_unused(new_bl);
        proof {
            assert(self@.blocks =~= w.blocks);
        }
    }

    /// Moves `bl`, which is free and not indexed, up by `offs` bytes.
    #[verifier::spinoff_prover]
    #[verifier::rlimit(40)]
    fn shift_block(&mut self, bl: u64, offs: u64) -> (r: u64)
        requires
            old(self).inv(),
            heap::ordinary(old(self)@.blocks, bl as int),
            !old(self)@.blocks[bl as int].used,
            !old(self)@.indexed(bl as int),
            old(self)@.blocks[old(self)@.blocks[bl as int].prev].used,
            offs % 16 == 0,
            offs > 0,
            old(self)@.blocks[bl as int].size >= offs + MIN_PAYLOAD,
            ({
                let b = old(self)@.blocks;
                let p = b[bl as int].prev;
                b[p].prev == 0 && p % 64 == 0 ==> b[p].size + offs == 32
            }),
        ensures
            final(self).inv(),
            r == bl + offs,
            final(self)@ == old(self)@.with_blocks(
                heap::shifted(old(self)@.blocks, bl as int, offs as int),
            ),
            final(self).counter_same(old(self)),
    {
        proof {
            reveal(Tree::inv);
        }
        let ghost v = self@;
        let ghost w = v.with_blocks(heap::shifted(v.blocks, bl as int, offs as int));
        proof {
            heap::lemma_neighbours(v.blocks, v.arenas, bl as int);
            tree_steps::lemma_shifted(v, bl as int, offs as int);
        }
        let prev = self.blocks.prev(bl);
        self.blocks.unlink(bl);
        let shifted = bl + offs;
        self.blocks.link_after(shifted, prev);
        self.blocks.set_unused(shifted);
        proof {
            assert(self@.blocks =~= w.blocks);
        }
        shifted
    }

    /// Merges the free block behind `bl` into `bl`, which is not indexed.
    #[verifier::rlimit(50)]
    fn absorb_next(&mut self, bl: u64)
        requires
            old(self).inv(),
            heap::ordinary(old(self)@.blocks, bl as int),
            !old(self)@.indexed(bl as int),
            !old(self)@.blocks[block::next_of(old(self)@.blocks, bl as int)].used,
            old(self)@.indexed(block::next_of(old(self)@.blocks, bl as int)),
        ensures
            final(self).inv(),
            final(self)@ == old(self)@.merged_next(bl as int),
            final(self).counter_same(old(self)),
    {
        proof {
            reveal(Tree::inv);
            reveal(TreeView::ok);
            reveal(TreeView::ok_but);
        }
        proof {
            tree_steps::lemma_absorb_next(self@, bl as int);
        }
        let next = self.blocks.next(bl);
        self.detach(next);
        self.blocks.unlink(next);
    }

    /// Merges `bl`, which is not indexed, into the free block before it.
    #[verifier::rlimit(50)]
    fn absorb_into_prev(&mut self, bl: u64)
        requires
            old(self).inv(),
            heap::ordinary(old(self)@.blocks, bl as int),
            !old(self)@.indexed(bl as int),
            !old(self)@.blocks[old(self)@.blocks[bl as int].prev].used,
            old(self)@.indexed(old(self)@.blocks[bl as int].prev),
        ensures
            final(self).inv(),
            final(self)@ == old(self)@.merged_prev(bl as int),
            final(self).counter_same(old(self)),
    {
        proof {
            reveal(Tree::inv);
            reveal(TreeView::ok);
            reveal(TreeView::ok_but);
        }
        proof {
            tree_steps::lemma_absorb_prev(self@, bl as int);
        }
        let prev = self.blocks.prev(bl);
        self.detach(prev);
        self.blocks.unlink(bl);
    }

    /// Merges `bl`, which is free and not indexed, with its free neighbours, and returns
    /// the header of the outcome.
    #[verifier::rlimit(50)]
    fn coalesce_block(&mut self, bl: u64) -> (r: u64)
        requires
            old(self).inv(),
            old(self)@.complete_but(Some(bl as int)),
            old(self)@.coalesced_round(bl as int),
            old(self)@.mapped_ok(),
            heap::ordinary(old(self)@.blocks, bl as int),
            !old(self)@.blocks[bl as int].used,
        ensures
            final(self).inv(),
            (final(self)@, r as int) == old(self)@.coalesce(bl as int),
            final(self)@.ok_but(r as int),
            final(self).counter_same(old(self)),
    {
        proof {
            reveal(Tree::inv);
            reveal(TreeView::ok);
            reveal(TreeView::ok_but);
        }
        let ghost v = self@;
        let ghost a = bl as int;
        proof {
            tree_steps::lemma_coalesce(v, a);
            tree_steps::lemma_merged_next(v, a, Some(a));
            heap::lemma_neighbours(v.blocks, v.arenas, a);
            assert(v.blocks.contains_key(a));
        }
        let next = self.blocks.next(bl);
        if !self.blocks.used(next) {
            self.absorb_next(bl);
        }
        let ghost w = self@;
        proof {
            assert(w == v.merged_next(a));
            heap::lemma_neighbours(w.blocks, w.arenas, a);
        }
        let prev = self.blocks.prev(bl);
        if !self.blocks.used(prev) {
            proof {
                assert(w.blocks.contains_key(prev as int));
            }
            self.absorb_into_prev(bl);
            return prev;
        }
        bl
    }

    /// Cuts `bl`, which is in use, to `size` bytes where the rest is worth a block.
    fn trim_block(&mut self, bl: u64, size: u64)
        requires
            old(self).inv(),
            heap::ordinary(old(self)@.blocks, bl as int),
            old(self)@.blocks[bl as int].used,
            size % 16 == 0,
            size >= MIN_PAYLOAD,
            size <= MAX_ALLOCATION + 1,
        ensures
            final(self).inv(),
            final(self)@ == old(self)@.trimmed(bl as int, size as int),
            final(self).counter_same(old(self)),
    {
        proof {
            reveal(Tree::inv);
            reveal(TreeView::ok);
            reveal(TreeView::ok_but);
        }
        let ghost v = self@;
        proof {
            heap::lemma_neighbours(v.blocks, v.arenas, bl as int);
            if v.indexed(bl as int) {
                tree_steps::lemma_indexed_is_free(v, bl as int);
            }
        }
        if self.blocks.size(bl) >= size + SPLIT_REMAINDER_MIN {
            self.split_block(bl, size);
            let remainder = self.blocks.next(bl);
            self.attach(Some(remainder));
        }
    }

    /// Lays `[mem, mem + size)`, which the caller owns, out as an arena: a fence, one free
    /// block and a fence. Returns the free block, which is not indexed yet.
    pub fn add_block(&mut self, mem: u64, size: u64) -> (r: u64)
        requires
            old(self).inv(),
            old(self)@.ok(),
            mem > 0,
            mem % 16 == 0,
            size % 16 == 0,
            size >= MIN_ARENA,
            mem + size <= ADDRESS_LIMIT,
            heap::fresh(old(self)@.blocks, old(self)@.arenas, mem as int, size as int),
        ensures
            final(self).inv(),
            final(self)@.ok_but(r as int),
            r == mem + HEADER_SIZE,
            final(self)@ == old(self)@.with_arena(mem as int, size as int),
            final(self).counter_same(old(self)),
            old(self).counted() ==> final(self).counted(),
    {
        proof {
            reveal(Tree::inv);
            reveal(TreeView::ok);
            reveal(TreeView::ok_but);
        }
        let ghost v = self@;
        let ghost w = v.with_arena(mem as int, size as int);
        proof {
            tree_steps::lemma_with_arena(v, mem as int, size as int);
        }
        let fence0 = mem;
        self.blocks.install(fence0);
        self.blocks.set_prev(fence0, 0);
        self.blocks.set_size(fence0, 0);
        self.blocks.set_used(fence0);
        let real_front = self.blocks.mem(fence0);
        self.blocks.install(real_front);
        self.blocks.set_prev(real_front, fence0);
        self.blocks.set_size(real_front, 0);
        self.blocks.set_used(real_front);
        let end_fence = mem + (size - HEADER_SIZE);
        self.blocks.install(end_fence);
        self.blocks.set_size(end_fence, 0);
        self.blocks.set_used(end_fence);
        self.blocks.set_unused(real_front);
        self.blocks.set_next(real_front, end_fence);
        self.blocks.set_prev(end_fence, real_front);
        proof {
            assert(self@.blocks =~= w.blocks);
            self.arenas@ = self.arenas@.insert(mem as int, size as int);
            assert(self@ == w);
            let a = real_front as int;
            heap::lemma_free_is_real(w.blocks, w.arenas, a);
            assert(w.coalesce(a) == (w, a)) by {
                assert(w.blocks[block::next_of(w.blocks, a)].used);
            }
        }
        self.coalesce_block(real_front)
    }

    /// Asks the system for `size` bytes and counts them.
    fn system_alloc(&mut self, os: &mut Os, size: u64) -> (r: Option<u64>)
        requires
            old(self).wf(),
            tree_model::agree(old(self)@, old(os)@),
        ensures
            final(os)@.ok(),
            final(os)@ == old(os)@.mapped(size as int),
            as_int(r) == old(os)@.map_base(size as int),
            r is None ==> *final(self) == *old(self),
            r matches Some(base) ==> {
                let m = Mapping { base, len: size };
                &&& m.ok()
                &&& old(os)@.can_map(size as int)
                &&& m == old(os)@.grants[os::first_of_len(old(os)@.grants, size as int)]
                &&& heap::fresh(old(self)@.blocks, old(self)@.arenas, base as int, size as int)
                &&& final(self)@ == old(self)@
                &&& final(self).inv()
                &&& final(self).allocated_bytes == tree_model::total(old(self)@.mapped.push(m))
            },
    {
        proof {
            reveal(Tree::inv);
            reveal(TreeView::ok);
            reveal(TreeView::ok_but);
        }
        let ghost v = self@;
        let ghost o = os@;
        proof {
            tree_model::lemma_agree_fresh(v, o, size as int);
        }
        let ptr = match os.map(size) {
            Some(p) => p,
            None => {
                return None;
            },
        };
        proof {
            tree_steps::lemma_total_with(v, Mapping { base: ptr, len: size });
        }
        self.allocated_bytes = self.allocated_bytes + size;
        Some(ptr)
    }

    /// Gives the arena `[ptr, ptr + size)` back to the system.
    fn system_free(&mut self, os: &mut Os, ptr: u64, size: u64)
        requires
            old(self).inv(),
            old(self).allocated_bytes >= size,
            old(os)@.ok(),
            old(os)@.held.contains(Mapping { base: ptr, len: size }),
            !old(os)@.grants.contains(Mapping { base: ptr, len: size }),
        ensures
            final(os)@.ok(),
            final(os)@ == old(os)@.unmapped(Mapping { base: ptr, len: size }),
            final(self)@ == old(self)@,
            final(self).inv(),
            final(self).allocated_bytes == old(self).allocated_bytes - size,
    {
        proof {
            reveal(Tree::inv);
            reveal(TreeView::ok);
            reveal(TreeView::ok_but);
        }
        os.unmap(ptr, size);
        self.allocated_bytes = self.allocated_bytes - size;
    }

    /// Maps an arena for a block of `size` bytes and returns its one block, which is free
    /// and not indexed.
    #[verifier::spinoff_prover]
    #[verifier::rlimit(40)]
    fn grow(&mut self, os: &mut Os, size: u64) -> (r: Option<u64>)
        requires
            old(self).wf(),
            tree_model::agree(old(self)@, old(os)@),
            size + 3 * HEADER_SIZE + PAGE_SIZE <= u64::MAX,
        ensures
            ({
                let len = tree_model::arena_len(size as int);
                &&& len <= u64::MAX
                &&& final(os)@ == old(os)@.mapped(len)
                &&& match old(os)@.map_base(len) {
                    Some(base) => {
                        &&& 0 < base
                        &&& base + len <= ADDRESS_LIMIT
                        &&& base % 64 == 0
                        &&& r == Some((base + HEADER_SIZE) as u64)
                        &&& final(self)@ == old(self)@.grown(
                            Mapping { base: base as u64, len: len as u64 },
                        )
                        &&& final(self).wf_but(base + HEADER_SIZE)
                        &&& final(self)@.blocks[base + HEADER_SIZE].size >= size
                    },
                    None => r is None && *final(self) == *old(self),
                }
            }),
            tree_model::agree(final(self)@, final(os)@),
            old(self)@.all_mapped() ==> final(self)@.all_mapped(),
    {
        let ghost v = self@;
        let ghost o = os@;
        proof {
            os::lemma_page_size();
            align::lemma_rounded_up(size + 3 * HEADER_SIZE, PAGE_SIZE as int);
            tree_model::lemma_agree_fresh(v, o, tree_model::arena_len(size as int));
        }
        let size = size + 3 * HEADER_SIZE;
        let size = align::round_up(size, PAGE_SIZE);
        let mem = match self.system_alloc(os, size) {
            Some(p) => p,
            None => {
                return None;
            },
        };
        let ghost m = Mapping { base: mem, len: size };
        proof {
            tree_steps::lemma_agree_grown(v, o, m);
        }
        Some(self.add_mapping(mem, size))
    }

    /// Lays a mapping that the system has served, and that is counted already, out as an
    /// arena.
    fn add_mapping(&mut self, mem: u64, size: u64) -> (r: u64)
        requires
            old(self).inv(),
            old(self)@.ok(),
            (Mapping { base: mem, len: size }).ok(),
            heap::fresh(old(self)@.blocks, old(self)@.arenas, mem as int, size as int),
            old(self).allocated_bytes == tree_model::total(
                old(self)@.mapped.push(Mapping { base: mem, len: size }),
            ),
        ensures
            final(self).wf_but(r as int),
            r == mem + HEADER_SIZE,
            final(self)@ == old(self)@.grown(Mapping { base: mem, len: size }),
            final(self)@.blocks[r as int].size == size - 3 * HEADER_SIZE,
            old(self)@.all_mapped() ==> final(self)@.all_mapped(),
    {
        let ghost v = self@;
        let ghost m = Mapping { base: mem, len: size };
        let r = self.add_block(mem, size);
        proof {
            let t = *self;
            self.mapped@ = self.mapped@.push(m);
            t.lemma_remapped(*self);
            assert(self@ == v.grown(m));
            tree_steps::lemma_grown(v, m);
        }
        r
    }

    /// Takes out a free block of at least `size` bytes: the most recently freed one if it
    /// is large enough, else a smallest one that is.
    fn extract(&mut self, size: u64) -> (r: Option<u64>)
        requires
            old(self).wf(),
        ensures
            as_int(r) == old(self)@.fit(size as int),
            r is None ==> *final(self) == *old(self),
            r matches Some(a) ==> {
                &&& old(self)@.indexed(a as int)
                &&& old(self)@.blocks[a as int].size >= size
                &&& final(self)@ == old(self)@.detached(a as int)
                &&& final(self).wf_but(a as int)
            },
    {
        proof {
            reveal(Tree::inv);
            reveal(TreeView::ok);
            reveal(TreeView::ok_but);
        }
        let ghost v = self@;
        proof {
            self.free_tree.lemma_view();
        }
        if let Some(best) = self.mr_free_block {
            if self.blocks.size(best) >= size {
                proof {
                    tree_steps::lemma_detach_ok(v, best as int);
                }
                self.detach(best);
                return Some(best);
            }
        }
        let best_node = match self.free_tree.lower_bound(size) {
            Some(n) => n,
            None => {
                return None;
            },
        };
        proof {
            let p = v.index.lower(size as int);
            assert(v.index.at(best_node as int, p, 0));
            assert(v.index.key_of(p) >= size);
        }
        let best_node = self.free_tree.next(best_node);
        proof {
            assert(v.index.keys.contains_key(best_node as int));
            assert(v.blocks.contains_key(best_node - HEADER_SIZE));
            heap::lemma_free_is_real(v.blocks, v.arenas, best_node - HEADER_SIZE);
        }
        let best_block = block::get_block(best_node);
        proof {
            tree_steps::lemma_detach_ok(v, best_block as int);
        }
        self.detach(best_block);
        Some(best_block)
    }

    /// How far `mem` has to move up to be a multiple of `alignment`.
    fn alignment_offset(&self, mem: u64, alignment: u64) -> (r: u64)
        requires
            mem % 16 == 0,
            power2::is_pow2(alignment as int),
        ensures
            r == tree_model::offset(mem as int, alignment as int),
            r < alignment,
            r % 16 == 0,
    {
        proof {
            reveal(tree_model::offset);
            align::lemma_mask_is_mod(mem, alignment);
            align::lemma_gap(mem as int, alignment as int);
            tree_steps::lemma_offset(mem as int, alignment as int);
        }
        let over = mem & (alignment - 1);
        if over == 0 {
            0
        } else {
            alignment - over
        }
    }

    /// The index node of a block with room for `size` bytes at a multiple of `alignment`:
    /// the first among those of up to `size + alignment` bytes, else a smallest one above
    /// that.
    fn find_aligned(&self, size: u64, alignment: u64) -> (r: Option<u64>)
        requires
            self.wf(),
            power2::is_pow2(alignment as int),
            size + alignment <= u64::MAX,
        ensures
            ({
                let v = self@;
                let q = v.index.upper(size + alignment);
                as_int(r) == match v.first_roomy(
                    v.index.lower(size as int),
                    0,
                    q,
                    size as int,
                    alignment as int,
                ) {
                    Some(m) => Some(m),
                    None => match v.index.rep(q) {
                        Some(x) => Some(v.index.ring_after(x)),
                        None => None,
                    },
                }
            }),
            r matches Some(m) ==> self@.index.keys.contains_key(m as int) && self@.roomy(
                m as int,
                size as int,
                alignment as int,
            ),
    {
        proof {
            reveal(Tree::inv);
            reveal(TreeView::ok);
            reveal(TreeView::ok_but);
        }
        let ghost v = self@;
        let ghost al = alignment as int;
        let ghost sz = size as int;
        proof {
            self.free_tree.lemma_view();
        }
        let size_upper = size + alignment;
        let mut cur = self.free_tree.lower_bound(size);
        let last_node = self.free_tree.upper_bound(size_upper);
        let ghost q = v.index.upper(size_upper as int);
        let ghost mut p: int = v.index.lower(sz);
        let ghost mut i: int = 0;
        proof {
            assert(p <= q) by {
                if q < p {
                    assert(v.index.key_of(q) < sz);
                    assert(v.index.key_of(q) > size_upper);
                }
            }
        }
        let mut stop = false;
        while !stop
            invariant
                self.wf(),
                v == self@,
                v.index == self.free_tree@,
                v.index.ok(),
                sz == size,
                al == alignment,
                size + alignment <= u64::MAX,
                power2::is_pow2(alignment as int),
                0 <= p <= q <= v.index.groups.len(),
                0 <= i,
                p == q ==> i == 0,
                as_int(last_node) == v.index.rep(q),
                v.first_roomy(v.index.lower(sz), 0, q, sz, al) == v.first_roomy(p, i, q, sz, al),
                cur matches Some(node) ==> v.index.at(node as int, p, i),
                cur is None ==> q == v.index.groups.len() && p == q,
                stop ==> cur is None || p == q || (p < q && v.roomy(
                    v.index.groups[p][i],
                    sz,
                    al,
                )),
            decreases
                (if stop {
                    0int
                } else {
                    1
                }),
                (if cur is None {
                    0int
                } else {
                    1
                }),
                q - p,
                v.index.groups[p].len() - i,
        {
            match cur {
                None => {
                    stop = true;
                },
                Some(node) => {
                    proof {
                        reveal(Tree::inv);
                        assert(v.index.at(node as int, p, i));
                        v.index.lemma_locate(node as int, p, i);
                        assert(v.index.keys.contains_key(node as int));
                        assert(v.blocks.contains_key(node - HEADER_SIZE));
                        heap::lemma_free_is_real(v.blocks, v.arenas, node - HEADER_SIZE);
                        if q < v.index.groups.len() {
                            assert(v.index.at(v.index.groups[q][0], q, 0));
                            if p != q {
                                assert(node as int != v.index.groups[q][0]);
                            }
                        }
                    }
                    if same(cur, last_node) {
                        stop = true;
                    } else {
                        proof {
                            assert(p < q);
                        }
                        let alignment_offs = self.alignment_offset(node, alignment);
                        let bl = block::get_block(node);
                        if self.blocks.size(bl) >= size + alignment_offs {
                            stop = true;
                        } else {
                            cur = self.free_tree.succ(node);
                            proof {
                                reveal_with_fuel(TreeView::first_roomy, 3);
                                let n = v.index.groups[p].len() as int;
                                assert(v.index.groups[p][i] == node as int);
                                if i + 1 < n {
                                    i = i + 1;
                                } else {
                                    i = 0;
                                    p = p + 1;
                                    if p < v.index.groups.len() {
                                        assert(v.index.groups[p].len() > 0);
                                    }
                                }
                            }
                        }
                    }
                },
            }
        }
        proof {
            assert(p == q ==> v.first_roomy(p, i, q, sz, al) is None);
            assert(p < q ==> v.first_roomy(p, i, q, sz, al) == Some(v.index.groups[p][i]));
        }
        let best_node = match cur {
            Some(n) => n,
            None => {
                return None;
            },
        };
        proof {
            v.index.lemma_locate(best_node as int, p, i);
            assert(v.index.keys.contains_key(best_node as int));
            if q < v.index.groups.len() {
                assert(v.index.at(v.index.groups[q][0], q, 0));
                if p != q {
                    assert(best_node as int != v.index.groups[q][0]);
                }
            }
        }
        if same(cur, last_node) {
            proof {
                assert(p == q);
                assert(v.index.key_of(q) > size_upper);
            }
            let r = self.free_tree.next(best_node);
            proof {
                assert(v.index.keys.contains_key(r as int));
                heap::lemma_free_is_real(v.blocks, v.arenas, r - HEADER_SIZE);
                tree_steps::lemma_offset(r as int, al);
            }
            Some(r)
        } else {
            Some(best_node)
        }
    }

    /// Takes out a free block with room for `size` bytes at a multiple of `alignment`: the
    /// most recently freed one if it has room, else the first with room among those of up
    /// to `size + alignment` bytes, else a smallest one above that.
    fn extract_aligned(&mut self, size: u64, alignment: u64) -> (r: Option<u64>)
        requires
            old(self).wf(),
            power2::is_pow2(alignment as int),
            size + alignment <= u64::MAX,
        ensures
            as_int(r) == old(self)@.fit_aligned(size as int, alignment as int),
            r is None ==> *final(self) == *old(self),
            r matches Some(a) ==> {
                &&& old(self)@.indexed(a as int)
                &&& old(self)@.roomy(a + HEADER_SIZE, size as int, alignment as int)
                &&& final(self)@ == old(self)@.detached(a as int)
                &&& final(self).wf_but(a as int)
            },
    {
        proof {
            reveal(Tree::inv);
            reveal(TreeView::ok);
            reveal(TreeView::ok_but);
        }
        let ghost v = self@;
        let ghost al = alignment as int;
        let ghost sz = size as int;
        proof {
            self.free_tree.lemma_view();
        }
        if let Some(best) = self.mr_free_block {
            proof {
                heap::lemma_free_is_real(v.blocks, v.arenas, best as int);
            }
            let mem = self.blocks.mem(best);
            let alignment_offs = self.alignment_offset(mem, alignment);
            if self.blocks.size(best) >= size + alignment_offs {
                proof {
                    tree_steps::lemma_detach_ok(v, best as int);
                }
                self.detach(best);
                return Some(best);
            }
        }
        let best_node = match self.find_aligned(size, alignment) {
            Some(n) => n,
            None => {
                return None;
            },
        };
        proof {
            assert(v.index.keys.contains_key(best_node as int));
            assert(v.blocks.contains_key(best_node - HEADER_SIZE));
            heap::lemma_free_is_real(v.blocks, v.arenas, best_node - HEADER_SIZE);
        }
        let best_block = block::get_block(best_node);
        proof {
            tree_steps::lemma_detach_ok(v, best_block as int);
        }
        self.detach(best_block);
        Some(best_block)
    }

    /// Takes `size` bytes of `bl`, which is free and not indexed, into use.
    fn take_block(&mut self, bl: u64, size: u64)
        requires
            old(self).wf_but(bl as int),
            size % 16 == 0,
            size >= MIN_PAYLOAD,
            size <= MAX_ALLOCATION + 1,
            old(self)@.blocks[bl as int].size >= size,
        ensures
            final(self).wf(),
            final(self)@ == old(self)@.taken(bl as int, size as int),
            bl + HEADER_SIZE <= u64::MAX,
    {
        proof {
            reveal(Tree::inv);
            reveal(TreeView::ok);
            reveal(TreeView::ok_but);
        }
        let ghost v = self@;
        let ghost m = v.marked(bl as int, true);
        proof {
            tree_steps::lemma_taken(v, bl as int, size as int);
            tree_steps::lemma_mark_used(v, bl as int);
            heap::lemma_neighbours(v.blocks, v.arenas, bl as int);
        }
        self.blocks.set_used(bl);
        self.trim_block(bl, size);
    }

    /// Takes `size` bytes at a multiple of `alignment` from `bl`, which is free and not
    /// indexed, and returns the header of their block.
    #[verifier::rlimit(40)]
    fn place_block(&mut self, bl: u64, size: u64, alignment: u64) -> (r: u64)
        requires
            old(self).wf_but(bl as int),
            power2::is_pow2(alignment as int),
            size % 16 == 0,
            size >= MIN_PAYLOAD,
            size <= MAX_ALLOCATION + 1,
            old(self)@.roomy(bl + HEADER_SIZE, size as int, alignment as int),
        ensures
            final(self).wf(),
            (final(self)@, r as int) == old(self)@.placed(bl as int, size as int, alignment as int),
            r + HEADER_SIZE <= u64::MAX,
    {
        proof {
            reveal(Tree::inv);
            reveal(TreeView::ok);
            reveal(TreeView::ok_but);
        }
        let ghost v = self@;
        let ghost a = bl as int;
        let ghost al = alignment as int;
        proof {
            tree_steps::lemma_placed(v, a, size as int, al);
            tree_steps::lemma_mark_used(v, a);
            heap::lemma_neighbours(v.blocks, v.arenas, a);
            tree_steps::lemma_offset(a + HEADER_SIZE, al);
        }
        let mem = self.blocks.mem(bl);
        let alignment_offs = self.alignment_offset(mem, alignment);
        let mut bl = bl;
        if alignment_offs >= SPLIT_REMAINDER_MIN {
            self.split_block(bl, alignment_offs - HEADER_SIZE);
            proof {
                heap::lemma_split(v.blocks, v.arenas, a, alignment_offs - HEADER_SIZE);
                assert(!self@.indexed(a)) by {
                    let w = self@;
                    assert forall|c: int| #[trigger] v.indexed(c) implies w.blocks.contains_key(c)
                        && !w.blocks[c].used && w.blocks[c].size == v.blocks[c].size by {
                        tree_steps::lemma_indexed_is_free(v, c);
                    }
                    tree_steps::lemma_sound_blocks(v, w);
                }
            }
            self.attach(Some(bl));
            proof {
                heap::lemma_neighbours(self@.blocks, self@.arenas, a);
            }
            bl = self.blocks.next(bl);
        } else if alignment_offs > 0 {
            proof {
                let p = v.blocks[a].prev;
                if v.blocks[p].prev == 0 && p % 64 == 0 {
                    heap::lemma_block(v.blocks, v.arenas, p);
                }
            }
            bl = self.shift_block(bl, alignment_offs);
        }
        let ghost w = self@;
        proof {
            assert((w, bl as int) == v.aligned(a, al));
            assert(heap::ordinary(w.blocks, bl as int));
            assert(!w.indexed(bl as int)) by {
                tree_steps::lemma_aligned_free(v, a, al, size as int);
            }
            tree_steps::lemma_aligned_marked(v, a, al, size as int);
        }
        self.blocks.set_used(bl);
        proof {
            heap::lemma_neighbours(self@.blocks, self@.arenas, bl as int);
        }
        self.trim_block(bl, size);
        bl
    }

    /// Serves `size` bytes. `None` where the size is beyond the limit or where no free
    /// block is large enough and the system does not serve an arena; the heap is then
    /// unchanged.
    pub fn alloc_bytes(&mut self, os: &mut Os, size: u64) -> (r: Option<u64>)
        requires
            old(self).wf(),
            tree_model::agree(old(self)@, old(os)@),
        ensures
            final(self).wf(),
            tree_model::agree(final(self)@, final(os)@),
            (final(self)@, final(os)@, as_int(r)) == old(self)@.served(old(os)@, size as int),
            old(self)@.all_mapped() ==> final(self)@.all_mapped(),
    {
        let size = match normalize_size(size) {
            Some(n) => n,
            None => {
                return None;
            },
        };
        let new_bl = match self.extract(size) {
            Some(bl) => {
                proof {
                    tree_steps::lemma_detach_ok(old(self)@, bl as int);
                    tree_model::lemma_agree_same(old(self)@, self@, os@);
                }
                bl
            },
            None => match self.grow(os, size) {
                Some(bl) => bl,
                None => {
                    return None;
                },
            },
        };
        let ghost w = self@;
        self.take_block(new_bl, size);
        proof {
            tree_steps::lemma_taken_arenas(w, new_bl as int, size as int);
            tree_model::lemma_agree_same(w, self@, os@);
        }
        Some(self.blocks.mem(new_bl))
    }

    /// Takes out a free block with room for `size` bytes at a multiple of `alignment`, or
    /// maps an arena for one.
    #[verifier::spinoff_prover]
    #[verifier::rlimit(40)]
    fn claim_aligned(&mut self, os: &mut Os, size: u64, alignment: u64) -> (r: Option<u64>)
        requires
            old(self).wf(),
            tree_model::agree(old(self)@, old(os)@),
            power2::is_pow2(alignment as int),
            size + alignment <= MAX_ALLOCATION,
        ensures
            ({
                let v = old(self)@;
                let o = old(os)@;
                let len = tree_model::arena_len(size + alignment);
                match v.fit_aligned(size as int, alignment as int) {
                    Some(a) => {
                        &&& r == Some(a as u64)
                        &&& 0 <= a <= u64::MAX
                        &&& final(self)@ == v.detached(a)
                        &&& final(os)@ == o
                    },
                    None => {
                        &&& final(os)@ == o.mapped(len)
                        &&& match o.map_base(len) {
                            Some(base) => {
                                &&& 0 < base
                                &&& base + len <= ADDRESS_LIMIT
                                &&& r == Some((base + HEADER_SIZE) as u64)
                                &&& final(self)@ == v.grown(
                                    Mapping { base: base as u64, len: len as u64 },
                                )
                            },
                            None => r is None && *final(self) == *old(self),
                        }
                    },
                }
            }),
            r matches Some(a) ==> final(self).wf_but(a as int) && final(self)@.roomy(
                a + HEADER_SIZE,
                size as int,
                alignment as int,
            ),
            tree_model::agree(final(self)@, final(os)@),
            old(self)@.all_mapped() ==> final(self)@.all_mapped(),
    {
        match self.extract_aligned(size, alignment) {
            Some(bl) => {
                proof {
                    tree_steps::lemma_detach_ok(old(self)@, bl as int);
                    tree_model::lemma_agree_same(old(self)@, self@, os@);
                }
                Some(bl)
            },
            None => match self.grow(os, size + alignment) {
                Some(bl) => {
                    proof {
                        tree_steps::lemma_offset(bl + HEADER_SIZE, alignment as int);
                    }
                    Some(bl)
                },
                None => None,
            },
        }
    }

    /// Serves `size` bytes at a multiple of `alignment`.
    pub fn alloc_aligned(&mut self, os: &mut Os, size: u64, alignment: u64) -> (r: Option<u64>)
        requires
            old(self).wf(),
            tree_model::agree(old(self)@, old(os)@),
            power2::is_pow2(alignment as int),
        ensures
            final(self).wf(),
            tree_model::agree(final(self)@, final(os)@),
            (final(self)@, final(os)@, as_int(r)) == old(self)@.served_aligned(
                old(os)@,
                size as int,
                alignment as int,
            ),
            old(self)@.all_mapped() ==> final(self)@.all_mapped(),
    {
        let size = match normalize_size(size) {
            Some(n) => n,
            None => {
                return None;
            },
        };
        if alignment > MAX_ALLOCATION || size > MAX_ALLOCATION - alignment {
            return None;
        }
        let new_bl = match self.claim_aligned(os, size, alignment) {
            Some(bl) => bl,
            None => {
                return None;
            },
        };
        let ghost w = self@;
        proof {
            tree_steps::lemma_placed_arenas(w, new_bl as int, size as int, alignment as int);
        }
        let new_bl = self.place_block(new_bl, size, alignment);
        proof {
            tree_model::lemma_agree_same(w, self@, os@);
        }
        Some(self.blocks.mem(new_bl))
    }

    /// Gives back the payload at `ptr`.
    pub fn free(&mut self, ptr: u64)
        requires
            old(self).wf(),
            old(self)@.live(ptr as int),
        ensures
            final(self).wf(),
            final(self)@ == old(self)@.freed(ptr - HEADER_SIZE),
    {
        proof {
            reveal(Tree::inv);
            reveal(TreeView::ok);
            reveal(TreeView::ok_but);
        }
        let ghost v = self@;
        let ghost a = ptr - HEADER_SIZE;
        proof {
            heap::lemma_neighbours(v.blocks, v.arenas, a);
            tree_steps::lemma_marked_free(v, a);
        }
        let bl = block::ptr_get_block_header(ptr);
        self.blocks.set_unused(bl);
        let bl = self.coalesce_block(bl);
        self.attach(Some(bl));
    }

    /// Cuts `bl`, which is in use, to `size` bytes where the rest is worth a block, and
    /// merges the rest with a free block behind it.
    fn shrink_block(&mut self, bl: u64, size: u64)
        requires
            old(self).wf(),
            heap::ordinary(old(self)@.blocks, bl as int),
            old(self)@.blocks[bl as int].used,
            size % 16 == 0,
            size >= MIN_PAYLOAD,
            size <= MAX_ALLOCATION + 1,
            old(self)@.blocks[bl as int].size >= size,
        ensures
            final(self).wf(),
            final(self)@ == old(self)@.shrunk(bl as int, size as int),
            heap::ordinary(final(self)@.blocks, bl as int),
            final(self)@.blocks[bl as int].used,
    {
        proof {
            reveal(Tree::inv);
            reveal(TreeView::ok);
            reveal(TreeView::ok_but);
        }
        let ghost v = self@;
        proof {
            heap::lemma_neighbours(v.blocks, v.arenas, bl as int);
            if v.indexed(bl as int) {
                tree_steps::lemma_indexed_is_free(v, bl as int);
            }
            assert(heap::ordinary(v.shrunk(bl as int, size as int).blocks, bl as int) && v.shrunk(
                bl as int,
                size as int,
            ).blocks[bl as int].used) by {
                tree_steps::lemma_shrunk(v, bl as int, size as int);
                assert(v.shrunk(bl as int, size as int).blocks.contains_key(bl as int));
            }
        }
        if self.blocks.size(bl) >= size + SPLIT_REMAINDER_MIN {
            self.split_block(bl, size);
            proof {
                heap::lemma_neighbours(self@.blocks, self@.arenas, bl as int);
                tree_steps::lemma_split_rest(v, bl as int, size as int);
            }
            let next = self.blocks.next(bl);
            let next = self.coalesce_block(next);
            self.attach(Some(next));
        }
    }

    /// What the block at `bl` adds to a neighbour that takes it in.
    fn gain_of(&self, bl: u64) -> (r: u64)
        requires
            self.wf(),
            self@.blocks.contains_key(bl as int),
        ensures
            r == self@.gain(bl as int),
    {
        proof {
            reveal(Tree::inv);
            reveal(TreeView::ok);
            reveal(TreeView::ok_but);
        }
        proof {
            heap::lemma_block(self@.blocks, self@.arenas, bl as int);
        }
        if self.blocks.used(bl) {
            0
        } else {
            self.blocks.size(bl) + HEADER_SIZE
        }
    }

    /// Merges the free block behind `bl`, which is in use, into `bl`, and cuts the outcome
    /// to `size` bytes where the rest is worth a block.
    fn grow_forward(&mut self, bl: u64, size: u64)
        requires
            old(self).wf(),
            heap::ordinary(old(self)@.blocks, bl as int),
            old(self)@.blocks[bl as int].used,
            !old(self)@.blocks[block::next_of(old(self)@.blocks, bl as int)].used,
            size % 16 == 0,
            size >= MIN_PAYLOAD,
            size <= MAX_ALLOCATION + 1,
            old(self)@.blocks[bl as int].size + old(self)@.gain(
                block::next_of(old(self)@.blocks, bl as int),
            ) >= size,
        ensures
            final(self).wf(),
            final(self)@ == old(self)@.merged_next(bl as int).trimmed(bl as int, size as int),
            heap::ordinary(final(self)@.blocks, bl as int),
            final(self)@.blocks[bl as int].used,
    {
        proof {
            reveal(Tree::inv);
            reveal(TreeView::ok);
            reveal(TreeView::ok_but);
        }
        let ghost v = self@;
        let ghost a = bl as int;
        proof {
            heap::lemma_neighbours(v.blocks, v.arenas, a);
            tree_steps::lemma_merged_next(v, a, None);
            let n = block::next_of(v.blocks, a);
            assert(v.blocks.contains_key(n));
            if v.indexed(a) {
                tree_steps::lemma_indexed_is_free(v, a);
            }
        }
        self.absorb_next(bl);
        proof {
            tree_steps::lemma_trimmed(self@, a, size as int);
            assert(self@.trimmed(a, size as int).blocks.contains_key(a));
        }
        self.trim_block(bl, size);
    }

    /// Merges `bl`, which is in use, into the free block before it and with a free block
    /// behind it, and returns the header of the outcome, which is free and not indexed.
    fn merge_both(&mut self, bl: u64) -> (r: u64)
        requires
            old(self).wf(),
            heap::ordinary(old(self)@.blocks, bl as int),
            old(self)@.blocks[bl as int].used,
            !old(self)@.blocks[old(self)@.blocks[bl as int].prev].used,
        ensures
            final(self).wf_but(r as int),
            r == old(self)@.blocks[bl as int].prev,
            final(self)@ == old(self)@.merged_both(bl as int),
    {
        proof {
            reveal(Tree::inv);
            reveal(TreeView::ok);
            reveal(TreeView::ok_but);
        }
        let ghost v = self@;
        let ghost a = bl as int;
        proof {
            heap::lemma_neighbours(v.blocks, v.arenas, a);
            tree_steps::lemma_merged_both(v, a);
            tree_steps::lemma_merged_prev(v, a, None);
            assert(v.blocks.contains_key(v.blocks[a].prev));
            if v.indexed(a) {
                tree_steps::lemma_indexed_is_free(v, a);
            }
        }
        let prev = self.blocks.prev(bl);
        let next = self.blocks.next(bl);
        let next_used = self.blocks.used(next);
        self.absorb_into_prev(bl);
        if !next_used {
            proof {
                let w = self@;
                assert(w.blocks.contains_key(next as int));
                assert(w.indexed(next as int));
            }
            self.absorb_next(prev);
        }
        prev
    }

    /// Merges `bl`, which is in use, with what is free before and behind it, takes `size`
    /// bytes at a multiple of `alignment` of the outcome into use, and returns the header
    /// of their block.
    fn grow_backward(&mut self, bl: u64, size: u64, alignment: u64) -> (r: u64)
        requires
            old(self).wf(),
            heap::ordinary(old(self)@.blocks, bl as int),
            old(self)@.blocks[bl as int].used,
            !old(self)@.blocks[old(self)@.blocks[bl as int].prev].used,
            power2::is_pow2(alignment as int),
            size % 16 == 0,
            size >= MIN_PAYLOAD,
            size <= MAX_ALLOCATION + 1,
            ({
                let v = old(self)@;
                let a = bl as int;
                let p = v.blocks[a].prev;
                let n = block::next_of(v.blocks, a);
                v.blocks[a].size + v.gain(p) + v.gain(n) >= size + tree_model::offset(
                    p + HEADER_SIZE,
                    alignment as int,
                )
            }),
        ensures
            final(self).wf(),
            (final(self)@, r as int) == old(self)@.merged_both(bl as int).placed(
                old(self)@.blocks[bl as int].prev,
                size as int,
                alignment as int,
            ),
            final(self)@.arenas == old(self)@.arenas,
            final(self)@.mapped == old(self)@.mapped,
            r + HEADER_SIZE <= u64::MAX,
    {
        let ghost v = self@;
        let ghost a = bl as int;
        proof {
            tree_steps::lemma_merged_both(v, a);
        }
        let prev = self.merge_both(bl);
        proof {
            tree_steps::lemma_placed_arenas(self@, prev as int, size as int, alignment as int);
        }
        self.place_block(prev, size, alignment)
    }

    /// Moves the payload at `ptr` to a block of `size` bytes of its own.
    fn relocate(&mut self, os: &mut Os, ptr: u64, size: u64) -> (r: Option<Relocation>)
        requires
            old(self).wf(),
            tree_model::agree(old(self)@, old(os)@),
            old(self)@.live(ptr as int),
        ensures
            final(self).wf(),
            tree_model::agree(final(self)@, final(os)@),
            (final(self)@, final(os)@, as_move(r)) == old(self)@.relocated(
                old(os)@,
                ptr - HEADER_SIZE,
                size as int,
            ),
            old(self)@.all_mapped() ==> final(self)@.all_mapped(),
    {
        let ghost v = self@;
        let bl_size = self.size(ptr);
        proof {
            self.lemma_view();
            tree_laws::law_served(v, os@, size as int);
        }
        let new_ptr = match self.alloc_bytes(os, size) {
            Some(p) => p,
            None => {
                return None;
            },
        };
        let ghost w = self@;
        proof {
            assert(v.live(ptr as int));
            tree_steps::lemma_freed_arenas(w, ptr - HEADER_SIZE);
        }
        self.free(ptr);
        proof {
            tree_model::lemma_agree_same(w, self@, os@);
        }
        Some(Relocation { ptr: new_ptr, copied: bl_size })
    }

    /// The same at a multiple of `alignment`.
    fn relocate_aligned(&mut self, os: &mut Os, ptr: u64, size: u64, alignment: u64) -> (r: Option<Relocation>)
        requires
            old(self).wf(),
            tree_model::agree(old(self)@, old(os)@),
            old(self)@.live(ptr as int),
            power2::is_pow2(alignment as int),
        ensures
            final(self).wf(),
            tree_model::agree(final(self)@, final(os)@),
            (final(self)@, final(os)@, as_move(r)) == old(self)@.relocated_aligned(
                old(os)@,
                ptr - HEADER_SIZE,
                size as int,
                alignment as int,
            ),
            old(self)@.all_mapped() ==> final(self)@.all_mapped(),
    {
        let ghost v = self@;
        let bl_size = self.size(ptr);
        proof {
            self.lemma_view();
            tree_laws::law_served_aligned(v, os@, size as int, alignment as int);
        }
        let new_ptr = match self.alloc_aligned(os, size, alignment) {
            Some(p) => p,
            None => {
                return None;
            },
        };
        let ghost w = self@;
        proof {
            assert(v.live(ptr as int));
            tree_steps::lemma_freed_arenas(w, ptr - HEADER_SIZE);
        }
        self.free(ptr);
        proof {
            tree_model::lemma_agree_same(w, self@, os@);
        }
        Some(Relocation { ptr: new_ptr, copied: bl_size })
    }

    /// Lets the payload at `ptr` hold `size` bytes: in place where the block is large
    /// enough or can take in what is free behind it, else together with what is free
    /// before it, else in another block. `None`, with the payload untouched, where the size
    /// is beyond the limit or memory is lacking.
    pub fn realloc(&mut self, os: &mut Os, ptr: u64, size: u64) -> (r: Option<Relocation>)
        requires
            old(self).wf(),
            tree_model::agree(old(self)@, old(os)@),
            old(self)@.live(ptr as int),
        ensures
            final(self).wf(),
            tree_model::agree(final(self)@, final(os)@),
            (final(self)@, final(os)@, as_move(r)) == old(self)@.realloc(
                old(os)@,
                ptr - HEADER_SIZE,
                size as int,
            ),
            old(self)@.all_mapped() ==> final(self)@.all_mapped(),
    {
        let ghost v = self@;
        let ghost a = ptr - HEADER_SIZE;
        proof {
            tree_steps::lemma_around(v, a);
        }
        let size = match normalize_size(size) {
            Some(n) => n,
            None => {
                return None;
            },
        };
        proof {
            tree_steps::lemma_shrunk_arenas(v, a, size as int);
            tree_steps::lemma_merged_arenas(v, a, size as int);
        }
        let bl = block::ptr_get_block_header(ptr);
        let bl_size = self.blocks.size(bl);
        if bl_size >= size {
            self.shrink_block(bl, size);
            proof {
                tree_model::lemma_agree_same(v, self@, os@);
            }
            return Some(Relocation { ptr, copied: 0 });
        }
        let next = self.blocks.next(bl);
        let next_size = self.gain_of(next);
        if bl_size + next_size >= size {
            self.grow_forward(bl, size);
            proof {
                tree_model::lemma_agree_same(v, self@, os@);
            }
            return Some(Relocation { ptr, copied: 0 });
        }
        let prev = self.blocks.prev(bl);
        let prev_size = self.gain_of(prev);
        if bl_size + prev_size + next_size >= size {
            proof {
                tree_steps::lemma_merged_both(v, a);
                tree_steps::lemma_taken_arenas(v.merged_both(a), prev as int, size as int);
            }
            let bl = self.merge_both(bl);
            self.take_block(bl, size);
            proof {
                tree_model::lemma_agree_same(v, self@, os@);
            }
            return Some(Relocation { ptr: self.blocks.mem(bl), copied: bl_size });
        }
        self.relocate(os, ptr, size)
    }

    /// The same with the payload at a multiple of `alignment`, which it is already.
    #[verifier::rlimit(40)]
    pub fn realloc_aligned(&mut self, os: &mut Os, ptr: u64, size: u64, alignment: u64) -> (r: Option<Relocation>)
        requires
            old(self).wf(),
            tree_model::agree(old(self)@, old(os)@),
            old(self)@.live(ptr as int),
            power2::is_pow2(alignment as int),
            ptr as int % alignment as int == 0,
        ensures
            final(self).wf(),
            tree_model::agree(final(self)@, final(os)@),
            (final(self)@, final(os)@, as_move(r)) == old(self)@.realloc_aligned(
                old(os)@,
                ptr - HEADER_SIZE,
                size as int,
                alignment as int,
            ),
            old(self)@.all_mapped() ==> final(self)@.all_mapped(),
    {
        let ghost v = self@;
        let ghost a = ptr - HEADER_SIZE;
        proof {
            tree_steps::lemma_around(v, a);
        }
        let size = match normalize_size(size) {
            Some(n) => n,
            None => {
                return None;
            },
        };
        if alignment > MAX_ALLOCATION || size > MAX_ALLOCATION - alignment {
            return None;
        }
        proof {
            tree_steps::lemma_shrunk_arenas(v, a, size as int);
            tree_steps::lemma_merged_arenas(v, a, size as int);
        }
        let bl = block::ptr_get_block_header(ptr);
        let bl_size = self.blocks.size(bl);
        if bl_size >= size {
            self.shrink_block(bl, size);
            proof {
                tree_model::lemma_agree_same(v, self@, os@);
            }
            return Some(Relocation { ptr, copied: 0 });
        }
        let next = self.blocks.next(bl);
        let next_size = self.gain_of(next);
        if bl_size + next_size >= size {
            self.grow_forward(bl, size);
            proof {
                tree_model::lemma_agree_same(v, self@, os@);
            }
            return Some(Relocation { ptr, copied: 0 });
        }
        let prev = self.blocks.prev(bl);
        let prev_size = self.gain_of(prev);
        let alignment_offs = if self.blocks.used(prev) {
            0
        } else {
            let prev_mem = self.blocks.mem(prev);
            self.alignment_offset(prev_mem, alignment)
        };
        if bl_size + prev_size + next_size >= size + alignment_offs {
            let bl = self.grow_backward(bl, size, alignment);
            proof {
                tree_model::lemma_agree_same(v, self@, os@);
            }
            return Some(Relocation { ptr: self.blocks.mem(bl), copied: bl_size });
        }
        self.relocate_aligned(os, ptr, size, alignment)
    }

    /// Lets the payload at `ptr` hold `size` bytes without moving it, as far as the block
    /// and what is free behind it go, and returns the size that it has then. A size of zero
    /// leaves the payload as it is.
    pub fn resize(&mut self, ptr: u64, size: u64) -> (r: u64)
        requires
            old(self).wf(),
            old(self)@.live(ptr as int),
        ensures
            final(self).wf(),
            final(self)@ == old(self)@.resized(ptr - HEADER_SIZE, size as int),
            final(self)@.live(ptr as int),
            r == final(self)@.usable(ptr as int),
    {
        let ghost v = self@;
        let ghost a = ptr - HEADER_SIZE;
        proof {
            tree_steps::lemma_around(v, a);
        }
        let bl = block::ptr_get_block_header(ptr);
        if size == 0 {
            return self.blocks.size(bl);
        }
        let size = match normalize_size(size) {
            Some(n) => n,
            None => {
                return self.blocks.size(bl);
            },
        };
        let bl_size = self.blocks.size(bl);
        if bl_size >= size {
            self.shrink_block(bl, size);
            return self.blocks.size(bl);
        }
        let next = self.blocks.next(bl);
        let next_used = self.blocks.used(next);
        let next_size = self.blocks.size(next);
        if !next_used && bl_size + next_size + HEADER_SIZE >= size {
            self.grow_forward(bl, size);
        }
        self.blocks.size(bl)
    }

    /// The size of the payload at `ptr`.
    pub fn size(&self, ptr: u64) -> (r: u64)
        requires
            self.wf(),
            self@.live(ptr as int),
        ensures
            r == self@.usable(ptr as int),
    {
        proof {
            reveal(Tree::inv);
            reveal(TreeView::ok);
            reveal(TreeView::ok_but);
        }
        proof {
            heap::lemma_neighbours(self@.blocks, self@.arenas, ptr - HEADER_SIZE);
        }
        self.blocks.size(block::ptr_get_block_header(ptr))
    }

    /// Whether `ptr` is the payload of a block in use.
    pub fn is_live(&self, ptr: u64) -> (r: bool)
        requires
            self.wf(),
        ensures
            r == self@.live(ptr as int),
    {
        proof {
            reveal(Tree::inv);
            reveal(TreeView::ok);
            reveal(TreeView::ok_but);
        }
        if ptr < HEADER_SIZE {
            proof {
                if self@.blocks.contains_key(ptr - HEADER_SIZE) {
                    heap::lemma_block(self@.blocks, self@.arenas, ptr - HEADER_SIZE);
                }
            }
            return false;
        }
        let bl = block::ptr_get_block_header(ptr);
        self.blocks.contains(bl) && self.blocks.prev(bl) != 0 && self.blocks.size(bl) != 0
            && self.blocks.used(bl)
    }

    /// Gives the arena of the free block at `bl` back to the system if the block fills it.
    fn purge_block(&mut self, os: &mut Os, bl: u64, Ghost(kept): Ghost<Seq<int>>, Ghost(rest): Ghost<Seq<int>>)
        requires
            old(self).inv(),
            old(self).counted(),
            tree_steps::purging(old(self)@, old(os)@, kept, rest),
            rest.len() > 0,
            bl == rest[0] - HEADER_SIZE,
        ensures
            final(self).inv(),
            final(self).counted(),
            (final(self)@, final(os)@) == old(self)@.purged_block(old(os)@, bl as int),
            ({
                let kept1 = if heap::sole(old(self)@.blocks, bl as int) {
                    kept
                } else {
                    kept.push(rest[0])
                };
                tree_steps::purging(final(self)@, final(os)@, kept1, rest.skip(1))
            }),
    {
        proof {
            reveal(Tree::inv);
            reveal(TreeView::ok);
            reveal(TreeView::ok_but);
        }
        let ghost v = self@;
        let ghost o = os@;
        let ghost a = bl as int;
        proof {
            self.free_tree.lemma_view();
            v.index.lemma_members();
            assert(v.index.members()[kept.len() as int] == rest[0]);
            assert(v.index.members().contains(rest[0]));
            tree_steps::lemma_purged_block(v, o, kept, rest);
            heap::lemma_neighbours(v.blocks, v.arenas, a);
        }
        let prev = self.blocks.prev(bl);
        let next = self.blocks.next(bl);
        let prev_prev = self.blocks.prev(prev);
        let next_size = self.blocks.size(next);
        if prev_prev == 0 && next_size == 0 {
            proof {
                assert(heap::sole(v.blocks, a));
                heap::lemma_without_arena(v.blocks, v.arenas, a);
                tree_steps::lemma_total_bound(v);
                tree_model::lemma_agree_same(v, v, o);
            }
            self.detach(bl);
            let mem_start = prev;
            let mem_end = self.blocks.mem(next);
            let size = mem_end - mem_start;
            proof {
                assert(v.arena_of(a) == (Mapping { base: mem_start, len: size }));
                tree_steps::lemma_total_part(v, v.arena_of(a));
            }
            self.system_free(os, mem_start, size);
            self.blocks.discard(bl);
            self.blocks.discard(prev);
            self.blocks.discard(next);
            proof {
                self.arenas@ = self.arenas@.remove(mem_start as int);
                self.mapped@ = self.mapped@.remove(self.mapped@.index_of(v.arena_of(a)));
                assert(self@.blocks =~= v.purged_block(o, a).0.blocks);
                assert(self@ == v.purged_block(o, a).0);
            }
        }
    }

    /// Gives every arena that one free block fills back to the system.
    pub fn purge(&mut self, os: &mut Os)
        requires
            old(self).wf(),
            tree_model::agree(old(self)@, old(os)@),
            old(self)@.all_mapped(),
        ensures
            final(self).wf(),
            tree_model::agree(final(self)@, final(os)@),
            final(self)@.all_mapped(),
            (final(self)@, final(os)@) == old(self)@.purged(old(os)@),
    {
        proof {
            reveal(Tree::inv);
            reveal(TreeView::ok);
            reveal(TreeView::ok_but);
        }
        let ghost v0 = self@;
        proof {
            tree_steps::lemma_flushed(v0);
            tree_steps::lemma_attached(v0, None);
        }
        self.attach(None);
        let ghost v = self@;
        proof {
            tree_model::lemma_agree_same(v0, v, os@);
        }
        let ghost o = os@;
        let ghost nodes = v.index.members_from(MIN_PURGEABLE as int);
        let ghost mut k: int = 0;
        let ghost mut kept: Seq<int> = v.index.members().take(
            v.index.members().len() - nodes.len(),
        );
        proof {
            self.free_tree.lemma_view();
            v.index.lemma_members_from(MIN_PURGEABLE as int);
            assert(v.index.members() =~= kept + nodes.skip(0));
            assert(nodes.take(0) =~= Seq::empty());
        }
        let mut node = self.free_tree.lower_bound(MIN_PURGEABLE);
        let mut going = true;
        while going
            invariant
                self.inv(),
                self.counted(),
                0 <= k <= nodes.len(),
                (self@, os@) == v.purged_nodes(o, nodes.take(k)),
                tree_steps::purging(self@, os@, kept, nodes.skip(k)),
                node matches Some(cur) ==> k < nodes.len() && cur == nodes[k],
                node is None ==> k == nodes.len(),
                !going ==> k == nodes.len(),
            decreases
                nodes.len() - k,
                (if going {
                    1int
                } else {
                    0
                }),
        {
            match node {
                None => {
                    going = false;
                },
                Some(cur) => {
                    let ghost rest = nodes.skip(k);
                    let ghost w = self@;
                    proof {
                        reveal(Tree::inv);
                        self.free_tree.lemma_view();
                        w.index.lemma_members();
                        assert(rest[0] == cur as int);
                        assert(w.index.members()[kept.len() as int] == cur as int);
                        assert(w.index.members().contains(cur as int));
                        w.index.lemma_beside(cur as int);
                        assert(w.index.members().index_of(cur as int) == kept.len());
                        tree_steps::lemma_purged_block(w, os@, kept, rest);
                        heap::lemma_free_is_real(w.blocks, w.arenas, cur - HEADER_SIZE);
                    }
                    let bl = block::get_block(cur);
                    node = self.free_tree.succ(cur);
                    proof {
                        if k + 1 < nodes.len() {
                            assert(w.index.members()[kept.len() as int + 1] == rest[1]);
                            assert(rest[1] == nodes[k + 1]);
                        }
                    }
                    self.purge_block(os, bl, Ghost(kept), Ghost(rest));
                    proof {
                        if !heap::sole(w.blocks, bl as int) {
                            kept = kept.push(cur as int);
                        }
                        assert(rest.skip(1) =~= nodes.skip(k + 1));
                        assert(nodes.take(k + 1).drop_last() =~= nodes.take(k));
                        assert(nodes.take(k + 1).last() == cur as int);
                        k = k + 1;
                    }
                },
            }
        }
        proof {
            assert(nodes.take(k) =~= nodes);
            assert(self@.attached(None) == self@);
        }
        self.attach(None);
    }
}

} // verus!
