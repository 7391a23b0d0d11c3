//! The large-block heap as a mathematical state, and what each operation makes of it.

use crate::align;
use crate::block;
use crate::block::{Chain, FREE_NODE_SIZE, HEADER_SIZE};
use crate::heap;
use crate::heap::Arenas;
use crate::os;
use crate::os::{Mapping, OsView, ADDRESS_LIMIT, PAGE_SIZE};
use crate::page::MAX_SMALL_ALLOCATION;
use crate::rbtree::RbView;
use vstd::prelude::*;
use vstd::set_lib;

verus! {

/// What must remain of a block for the rest to become a block of its own: a header and
/// an index node.
pub const SPLIT_REMAINDER_MIN: u64 = 56;

/// The smallest free block that can fill an arena: a page less three headers and what the
/// opening fence can have taken in, with room to spare.
pub const MIN_PURGEABLE: u64 = 65448;

/// The largest request whose size arithmetic stays within 64 bits all the way to a
/// mapped arena: room for rounding up to a page, for three headers and for rounding up
/// to a header.
pub const MAX_ALLOCATION: u64 = 0xffff_ffff_fffe_ffbf;

/// The state of the large-block heap.
pub struct TreeView {
    /// All headers, fences included.
    pub blocks: Chain,
    /// The arenas, by their first address.
    pub arenas: Arenas,
    /// The most recently freed block, which is in neither index.
    pub mr: Option<int>,
    /// Free blocks above the small limit, by the address of their payload.
    pub index: RbView,
    /// Free blocks up to the small limit, by the address of their payload.
    pub small: Seq<int>,
    /// The mappings that the system has served.
    pub mapped: Seq<Mapping>,
}

/// The payload size that a request for `size` bytes is served with.
pub open spec fn normalized(size: int) -> Option<int> {
    if size > MAX_ALLOCATION {
        None
    } else {
        Some(align::rounded_up(
            if size < FREE_NODE_SIZE {
                FREE_NODE_SIZE as int
            } else {
                size
            },
            HEADER_SIZE as int,
        ))
    }
}

/// Whether a payload of `usable` bytes wastes no more on a request for `size` bytes than its
/// rounding and a rest that is too small for a block of its own.
#[verifier::opaque]
pub open spec fn snug(usable: int, size: int) -> bool {
    &&& usable % 16 == 0
    &&& normalized(size) matches Some(n) && n <= usable < n + SPLIT_REMAINDER_MIN
}

/// The size of the arena that is mapped for a payload of `size` bytes.
pub open spec fn arena_len(size: int) -> int {
    align::rounded_up(size + 3 * HEADER_SIZE, PAGE_SIZE as int)
}

/// How far above `ptr` the next multiple of `alignment` is.
#[verifier::opaque]
pub open spec fn offset(ptr: int, alignment: int) -> int {
    align::rounded_up(ptr, alignment) - ptr
}

/// The bytes of all mappings together.
pub open spec fn total(maps: Seq<Mapping>) -> int
    decreases maps.len(),
{
    if maps.len() == 0 {
        0
    } else {
        total(maps.drop_last()) + maps.last().len
    }
}

/// No mapping that can be served has a byte in common with an arena.
pub open spec fn clear_of(v: TreeView, os: OsView) -> bool {
    forall|m: Mapping| #[trigger]
        os.grants.contains(m) ==> heap::fresh(v.blocks, v.arenas, m.base as int, m.len as int)
}

/// The heap and the system agree on what has been served: the mappings of the heap are
/// held and no longer on offer, and what is on offer is clear of the heap.
#[verifier::opaque]
pub open spec fn agree(v: TreeView, os: OsView) -> bool {
    &&& os.ok()
    &&& clear_of(v, os)
    &&& forall|i: int|
        0 <= i < v.mapped.len() ==> os.held.contains(#[trigger] v.mapped[i])
            && !os.grants.contains(v.mapped[i])
}

/// Heap and system agree as long as neither the arenas nor the mappings change.
pub proof fn lemma_agree_same(v: TreeView, w: TreeView, os: OsView)
    requires
        agree(v, os),
        w.arenas == v.arenas,
        w.mapped == v.mapped,
    ensures
        agree(w, os),
        os.ok(),
        v.all_mapped() ==> w.all_mapped(),
{
    reveal(agree);
    reveal(TreeView::all_mapped);
    assert forall|m: Mapping| #[trigger] os.grants.contains(m) implies heap::fresh(
        w.blocks,
        w.arenas,
        m.base as int,
        m.len as int,
    ) by {
        assert(heap::fresh(v.blocks, v.arenas, m.base as int, m.len as int));
    }
}

/// What is on offer is clear of the heap.
pub proof fn lemma_agree_fresh(v: TreeView, os: OsView, size: int)
    requires
        agree(v, os),
    ensures
        os.ok(),
        os.mapped(size).ok(),
        !os.can_map(size) ==> agree(v, os.mapped(size)),
        os.can_map(size) ==> {
            let m = os.grants[os::first_of_len(os.grants, size)];
            &&& m.len == size
            &&& m.ok()
            &&& os.map_base(size) == Some(m.base as int)
            &&& heap::fresh(v.blocks, v.arenas, m.base as int, m.len as int)
        },
{
    reveal(agree);
    os.lemma_mapped(size);
    os::lemma_first_of_len(os.grants, size);
    if os.can_map(size) {
        let m = os.grants[os::first_of_len(os.grants, size)];
        assert(os.grants.contains(m));
    } else {
        assert(os.mapped(size).grants == os.grants && os.mapped(size).held == os.held);
    }
}

/// The addresses that the mappings cover.
pub open spec fn covered(maps: Seq<Mapping>) -> Set<int>
    decreases maps.len(),
{
    if maps.len() == 0 {
        Set::empty()
    } else {
        covered(maps.drop_last()).union(
            set_lib::set_int_range(maps.last().base as int, maps.last().end()),
        )
    }
}

proof fn lemma_covered(maps: Seq<Mapping>, x: int)
    requires
        covered(maps).contains(x),
    ensures
        exists|i: int| 0 <= i < maps.len() && maps[i].base <= x < #[trigger] maps[i].end(),
    decreases maps.len(),
{
    if maps.len() > 0 {
        if covered(maps.drop_last()).contains(x) {
            lemma_covered(maps.drop_last(), x);
            let i = choose|i: int|
                0 <= i < maps.drop_last().len() && maps.drop_last()[i].base <= x
                    < #[trigger] maps.drop_last()[i].end();
            assert(maps[i] == maps.drop_last()[i]);
            assert(x < maps[i].end());
        } else {
            let i = maps.len() - 1;
            assert(x < maps[i].end());
        }
    }
}

/// Mappings that are apart take no more than the address range, and null is not in it.
pub proof fn lemma_total(maps: Seq<Mapping>)
    requires
        forall|i: int| 0 <= i < maps.len() ==> (#[trigger] maps[i]).ok(),
        forall|i: int, j: int|
            #![trigger maps[i], maps[j]]
            0 <= i < j < maps.len() ==> maps[i].apart(maps[j]),
    ensures
        covered(maps).finite(),
        covered(maps).len() == total(maps),
        0 <= total(maps) < ADDRESS_LIMIT,
    decreases maps.len(),
{
    lemma_total_is_len(maps);
    set_lib::lemma_int_range(1, ADDRESS_LIMIT as int);
    let all = set_lib::set_int_range(1, ADDRESS_LIMIT as int);
    assert forall|x: int| covered(maps).contains(x) implies all.contains(x) by {
        lemma_covered(maps, x);
        let i = choose|i: int| 0 <= i < maps.len() && maps[i].base <= x < #[trigger] maps[i].end();
        assert(maps[i].ok());
    }
    set_lib::lemma_len_subset(covered(maps), all);
}

proof fn lemma_total_is_len(maps: Seq<Mapping>)
    requires
        forall|i: int| 0 <= i < maps.len() ==> (#[trigger] maps[i]).ok(),
        forall|i: int, j: int|
            #![trigger maps[i], maps[j]]
            0 <= i < j < maps.len() ==> maps[i].apart(maps[j]),
    ensures
        covered(maps).finite(),
        covered(maps).len() == total(maps),
    decreases maps.len(),
{
    if maps.len() > 0 {
        let rest = maps.drop_last();
        let m = maps.last();
        let r = set_lib::set_int_range(m.base as int, m.end());
        assert forall|i: int| 0 <= i < rest.len() implies (#[trigger] rest[i]).ok() by {
            assert(rest[i] == maps[i]);
        }
        assert forall|i: int, j: int|
            #![trigger rest[i], rest[j]]
            0 <= i < j < rest.len() implies rest[i].apart(rest[j]) by {
            assert(rest[i] == maps[i] && rest[j] == maps[j]);
        }
        lemma_total_is_len(rest);
        assert(maps[maps.len() - 1].ok());
        set_lib::lemma_int_range(m.base as int, m.end());
        assert(covered(rest).disjoint(r)) by {
            assert forall|x: int| covered(rest).contains(x) implies !r.contains(x) by {
                lemma_covered(rest, x);
                let i = choose|i: int|
                    0 <= i < rest.len() && rest[i].base <= x < #[trigger] rest[i].end();
                assert(maps[i] == rest[i]);
                assert(maps[i].apart(maps[maps.len() - 1]));
            }
        }
        set_lib::lemma_set_disjoint_lens(covered(rest), r);
    }
}

/// A total is not negative.
pub proof fn lemma_total_nonneg(maps: Seq<Mapping>)
    ensures
        total(maps) >= 0,
    decreases maps.len(),
{
    if maps.len() > 0 {
        lemma_total_nonneg(maps.drop_last());
    }
}

/// One mapping less takes its bytes off the total.
pub proof fn lemma_total_remove(maps: Seq<Mapping>, i: int)
    requires
        0 <= i < maps.len(),
    ensures
        total(maps.remove(i)) == total(maps) - maps[i].len,
    decreases maps.len(),
{
    if i == maps.len() - 1 {
        assert(maps.remove(i) =~= maps.drop_last());
    } else {
        lemma_total_remove(maps.drop_last(), i);
        assert(maps.remove(i).drop_last() =~= maps.drop_last().remove(i));
        assert(maps.remove(i).last() == maps.last());
    }
}

/// The index is in order.
#[verifier::opaque]
pub open spec fn index_ok(index: RbView) -> bool {
    index.ok()
}

impl TreeView {
    /// The state of a heap that has nothing yet.
    pub open spec fn empty() -> TreeView {
        TreeView {
            blocks: Map::empty(),
            arenas: Map::empty(),
            mr: None,
            index: RbView { groups: Seq::empty(), keys: Map::empty() },
            small: Seq::empty(),
            mapped: Seq::empty(),
        }
    }

    /// Whether `ptr` is the payload of a block in use.
    pub open spec fn live(self, ptr: int) -> bool {
        heap::ordinary(self.blocks, ptr - HEADER_SIZE) && self.blocks[ptr - HEADER_SIZE].used
    }

    /// The size of the payload at `ptr`.
    pub open spec fn usable(self, ptr: int) -> int {
        self.blocks[ptr - HEADER_SIZE].size
    }

    /// Whether the block at `a` can be found as free.
    pub open spec fn indexed(self, a: int) -> bool {
        ||| self.mr == Some(a)
        ||| self.index.keys.contains_key(a + HEADER_SIZE)
        ||| self.small.contains(a + HEADER_SIZE)
    }

    /// What is indexed is free, once, in the place that its size asks for.
    pub open spec fn sound(self) -> bool {
        let b = self.blocks;
        &&& index_ok(self.index)
        &&& self.small.no_duplicates()
        &&& forall|m: int| #[trigger]
            self.index.keys.contains_key(m) ==> b.contains_key(m - HEADER_SIZE)
                && !b[m - HEADER_SIZE].used && self.index.keys[m] == b[m - HEADER_SIZE].size
                && b[m - HEADER_SIZE].size > MAX_SMALL_ALLOCATION
        &&& forall|m: int| #[trigger]
            self.small.contains(m) ==> b.contains_key(m - HEADER_SIZE) && !b[m - HEADER_SIZE].used
                && b[m - HEADER_SIZE].size <= MAX_SMALL_ALLOCATION
        &&& self.mr matches Some(a) ==> {
            &&& b.contains_key(a)
            &&& !b[a].used
            &&& !self.index.keys.contains_key(a + HEADER_SIZE)
            &&& !self.small.contains(a + HEADER_SIZE)
        }
    }

    /// Every free block but `d` is indexed, and `d` is not.
    pub open spec fn complete_but(self, d: Option<int>) -> bool {
        forall|a: int| #[trigger]
            self.blocks.contains_key(a) && !self.blocks[a].used ==> (self.indexed(a) <==> d != Some(a))
    }

    /// The block at `a` is in use or the block behind it is.
    pub open spec fn quiet(self, a: int) -> bool {
        self.blocks[a].used || self.blocks[block::next_of(self.blocks, a)].used
    }

    /// No two free blocks are next to each other.
    pub open spec fn coalesced(self) -> bool {
        forall|a: int| self.blocks.contains_key(a) ==> #[trigger] self.quiet(a)
    }

    /// No two free blocks are next to each other, but perhaps `x` and its neighbours.
    pub open spec fn coalesced_round(self, x: int) -> bool {
        forall|a: int|
            self.blocks.contains_key(a) && a != x && block::next_of(self.blocks, a) != x
                ==> #[trigger] self.quiet(a)
    }

    /// The mappings are arenas, each of them once.
    pub open spec fn mapped_ok(self) -> bool {
        &&& forall|i: int| 0 <= i < self.mapped.len() ==> {
            let m = #[trigger] self.mapped[i];
            m.ok() && self.arenas.contains_key(m.base as int) && self.arenas[m.base as int] == m.len
        }
        &&& forall|i: int, j: int|
            #![trigger self.mapped[i], self.mapped[j]]
            0 <= i < j < self.mapped.len() ==> self.mapped[i].base != self.mapped[j].base
    }

    /// The heap is in order: blocks tile their arenas, every free block is indexed in
    /// exactly one place, and no two free blocks are neighbours.
    #[verifier::opaque]
    pub open spec fn ok(self) -> bool {
        &&& heap::heap_ok(self.blocks, self.arenas)
        &&& self.sound()
        &&& self.complete_but(None)
        &&& self.coalesced()
        &&& self.mapped_ok()
    }

    /// The same but for `d`, a free block that is on its way and not indexed.
    #[verifier::opaque]
    pub open spec fn ok_but(self, d: int) -> bool {
        &&& heap::heap_ok(self.blocks, self.arenas)
        &&& self.sound()
        &&& self.complete_but(Some(d))
        &&& self.coalesced()
        &&& self.mapped_ok()
        &&& self.blocks.contains_key(d)
        &&& !self.blocks[d].used
        &&& !self.indexed(d)
    }

    /// Every arena is a mapping of the system.
    #[verifier::opaque]
    pub open spec fn all_mapped(self) -> bool {
        forall|base: int| #[trigger]
            self.arenas.contains_key(base) ==> exists|i: int|
                0 <= i < self.mapped.len() && (#[trigger] self.mapped[i]).base == base
    }

    pub open spec fn with_blocks(self, b: Chain) -> TreeView {
        TreeView { blocks: b, ..self }
    }

    /// With the block at `a` marked as in use or free.
    pub open spec fn marked(self, a: int, used: bool) -> TreeView {
        self.with_blocks(block::with_used(self.blocks, a, used))
    }

    /// With `x` as the most recently freed block; the one before it moves to the index
    /// that its size asks for.
    pub open spec fn attached(self, x: Option<int>) -> TreeView {
        let v = match self.mr {
            Some(m) => {
                let size = self.blocks[m].size;
                if size > MAX_SMALL_ALLOCATION {
                    TreeView { index: self.index.inserted(m + HEADER_SIZE, size), ..self }
                } else {
                    TreeView { small: self.small.push(m + HEADER_SIZE), ..self }
                }
            },
            None => self,
        };
        TreeView { mr: x, ..v }
    }

    /// With the free block at `a` taken out of the place where it is indexed.
    pub open spec fn detached(self, a: int) -> TreeView {
        if self.mr == Some(a) {
            TreeView { mr: None, ..self }
        } else if self.blocks[a].size > MAX_SMALL_ALLOCATION {
            TreeView { index: self.index.erased(a + HEADER_SIZE), ..self }
        } else {
            TreeView {
                small: self.small.remove(self.small.index_of(a + HEADER_SIZE)),
                ..self
            }
        }
    }

    /// With the free block behind `a` merged into it, if that is free.
    pub open spec fn merged_next(self, a: int) -> TreeView {
        let n = block::next_of(self.blocks, a);
        if self.blocks[n].used {
            self
        } else {
            let v = self.detached(n);
            v.with_blocks(block::unlinked(v.blocks, n))
        }
    }

    /// With the block at `a` merged into the free block before it.
    pub open spec fn merged_prev(self, a: int) -> TreeView {
        let v = self.detached(self.blocks[a].prev);
        v.with_blocks(block::unlinked(v.blocks, a))
    }

    /// With the free block at `a` merged with its free neighbours, and the address of
    /// the outcome.
    pub open spec fn coalesce(self, a: int) -> (TreeView, int) {
        let v = self.merged_next(a);
        let p = v.blocks[a].prev;
        if v.blocks[p].used {
            (v, a)
        } else {
            (v.merged_prev(a), p)
        }
    }

    /// With the used block at `a` cut to `size` bytes where the rest is worth a block,
    /// which becomes the most recently freed one.
    pub open spec fn trimmed(self, a: int, size: int) -> TreeView {
        if self.blocks[a].size >= size + SPLIT_REMAINDER_MIN {
            self.with_blocks(heap::split(self.blocks, a, size)).attached(
                Some(a + HEADER_SIZE + size),
            )
        } else {
            self
        }
    }

    /// With `size` bytes of the free block at `a` taken into use.
    pub open spec fn taken(self, a: int, size: int) -> TreeView {
        self.marked(a, true).trimmed(a, size)
    }

    /// With the start of the free block at `a`, which is not indexed, moved up to a
    /// multiple of `alignment`, and the address of the outcome. The bytes below become a
    /// free block where they are enough for one, else they go to the block before.
    pub open spec fn aligned(self, a: int, alignment: int) -> (TreeView, int) {
        let offs = offset(a + HEADER_SIZE, alignment);
        if offs >= SPLIT_REMAINDER_MIN {
            (
                self.with_blocks(heap::split(self.blocks, a, offs - HEADER_SIZE)).attached(Some(a)),
                a + offs,
            )
        } else if offs > 0 {
            (self.with_blocks(heap::shifted(self.blocks, a, offs)), a + offs)
        } else {
            (self, a)
        }
    }

    /// With `size` bytes at a multiple of `alignment` taken from the free block at `a`,
    /// which is not indexed, and the address of their block.
    pub open spec fn placed(self, a: int, size: int, alignment: int) -> (TreeView, int) {
        let (v, x) = self.aligned(a, alignment);
        (v.taken(x, size), x)
    }

    /// The free block that serves `size` bytes: the most recently freed one if it is
    /// large enough, else a smallest one that is.
    pub open spec fn fit(self, size: int) -> Option<int> {
        match self.mr {
            Some(m) if self.blocks[m].size >= size => Some(m),
            _ => match self.index.rep(self.index.lower(size)) {
                Some(r) => Some(self.index.ring_after(r) - HEADER_SIZE),
                None => None,
            },
        }
    }

    /// Whether the indexed block with its payload at `m` has room for `size` bytes at a
    /// multiple of `alignment`.
    pub open spec fn roomy(self, m: int, size: int, alignment: int) -> bool {
        self.blocks[m - HEADER_SIZE].size >= size + offset(m, alignment)
    }

    /// The first member from index `i` of group `p` on, and before group `q`, that has
    /// room for `size` bytes at a multiple of `alignment`.
    pub open spec fn first_roomy(self, p: int, i: int, q: int, size: int, alignment: int) -> Option<int>
        decreases q - p, self.index.groups[p].len() - i,
    {
        if p < 0 || p >= q || p >= self.index.groups.len() || i < 0 {
            None
        } else if i >= self.index.groups[p].len() {
            self.first_roomy(p + 1, 0, q, size, alignment)
        } else if self.roomy(self.index.groups[p][i], size, alignment) {
            Some(self.index.groups[p][i])
        } else {
            self.first_roomy(p, i + 1, q, size, alignment)
        }
    }

    /// The free block that serves `size` bytes at a multiple of `alignment`: the most
    /// recently freed one if it has room; else the first one in ascending order that has
    /// room among those of up to `size + alignment` bytes; else a smallest one above
    /// that.
    pub open spec fn fit_aligned(self, size: int, alignment: int) -> Option<int> {
        let p = self.index.lower(size);
        let q = self.index.upper(size + alignment);
        match self.mr {
            Some(m) if self.roomy(m + HEADER_SIZE, size, alignment) => Some(m),
            _ => match self.first_roomy(p, 0, q, size, alignment) {
                Some(m) => Some(m - HEADER_SIZE),
                None => match self.index.rep(q) {
                    Some(r) => Some(self.index.ring_after(r) - HEADER_SIZE),
                    None => None,
                },
            },
        }
    }

    /// With an arena of `len` bytes at `base`, which is one free block that is not
    /// indexed.
    pub open spec fn with_arena(self, base: int, len: int) -> TreeView {
        TreeView {
            blocks: heap::with_arena(self.blocks, base, len),
            arenas: self.arenas.insert(base, len),
            ..self
        }
    }

    /// With an arena that the system has served.
    pub open spec fn grown(self, m: Mapping) -> TreeView {
        TreeView { mapped: self.mapped.push(m), ..self.with_arena(m.base as int, m.len as int) }
    }

    /// The state of the heap and of the system after a request for `size` bytes, and the
    /// address that answers it.
    pub open spec fn served(self, os: OsView, size: int) -> (TreeView, OsView, Option<int>) {
        match normalized(size) {
            None => (self, os, None),
            Some(n) => match self.fit(n) {
                Some(a) => (self.detached(a).taken(a, n), os, Some(a + HEADER_SIZE)),
                None => {
                    let len = arena_len(n);
                    match os.map_base(len) {
                        Some(base) => (
                            self.grown(Mapping { base: base as u64, len: len as u64 }).taken(
                                base + HEADER_SIZE,
                                n,
                            ),
                            os.mapped(len),
                            Some(base + 2 * HEADER_SIZE),
                        ),
                        None => (self, os.mapped(len), None),
                    }
                },
            },
        }
    }

    /// The same for a request at a multiple of `alignment`.
    pub open spec fn served_aligned(self, os: OsView, size: int, alignment: int) -> (
        TreeView,
        OsView,
        Option<int>,
    ) {
        match normalized(size) {
            None => (self, os, None),
            Some(n) => if n + alignment > MAX_ALLOCATION {
                (self, os, None)
            } else {
                match self.fit_aligned(n, alignment) {
                    Some(a) => {
                        let (v, x) = self.detached(a).placed(a, n, alignment);
                        (v, os, Some(x + HEADER_SIZE))
                    },
                    None => {
                        let len = arena_len(n + alignment);
                        match os.map_base(len) {
                            Some(base) => {
                                let (v, x) = self.grown(
                                    Mapping { base: base as u64, len: len as u64 },
                                ).placed(base + HEADER_SIZE, n, alignment);
                                (v, os.mapped(len), Some(x + HEADER_SIZE))
                            },
                            None => (self, os.mapped(len), None),
                        }
                    },
                }
            },
        }
    }

    /// With the used block at `a` given back, merged with its free neighbours.
    pub open spec fn freed(self, a: int) -> TreeView {
        let (v, x) = self.marked(a, false).coalesce(a);
        v.attached(Some(x))
    }

    /// With the used block at `a` cut to `size` bytes where the rest is worth a block,
    /// which is merged with a free block behind it.
    pub open spec fn shrunk(self, a: int, size: int) -> TreeView {
        if self.blocks[a].size >= size + SPLIT_REMAINDER_MIN {
            let (v, x) = self.with_blocks(heap::split(self.blocks, a, size)).coalesce(
                a + HEADER_SIZE + size,
            );
            v.attached(Some(x))
        } else {
            self
        }
    }

    /// What the free block at `a` adds to a neighbour that takes it in; nothing where it
    /// is in use.
    pub open spec fn gain(self, a: int) -> int {
        if self.blocks[a].used {
            0
        } else {
            self.blocks[a].size + HEADER_SIZE
        }
    }

    /// With the used block at `a` merged into the free block before it and with a free
    /// block behind it. The outcome is free and not indexed.
    pub open spec fn merged_both(self, a: int) -> TreeView {
        let p = self.blocks[a].prev;
        let n = block::next_of(self.blocks, a);
        let v = self.merged_prev(a);
        if self.blocks[n].used {
            v
        } else {
            let w = v.detached(n);
            w.with_blocks(block::unlinked(w.blocks, n))
        }
    }

    /// The state after the payload of the block at `a` was moved to a block of `size` bytes,
    /// its new address, and how many bytes have to be moved there.
    pub open spec fn relocated(self, os: OsView, a: int, size: int) -> (
        TreeView,
        OsView,
        Option<(int, int)>,
    ) {
        match self.served(os, size) {
            (v, os1, Some(ptr)) => (v.freed(a), os1, Some((ptr, self.blocks[a].size))),
            (v, os1, None) => (v, os1, None),
        }
    }

    /// The same at a multiple of `alignment`.
    pub open spec fn relocated_aligned(self, os: OsView, a: int, size: int, alignment: int) -> (
        TreeView,
        OsView,
        Option<(int, int)>,
    ) {
        match self.served_aligned(os, size, alignment) {
            (v, os1, Some(ptr)) => (v.freed(a), os1, Some((ptr, self.blocks[a].size))),
            (v, os1, None) => (v, os1, None),
        }
    }

    /// The state after the block at `a` was asked to hold `size` bytes, the address of
    /// its payload then, and how many bytes have to be moved there from its old payload.
    pub open spec fn realloc(self, os: OsView, a: int, size: int) -> (
        TreeView,
        OsView,
        Option<(int, int)>,
    ) {
        let have = self.blocks[a].size;
        let p = self.blocks[a].prev;
        let n = block::next_of(self.blocks, a);
        match normalized(size) {
            None => (self, os, None),
            Some(want) => if have >= want {
                (self.shrunk(a, want), os, Some((a + HEADER_SIZE, 0)))
            } else if have + self.gain(n) >= want {
                (self.merged_next(a).trimmed(a, want), os, Some((a + HEADER_SIZE, 0)))
            } else if have + self.gain(p) + self.gain(n) >= want {
                (self.merged_both(a).taken(p, want), os, Some((p + HEADER_SIZE, have)))
            } else {
                self.relocated(os, a, want)
            },
        }
    }

    /// The same at a multiple of `alignment`.
    pub open spec fn realloc_aligned(self, os: OsView, a: int, size: int, alignment: int) -> (
        TreeView,
        OsView,
        Option<(int, int)>,
    ) {
        let have = self.blocks[a].size;
        let p = self.blocks[a].prev;
        let n = block::next_of(self.blocks, a);
        let offs = if self.blocks[p].used {
            0
        } else {
            offset(p + HEADER_SIZE, alignment)
        };
        match normalized(size) {
            None => (self, os, None),
            Some(want) => if want + alignment > MAX_ALLOCATION {
                (self, os, None)
            } else if have >= want {
                (self.shrunk(a, want), os, Some((a + HEADER_SIZE, 0)))
            } else if have + self.gain(n) >= want {
                (self.merged_next(a).trimmed(a, want), os, Some((a + HEADER_SIZE, 0)))
            } else if have + self.gain(p) + self.gain(n) >= want + offs {
                let (v, x) = self.merged_both(a).placed(p, want, alignment);
                (v, os, Some((x + HEADER_SIZE, have)))
            } else {
                self.relocated_aligned(os, a, want, alignment)
            },
        }
    }

    /// The state after the block at `a` was asked to hold `size` bytes without moving. A size
    /// of zero changes nothing.
    pub open spec fn resized(self, a: int, size: int) -> TreeView {
        let have = self.blocks[a].size;
        let n = block::next_of(self.blocks, a);
        match normalized(size) {
            None => self,
            Some(want) => if size == 0 {
                self
            } else if have >= want {
                self.shrunk(a, want)
            } else if !self.blocks[n].used && have + self.gain(n) >= want {
                self.merged_next(a).trimmed(a, want)
            } else {
                self
            },
        }
    }

    /// The mapping of the arena that the block at `a` fills.
    pub open spec fn arena_of(self, a: int) -> Mapping {
        let base = self.blocks[a].prev;
        Mapping {
            base: base as u64,
            len: (block::next_of(self.blocks, a) + HEADER_SIZE - base) as u64,
        }
    }

    /// The state after the arena of the free block at `a` was given back, if the block
    /// fills it.
    pub open spec fn purged_block(self, os: OsView, a: int) -> (TreeView, OsView) {
        if heap::sole(self.blocks, a) {
            let m = self.arena_of(a);
            let v = self.detached(a);
            (
                TreeView {
                    blocks: heap::without_arena(self.blocks, a),
                    arenas: self.arenas.remove(m.base as int),
                    mapped: self.mapped.remove(self.mapped.index_of(m)),
                    ..v
                },
                os.unmapped(m),
            )
        } else {
            (self, os)
        }
    }

    /// The same for each of the index nodes in `nodes`, one after the other.
    pub open spec fn purged_nodes(self, os: OsView, nodes: Seq<int>) -> (TreeView, OsView)
        decreases nodes.len(),
    {
        if nodes.len() == 0 {
            (self, os)
        } else {
            let (v, o) = self.purged_nodes(os, nodes.drop_last());
            v.purged_block(o, nodes.last() - HEADER_SIZE)
        }
    }

    /// The state after every arena that one free block fills was given back.
    pub open spec fn purged(self, os: OsView) -> (TreeView, OsView) {
        let v = self.attached(None);
        v.purged_nodes(os, v.index.members_from(MIN_PURGEABLE as int))
    }
}

} // verus!
