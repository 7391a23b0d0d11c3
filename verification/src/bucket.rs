//! The path for small requests: buckets of pages of equal slots.

use crate::align;
use crate::bucket_model;
use crate::bucket_model::{BucketsView, MARKER_STEP};
use crate::list::{IntrusiveList, SENTINEL};
use crate::os;
use crate::os::{Mapping, Os, PAGE_SIZE};
use crate::page;
use crate::page::{Pages, MARKER_CONST, MAX_SMALL_ALLOCATION, MIN_ALLOCATION, NUM_BUCKETS, USABLE};
use crate::tree;
use crate::tree::Relocation;
use vstd::prelude::*;

verus! {

/// One size class: its pages in the order in which they are tried. A page that becomes
/// full goes to the end, a full page that gets a slot back goes to the front.
pub struct Bucket {
    addr: u64,
    pages: IntrusiveList,
}

impl View for Bucket {
    type V = Seq<int>;

    closed spec fn view(&self) -> Seq<int> {
        self.pages@
    }
}

impl Bucket {
    pub closed spec fn wf(&self) -> bool {
        self.pages.wf()
    }

    /// The address that the marker is derived from.
    pub closed spec fn spec_addr(&self) -> u64 {
        self.addr
    }

    /// A bucket without pages, whose marker is derived from `addr`.
    pub fn new(addr: u64) -> (b: Self)
        ensures
            b.wf(),
            b@ == Seq::<int>::empty(),
            b.spec_addr() == addr,
    {
        Bucket { addr, pages: IntrusiveList::new() }
    }

    /// The marker that the pages of this bucket are made with.
    pub fn marker(&self) -> (r: u32)
        ensures
            r == page::marker_of(self.spec_addr()),
    {
        let addr = self.addr as u32;
        addr ^ MARKER_CONST
    }

    /// The first page, if it has a free slot.
    pub fn get_free_page(&self, pages: &Pages) -> (r: Option<u64>)
        requires
            self.wf(),
            pages.wf(),
            self@.len() > 0 ==> pages@.contains_key(self@[0]),
        ensures
            tree::as_int(r) == bucket_model::free_page(pages@, self@),
    {
        let front = match self.pages.front() {
            Some(p) => p,
            None => {
                return None;
            },
        };
        if pages.is_full(front) {
            None
        } else {
            Some(front)
        }
    }

    /// Puts a page first.
    pub fn add_free_page(&mut self, page: u64)
        requires
            old(self).wf(),
            page != 0,
            !old(self)@.contains(page as int),
        ensures
            final(self).wf(),
            final(self)@ == old(self)@.insert(0, page as int),
            final(self).spec_addr() == old(self).spec_addr(),
    {
        self.pages.push_front(page);
    }

    /// Hands out a slot of `page`.
    pub fn alloc_slot(&mut self, pages: &mut Pages, page: u64) -> (r: u64)
        requires
            old(self).wf(),
            old(pages).wf(),
            old(self)@.contains(page as int),
            old(pages)@.contains_key(page as int),
            !old(pages)@[page as int].full(),
        ensures
            final(self).wf(),
            final(pages).wf(),
            r == old(pages)@[page as int].free[0],
            final(pages)@ == old(pages)@.insert(page as int, old(pages)@[page as int].taken()),
            final(self)@ == bucket_model::after_take(old(pages)@, old(self)@, page as int),
            final(self).spec_addr() == old(self).spec_addr(),
    {
        let free = pages.take_slot(page);
        proof {
            self.pages.lemma_view();
            let l = self@;
            let k = l.index_of(page as int);
            assert(!l.remove(k).contains(page as int)) by {
                if l.remove(k).contains(page as int) {
                    let i = l.remove(k).index_of(page as int);
                    assert(l[if i < k { i } else { i + 1 }] == page as int);
                }
            }
        }
        if pages.is_full(page) {
            self.pages.unlink_node(page);
            self.pages.push_back(page);
        }
        free
    }

    /// Gives the slot at `ptr` back to `page`.
    pub fn free(&mut self, pages: &mut Pages, page: u64, ptr: u64)
        requires
            old(self).wf(),
            old(pages).wf(),
            old(self)@.contains(page as int),
            old(pages)@.contains_key(page as int),
            old(pages)@[page as int].live(page as int, ptr as int),
        ensures
            final(self).wf(),
            final(pages).wf(),
            final(pages)@ == old(pages)@.insert(
                page as int,
                old(pages)@[page as int].given(ptr as int),
            ),
            final(self)@ == bucket_model::after_give(old(pages)@, old(self)@, page as int),
            final(self).spec_addr() == old(self).spec_addr(),
    {
        let was_full = pages.is_full(page);
        pages.give_slot(page, ptr);
        proof {
            self.pages.lemma_view();
            let l = self@;
            let k = l.index_of(page as int);
            assert(!l.remove(k).contains(page as int)) by {
                if l.remove(k).contains(page as int) {
                    let i = l.remove(k).index_of(page as int);
                    assert(l[if i < k { i } else { i + 1 }] == page as int);
                }
            }
        }
        if was_full {
            self.pages.unlink_node(page);
            self.pages.push_front(page);
        }
    }
}

/// All size classes, their pages, and the bytes that the system has served for them.
pub struct Buckets {
    buckets: Vec<Bucket>,
    pages: Pages,
    allocated_bytes: u64,
}

impl View for Buckets {
    type V = BucketsView;

    closed spec fn view(&self) -> BucketsView {
        BucketsView {
            pages: self.pages@,
            lists: Seq::new(self.buckets@.len(), |i: int| self.buckets@[i]@),
        }
    }
}

impl Buckets {
    spec fn bucket_wf(&self, i: int) -> bool {
        self.buckets@[i].wf() && self.buckets@[i].spec_addr() == MARKER_STEP * i
    }

    /// The parts are in order.
    pub closed spec fn inv(&self) -> bool {
        &&& self.buckets@.len() == NUM_BUCKETS
        &&& self.pages.wf()
        &&& forall|i: int| 0 <= i < NUM_BUCKETS ==> #[trigger] self.bucket_wf(i)
    }

    /// The counter says how much the system has served.
    pub closed spec fn counted(&self) -> bool {
        self.allocated_bytes == self@.total()
    }

    /// Everything is in order.
    pub open spec fn wf(&self) -> bool {
        self.inv() && self@.ok() && self.counted()
    }

    /// Buckets without pages.
    pub fn new() -> (b: Self)
        ensures
            b.wf(),
            b@ == BucketsView::empty(),
    {
        let mut buckets: Vec<Bucket> = Vec::new();
        let mut i: u64 = 0;
        while i < NUM_BUCKETS
            invariant
                i <= NUM_BUCKETS,
                buckets@.len() == i,
                forall|j: int|
                    0 <= j < i ==> (#[trigger] buckets@[j]).wf() && buckets@[j].spec_addr()
                        == MARKER_STEP * j && buckets@[j]@ == Seq::<int>::empty(),
            decreases NUM_BUCKETS - i,
        {
            buckets.push(Bucket::new(i * MARKER_STEP));
            i = i + 1;
        }
        let b = Buckets { buckets, pages: Pages::new(), allocated_bytes: 0 };
        proof {
            reveal(BucketsView::ok);
            assert(b@.lists =~= BucketsView::empty().lists);
            assert(b@.pages.dom() =~= Set::empty());
            assert forall|j: int| 0 <= j < NUM_BUCKETS implies #[trigger] b.bucket_wf(j) by {
                assert(b.buckets@[j].wf());
            }
        }
        b
    }

    /// The bytes that the system has served for this path, whole pages.
    pub fn allocated(&self) -> (r: u64)
        requires
            self.wf(),
        ensures
            r == self@.total(),
    {
        self.allocated_bytes
    }

    /// Asks the system for a page and counts it.
    fn system_alloc(&mut self, os: &mut Os) -> (r: Option<u64>)
        requires
            old(self).wf(),
            bucket_model::agree(old(self)@, old(os)@),
        ensures
            final(self).inv(),
            final(self)@ == old(self)@,
            final(os)@ == old(os)@.mapped(PAGE_SIZE as int),
            tree::as_int(r) == old(os)@.map_base(PAGE_SIZE as int),
            r is None ==> final(self).wf(),
            r is Some ==> final(self).allocated_bytes == old(self)@.total() + PAGE_SIZE,
    {
        proof {
            bucket_model::lemma_total(self@);
            bucket_model::lemma_agree_fresh(self@, os@);
        }
        let ptr = match os.map(PAGE_SIZE) {
            Some(p) => p,
            None => {
                return None;
            },
        };
        self.allocated_bytes = self.allocated_bytes + PAGE_SIZE;
        proof {
            assert forall|j: int| 0 <= j < NUM_BUCKETS implies #[trigger] self.bucket_wf(j) by {
                assert(old(self).bucket_wf(j));
            }
        }
        Some(ptr)
    }

    /// Maps a page for the bucket at `bi` and returns the address of its record.
    fn grow(&mut self, os: &mut Os, bi: u64) -> (r: Option<u64>)
        requires
            old(self).wf(),
            bucket_model::agree(old(self)@, old(os)@),
            bi < NUM_BUCKETS,
        ensures
            final(os)@ == old(os)@.mapped(PAGE_SIZE as int),
            match old(os)@.map_base(PAGE_SIZE as int) {
                Some(base) => {
                    &&& r == Some((base + USABLE) as u64)
                    &&& base + USABLE <= u64::MAX
                    &&& final(self).wf()
                    &&& final(self)@ == old(self)@.grown(bi as int, base)
                },
                None => r is None && final(self).wf() && final(self)@ == old(self)@,
            },
            bucket_model::agree(final(self)@, final(os)@),
    {
        let ghost v = self@;
        proof {
            bucket_model::lemma_agree_fresh(v, os@);
            bucket_model::lemma_list(v, bi as int);
        }
        let elem_size = page::bucket_spacing_function_inverse(bi);
        let mem = match self.system_alloc(os) {
            Some(p) => p,
            None => {
                return None;
            },
        };
        let ghost before = *self;
        proof {
            bucket_model::lemma_grown(v, bi as int, mem as int);
            assert(self.bucket_wf(bi as int));
            assert(bi * MARKER_STEP == MARKER_STEP * bi) by (nonlinear_arith);
            page::law_spacing(bi as int, 8);
        }
        let marker = self.buckets[bi as usize].marker();
        let page = self.pages.init_page_at(mem, elem_size, marker);
        proof {
            let list = v.lists[bi as int];
            assert(!list.contains(page as int)) by {
                if list.contains(page as int) {
                    assert(v.pages.contains_key(list[list.index_of(page as int)]));
                }
            }
        }
        self.buckets[bi as usize].add_free_page(page);
        proof {
            assert(self@.lists =~= v.grown(bi as int, mem as int).lists);
            assert(self@ == v.grown(bi as int, mem as int));
            assert forall|j: int| 0 <= j < NUM_BUCKETS implies #[trigger] self.bucket_wf(j) by {
                assert(before.bucket_wf(j));
            }
        }
        Some(page)
    }

    /// Hands out a slot of the bucket at `bi`: of its first page, or of a fresh one where
    /// the bucket has no free slot. `None`, with nothing changed, where the system does not
    /// serve a page.
    pub fn alloc_direct(&mut self, os: &mut Os, bi: u64) -> (r: Option<u64>)
        requires
            old(self).wf(),
            bucket_model::agree(old(self)@, old(os)@),
            bi < NUM_BUCKETS,
        ensures
            final(self).wf(),
            bucket_model::agree(final(self)@, final(os)@),
            (final(self)@, final(os)@, tree::as_int(r)) == old(self)@.served(
                old(os)@,
                bi as int,
            ),
    {
        let ghost v = self@;
        proof {
            bucket_model::lemma_list(v, bi as int);
            bucket_model::lemma_agree_fresh(v, os@);
            assert(self.bucket_wf(bi as int));
            assert(self.buckets@[bi as int]@ == v.lists[bi as int]);
        }
        let page = match self.buckets[bi as usize].get_free_page(&self.pages) {
            Some(p) => p,
            None => {
                proof {
                    if let Some(base) = os@.map_base(PAGE_SIZE as int) {
                        bucket_model::lemma_grown(v, bi as int, base);
                    }
                }
                match self.grow(os, bi) {
                    Some(p) => p,
                    None => {
                        return None;
                    },
                }
            },
        };
        let ghost w = self@;
        proof {
            bucket_model::lemma_list(w, bi as int);
            assert(w.lists[bi as int][0] == page as int);
            assert(w.pages.contains_key(w.lists[bi as int][0]));
            bucket_model::lemma_page(w, page as int);
            bucket_model::lemma_slot_taken(w, page as int);
            bucket_model::lemma_agree_same(w, w.slot_taken(page as int), os@);
            assert(self.bucket_wf(bi as int));
        }
        let ghost before = *self;
        let r = self.buckets[bi as usize].alloc_slot(&mut self.pages, page);
        proof {
            assert(self@.lists =~= w.slot_taken(page as int).lists);
            assert(self@ == w.slot_taken(page as int));
            assert forall|j: int| 0 <= j < NUM_BUCKETS implies #[trigger] self.bucket_wf(j) by {
                assert(before.bucket_wf(j));
            }
        }
        Some(r)
    }

    /// Hands out a slot of at least `size` bytes.
    pub fn alloc_bytes(&mut self, os: &mut Os, size: u64) -> (r: Option<u64>)
        requires
            old(self).wf(),
            bucket_model::agree(old(self)@, old(os)@),
            0 < size <= MAX_SMALL_ALLOCATION,
        ensures
            final(self).wf(),
            bucket_model::agree(final(self)@, final(os)@),
            (final(self)@, final(os)@, tree::as_int(r)) == old(self)@.served(
                old(os)@,
                page::class_of(size as int),
            ),
    {
        let bi = page::bucket_spacing_function(size);
        self.alloc_direct(os, bi)
    }

    /// Gives back the slot at `ptr`, which is one of the bucket at `bi`.
    pub fn free_direct(&mut self, ptr: u64, bi: u64)
        requires
            old(self).wf(),
            old(self)@.live(ptr as int),
            bi == old(self)@.bucket(ptr as int),
        ensures
            final(self).wf(),
            final(self)@ == old(self)@.freed(ptr as int),
            final(self)@.pages.dom() == old(self)@.pages.dom(),
    {
        let ghost v = self@;
        let page = page::ptr_get_page(ptr);
        proof {
            bucket_model::lemma_page(v, page as int);
            bucket_model::lemma_freed(v, ptr as int);
            assert(self.bucket_wf(bi as int));
        }
        let ghost before = *self;
        self.buckets[bi as usize].free(&mut self.pages, page, ptr);
        proof {
            assert(self@.lists =~= v.freed(ptr as int).lists);
            assert(self@ == v.freed(ptr as int));
            assert forall|j: int| 0 <= j < NUM_BUCKETS implies #[trigger] self.bucket_wf(j) by {
                assert(before.bucket_wf(j));
            }
        }
    }

    /// Gives back the slot at `ptr`.
    pub fn free(&mut self, ptr: u64)
        requires
            old(self).wf(),
            old(self)@.live(ptr as int),
        ensures
            final(self).wf(),
            final(self)@ == old(self)@.freed(ptr as int),
            final(self)@.pages.dom() == old(self)@.pages.dom(),
    {
        let page = page::ptr_get_page(ptr);
        let bi = self.pages.bucket_index(page);
        self.free_direct(ptr, bi);
    }

    /// The size of the slot at `ptr`.
    pub fn size(&self, ptr: u64) -> (r: u64)
        requires
            self.wf(),
            self@.live(ptr as int),
        ensures
            r == self@.usable(ptr as int),
            MIN_ALLOCATION <= r <= MAX_SMALL_ALLOCATION,
    {
        let page = page::ptr_get_page(ptr);
        self.pages.elem_size(page)
    }

    /// Lets the slot at `ptr` hold `size` bytes: as it is where it is large enough, else by
    /// moving to a slot that is. `None`, with the slot untouched, where there is none.
    pub fn realloc(&mut self, os: &mut Os, ptr: u64, size: u64) -> (r: Option<Relocation>)
        requires
            old(self).wf(),
            bucket_model::agree(old(self)@, old(os)@),
            old(self)@.live(ptr as int),
            size <= MAX_SMALL_ALLOCATION,
        ensures
            final(self).wf(),
            bucket_model::agree(final(self)@, final(os)@),
            (final(self)@, final(os)@, tree::as_move(r)) == old(self)@.realloc(
                old(os)@,
                ptr as int,
                size as int,
            ),
    {
        let ghost v = self@;
        let elem_size = self.size(ptr);
        if size <= elem_size {
            return Some(Relocation { ptr, copied: 0 });
        }
        proof {
            bucket_model::law_served(v, os@, page::class_of(size as int));
        }
        let new_ptr = match self.alloc_bytes(os, size) {
            Some(p) => p,
            None => {
                return None;
            },
        };
        let ghost w = self@;
        self.free(ptr);
        proof {
            bucket_model::lemma_agree_same(w, self@, os@);
        }
        Some(Relocation { ptr: new_ptr, copied: elem_size })
    }

    /// Whether `ptr` lies in a page of this path, by the record that stands where such a
    /// page has one.
    pub fn ptr_in_bucket(&self, ptr: u64) -> (r: bool)
        requires
            self.wf(),
        ensures
            r == self@.owns(ptr as int),
            r == (exists|bi: int|
                0 <= bi < NUM_BUCKETS && #[trigger] self@.lists[bi].contains(
                    page::page_of(ptr as int),
                )),
    {
        let ghost v = self@;
        let page = page::ptr_get_page(ptr);
        proof {
            if v.pages.contains_key(page as int) {
                bucket_model::lemma_page(v, page as int);
                assert(v.lists[v.pages[page as int].index].contains(page as int));
            }
            assert forall|bi: int|
                0 <= bi < NUM_BUCKETS && #[trigger] v.lists[bi].contains(
                    page as int,
                ) implies v.pages.contains_key(page as int) by {
                bucket_model::lemma_list(v, bi);
                let i = v.lists[bi].index_of(page as int);
                assert(v.pages.contains_key(v.lists[bi][i]));
            }
        }
        if !self.pages.contains(page) {
            return false;
        }
        let bi = self.pages.bucket_index(page);
        if bi >= NUM_BUCKETS {
            return false;
        }
        proof {
            assert(self.bucket_wf(bi as int));
        }
        let marker = self.buckets[bi as usize].marker();
        self.pages.check_marker(page, marker)
    }

    /// Whether `ptr` is a slot in use.
    pub fn is_live(&self, ptr: u64) -> (r: bool)
        requires
            self.wf(),
        ensures
            r == self@.live(ptr as int),
    {
        let page = page::ptr_get_page(ptr);
        if !self.pages.contains(page) {
            return false;
        }
        self.pages.is_live(page, ptr)
    }

    /// Gives a page back to the system.
    fn system_free(&mut self, os: &mut Os, ptr: u64)
        requires
            old(self).inv(),
            old(self).allocated_bytes >= PAGE_SIZE,
            old(os)@.ok(),
            old(os)@.held.contains(Mapping { base: ptr, len: PAGE_SIZE }),
            !old(os)@.grants.contains(Mapping { base: ptr, len: PAGE_SIZE }),
        ensures
            final(self).inv(),
            final(self)@ == old(self)@,
            final(self).allocated_bytes == old(self).allocated_bytes - PAGE_SIZE,
            final(os)@ == old(os)@.unmapped(Mapping { base: ptr, len: PAGE_SIZE }),
            final(os)@.ok(),
    {
        os.unmap(ptr, PAGE_SIZE);
        self.allocated_bytes = self.allocated_bytes - PAGE_SIZE;
        proof {
            assert forall|j: int| 0 <= j < NUM_BUCKETS implies #[trigger] self.bucket_wf(j) by {
                assert(old(self).bucket_wf(j));
            }
        }
    }

    /// Takes `page`, which has no slot in use, off the list of the bucket at `bi` and gives
    /// it back to the system.
    fn drop_page(&mut self, os: &mut Os, bi: u64, page: u64)
        requires
            old(self).wf(),
            bucket_model::agree(old(self)@, old(os)@),
            old(self)@.pages.contains_key(page as int),
            old(self)@.pages[page as int].index == bi,
        ensures
            final(self).wf(),
            ({
                let v = old(self)@;
                let list = v.lists[bi as int];
                final(self)@ == (BucketsView {
                    pages: v.pages.remove(page as int),
                    lists: v.lists.update(bi as int, list.remove(list.index_of(page as int))),
                })
            }),
            final(os)@ == old(os)@.unmapped(page::mapping_of(page as int)),
    {
        let ghost v = self@;
        let ghost list = v.lists[bi as int];
        proof {
            bucket_model::lemma_page(v, page as int);
            bucket_model::lemma_dropped(v, os@, page as int);
            bucket_model::lemma_total(v);
            assert(self.bucket_wf(bi as int));
            os::lemma_page_size();
            assert(page as int % PAGE_SIZE as int == USABLE);
            bucket_model::lemma_agree_fresh(v, os@);
            bucket_model::lemma_counted(v, page as int);
        }
        let ghost before = *self;
        self.buckets[bi as usize].pages.unlink_node(page);
        let mem = align::align_down(page, PAGE_SIZE);
        self.pages.discard(page);
        proof {
            assert forall|j: int| 0 <= j < NUM_BUCKETS implies #[trigger] self.bucket_wf(j) by {
                assert(before.bucket_wf(j));
            }
            assert(self@.lists =~= v.lists.update(
                bi as int,
                list.remove(list.index_of(page as int)),
            ));
        }
        self.system_free(os, mem);
    }

    /// Gives the pages of the bucket at `bi` that have no slot in use back to the system.
    fn purge_bucket(&mut self, os: &mut Os, bi: u64)
        requires
            old(self).wf(),
            bucket_model::agree(old(self)@, old(os)@),
            bi < NUM_BUCKETS,
        ensures
            final(self).wf(),
            bucket_model::agree(final(self)@, final(os)@),
            (final(self)@, final(os)@) == old(self)@.purged_bucket(old(os)@, bi as int),
    {
        let ghost v = self@;
        let ghost o = os@;
        let ghost b = bi as int;
        let ghost list = v.lists[b];
        let ghost mut j: int = 0;
        proof {
            bucket_model::lemma_purging(v, o, b, 0);
            bucket_model::lemma_list(v, b);
            assert(list.take(0) =~= Seq::empty());
            assert(list.skip(0) =~= list);
            assert(bucket_model::purging(v, o, b, 0) == (v, o)) by {
                assert(bucket_model::those(v.pages, list.take(0), false) + list.skip(0) =~= list);
                let w = bucket_model::purging(v, o, b, 0).0;
                assert(w.pages =~= v.pages);
                assert(w.lists =~= v.lists);
            }
            assert(self.bucket_wf(b));
            assert(self.buckets@[b]@ == list);
            self.buckets@[b].pages.lemma_view();
        }
        let sentinel = self.buckets[bi as usize].pages.sentinel();
        let mut cur = self.buckets[bi as usize].pages.next(sentinel);
        let mut going = true;
        while going && cur != sentinel
            invariant
                self.wf(),
                bi < NUM_BUCKETS,
                b == bi,
                v.ok(),
                bucket_model::agree(v, o),
                list == v.lists[b],
                v.lists.len() == NUM_BUCKETS,
                v.list_ok(b),
                0 <= j <= list.len(),
                sentinel == SENTINEL,
                (self@, os@) == bucket_model::purging(v, o, b, j),
                cur == crate::list::ring_at(list, j),
                forall|i: int| 0 <= i < list.len() ==> SENTINEL < #[trigger] list[i] <= u64::MAX,
                !going ==> j < list.len() && v.pages[list[j]].full(),
            decreases
                list.len() - j,
                (if going {
                    1int
                } else {
                    0
                }),
        {
            let ghost kept = bucket_model::those(v.pages, list.take(j), false);
            let ghost w = self@;
            proof {
                bucket_model::lemma_purging(v, o, b, j);
                bucket_model::lemma_purging(v, o, b, j + 1);
                assert(self.bucket_wf(b));
                assert(self.buckets@[b]@ == w.lists[b]);
                bucket_model::lemma_list(w, b);
                let t = list.take(j + 1);
                assert(t.drop_last() =~= list.take(j));
                assert(t.last() == list[j]);
            }
            if self.pages.is_full(cur) {
                going = false;
            } else {
                let next = self.buckets[bi as usize].pages.next(cur);
                proof {
                    let l = kept + list.skip(j);
                    assert(next == crate::list::ring_at(l, kept.len() as int + 1));
                    if j + 1 < list.len() {
                        assert(l[kept.len() as int + 1] == list[j + 1]);
                    }
                }
                if self.pages.is_empty(cur) {
                    self.drop_page(os, bi, cur);
                    proof {
                        bucket_model::lemma_purging_step(v, o, b, j);
                    }
                } else {
                    proof {
                        bucket_model::lemma_purging_step(v, o, b, j);
                    }
                }
                cur = next;
                proof {
                    j = j + 1;
                }
            }
        }
        proof {
            assert forall|i: int| j <= i < list.len() implies v.pages[#[trigger] list[i]].use_count() != 0 by {
                assert(v.pages.contains_key(list[i]));
                bucket_model::lemma_page(v, list[i]);
                page::lemma_slot_count(v.pages[list[i]].elem());
                if i > j {
                    assert(v.pages[list[j]].full() ==> v.pages[list[i]].full());
                }
            }
            bucket_model::lemma_those_rest(v.pages, list, j);
            bucket_model::lemma_purged_bucket(v, o, b);
        }
    }

    /// Gives every page that has no slot in use back to the system.
    pub fn purge(&mut self, os: &mut Os)
        requires
            old(self).wf(),
            bucket_model::agree(old(self)@, old(os)@),
        ensures
            final(self).wf(),
            bucket_model::agree(final(self)@, final(os)@),
            (final(self)@, final(os)@) == old(self)@.purged(old(os)@),
    {
        let mut bi: u64 = 0;
        while bi < NUM_BUCKETS
            invariant
                self.wf(),
                bucket_model::agree(self@, os@),
                bi <= NUM_BUCKETS,
                (self@, os@) == old(self)@.purged_upto(old(os)@, bi as int),
            decreases NUM_BUCKETS - bi,
        {
            self.purge_bucket(os, bi);
            bi = bi + 1;
        }
    }
}

} // verus!
