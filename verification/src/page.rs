//! Pages of equal slots: each page keeps its free slots on a singly linked list.
//!
//! A page is known by the address of its bookkeeping record, which takes the last bytes
//! of the page.

use crate::align;
use crate::os;
use crate::os::{Mapping, ADDRESS_LIMIT, PAGE_SIZE};
use crate::table::Table;
use vstd::arithmetic::{div_mod, mul};
use vstd::prelude::*;
use vstd::set_lib;

verus! {

/// The smallest size class is two to this power.
pub const MIN_ALLOCATION_LOG2: u64 = 3;

/// The smallest size class, and the step from one class to the next.
pub const MIN_ALLOCATION: u64 = 8;

/// The largest size class.
pub const MAX_SMALL_ALLOCATION: u64 = 256;

/// The number of size classes.
pub const NUM_BUCKETS: u64 = 32;

/// The bytes that the bookkeeping record takes at the end of a page.
pub const RECORD_SIZE: u64 = 32;

/// The bytes of a page in front of its record.
pub const USABLE: u64 = 65504;

/// Mixed into every marker.
pub const MARKER_CONST: u32 = 0x628b_f2b6;

/// Whether a request of `size` bytes is served from a page of slots.
pub fn is_small_allocation(size: u64) -> (r: bool)
    ensures
        r == (size <= MAX_SMALL_ALLOCATION),
{
    size <= MAX_SMALL_ALLOCATION
}

/// `size`, or the smallest size class if that is larger.
pub open spec fn clamped(size: int) -> int {
    if size < MIN_ALLOCATION {
        MIN_ALLOCATION as int
    } else {
        size
    }
}

/// `size`, or the smallest size class if that is larger.
pub fn clamp_small_allocation(size: u64) -> (r: u64)
    ensures
        r == clamped(size as int),
{
    if size < MIN_ALLOCATION {
        MIN_ALLOCATION
    } else {
        size
    }
}

/// The element size of the bucket at `index`.
pub open spec fn elem_of(index: int) -> int {
    8 * (index + 1)
}

/// The bucket with the smallest element size that holds `size` bytes.
pub open spec fn class_of(size: int) -> int {
    (size - 1) / 8
}

/// The bucket that serves `size` bytes.
pub fn bucket_spacing_function(size: u64) -> (r: u64)
    requires
        0 < size <= MAX_SMALL_ALLOCATION,
    ensures
        r == class_of(size as int),
        r < NUM_BUCKETS,
        elem_of(r as int) - 8 < size <= elem_of(r as int),
{
    let s = size + (MIN_ALLOCATION - 1);
    assert(s >> 3u64 == s / 8) by (bit_vector);
    (s >> MIN_ALLOCATION_LOG2) - 1
}

/// The bucket that serves `size` bytes, for a multiple of the smallest size class.
pub fn bucket_spacing_function_aligned(size: u64) -> (r: u64)
    requires
        0 < size <= MAX_SMALL_ALLOCATION,
        size % MIN_ALLOCATION == 0,
    ensures
        r == class_of(size as int),
        r < NUM_BUCKETS,
        elem_of(r as int) == size,
{
    assert(size >> 3u64 == size / 8) by (bit_vector);
    (size >> MIN_ALLOCATION_LOG2) - 1
}

/// The element size of the bucket at `index`.
pub fn bucket_spacing_function_inverse(index: u64) -> (r: u64)
    requires
        index < NUM_BUCKETS,
    ensures
        r == elem_of(index as int),
        r % MIN_ALLOCATION == 0,
        MIN_ALLOCATION <= r <= MAX_SMALL_ALLOCATION,
{
    let i = index + 1;
    assert(i <= 32 ==> i << 3u64 == 8 * i) by (bit_vector);
    i << MIN_ALLOCATION_LOG2
}

/// From a bucket to its element size and back is the same bucket, and a size is served by
/// the bucket whose element size is the size rounded up to a multiple of the smallest
/// class.
pub proof fn law_spacing(index: int, size: int)
    requires
        0 <= index < NUM_BUCKETS,
        0 < size <= MAX_SMALL_ALLOCATION,
    ensures
        class_of(elem_of(index)) == index,
        0 <= class_of(size) < NUM_BUCKETS,
        elem_of(class_of(size)) == align::rounded_up(size, MIN_ALLOCATION as int),
        index + 1 < NUM_BUCKETS ==> class_of(elem_of(index) + 1) == index + 1,
{
    align::lemma_rounded_up(size, MIN_ALLOCATION as int);
}

/// The marker that is derived from the address `addr`.
pub open spec fn marker_of(addr: u64) -> u32 {
    (addr as u32) ^ MARKER_CONST
}

/// A marker mixed with the address of a page.
pub open spec fn mixed(marker: u32, page: u64) -> u32 {
    marker ^ (page as u32)
}

/// Two markers mixed with the same page are equal only if they are the same.
pub proof fn law_marker(a: u32, b: u32, page: u64)
    ensures
        mixed(a, page) == mixed(b, page) <==> a == b,
{
    let p = page as u32;
    assert(a ^ p == b ^ p <==> a == b) by (bit_vector);
}

/// The address of the record of the page that `ptr` lies in.
pub open spec fn page_of(ptr: int) -> int {
    align::rounded_down(ptr, PAGE_SIZE as int) + USABLE
}

/// The first address of the page with its record at `page`.
pub open spec fn base_of(page: int) -> int {
    page - USABLE
}

/// The memory of the page with its record at `page`.
pub open spec fn mapping_of(page: int) -> Mapping {
    Mapping { base: base_of(page) as u64, len: PAGE_SIZE }
}

/// Whether `page` can be the address of a record.
pub open spec fn is_page(page: int) -> bool {
    &&& base_of(page) > 0
    &&& base_of(page) % PAGE_SIZE as int == 0
    &&& base_of(page) + PAGE_SIZE <= ADDRESS_LIMIT
}

/// How many slots of `elem` bytes a page has.
pub open spec fn slot_count(elem: int) -> int {
    USABLE as int / elem
}

/// Whether a slot of `elem` bytes of the page starts at `x`.
pub open spec fn is_slot(page: int, elem: int, x: int) -> bool {
    &&& base_of(page) <= x
    &&& (x - base_of(page)) % elem == 0
    &&& x + elem <= page
}

/// The slots of `elem` bytes in ascending order.
pub open spec fn all_slots(page: int, elem: int) -> Seq<int> {
    Seq::new(slot_count(elem) as nat, |k: int| base_of(page) + k * elem)
}

/// What a page is: the bucket it belongs to, its marker, and its free slots in the order
/// in which they are handed out.
pub struct PageView {
    pub index: int,
    pub marker: u32,
    pub free: Seq<int>,
}

impl PageView {
    pub open spec fn elem(self) -> int {
        elem_of(self.index)
    }

    /// Whether every slot is in use.
    pub open spec fn full(self) -> bool {
        self.free.len() == 0
    }

    /// How many slots are in use.
    pub open spec fn use_count(self) -> int {
        slot_count(self.elem()) - self.free.len()
    }

    /// Whether the slot at `x` of the page is in use.
    pub open spec fn live(self, page: int, x: int) -> bool {
        is_slot(page, self.elem(), x) && !self.free.contains(x)
    }

    /// A page of which nothing is in use.
    pub open spec fn fresh(page: int, index: int, marker: u32) -> PageView {
        PageView { index, marker, free: all_slots(page, elem_of(index)) }
    }

    /// With the first free slot handed out.
    pub open spec fn taken(self) -> PageView {
        PageView { free: self.free.drop_first(), ..self }
    }

    /// With the slot at `x` given back.
    pub open spec fn given(self, x: int) -> PageView {
        PageView { free: seq![x] + self.free, ..self }
    }

    /// The free slots are slots, each of them once.
    pub open spec fn ok(self, page: int) -> bool {
        &&& is_page(page)
        &&& 0 <= self.index < NUM_BUCKETS
        &&& self.free.no_duplicates()
        &&& forall|i: int|
            0 <= i < self.free.len() ==> is_slot(page, self.elem(), #[trigger] self.free[i])
        &&& self.free.len() <= slot_count(self.elem())
    }
}

/// The slot that was given back last is handed out first, and doing both changes nothing.
pub proof fn law_last_given(v: PageView, x: int)
    ensures
        v.given(x).free[0] == x,
        v.given(x).taken() == v,
{
    assert(v.given(x).free.drop_first() =~= v.free);
}

/// The number of slots of a size class.
pub proof fn lemma_slot_count(elem: int)
    requires
        8 <= elem <= 256,
    ensures
        255 <= slot_count(elem) <= 8188,
        slot_count(elem) * elem <= USABLE < (slot_count(elem) + 1) * elem,
{
    let n = slot_count(elem);
    div_mod::lemma_fundamental_div_mod(USABLE as int, elem);
    assert(n * elem <= USABLE < (n + 1) * elem) by (nonlinear_arith)
        requires
            USABLE as int == elem * n + USABLE as int % elem,
            0 <= USABLE as int % elem < elem,
    ;
    assert(n <= 8188) by (nonlinear_arith)
        requires
            n * elem <= 65504,
            elem >= 8,
    ;
    assert(n >= 255) by (nonlinear_arith)
        requires
            65504 < (n + 1) * elem,
            8 <= elem <= 256,
    ;
}

/// Slot `k` of a page is one of its slots.
pub proof fn lemma_slot(page: int, elem: int, k: int)
    requires
        8 <= elem <= 256,
        0 <= k < slot_count(elem),
    ensures
        is_slot(page, elem, base_of(page) + k * elem),
{
    lemma_slot_count(elem);
    let n = slot_count(elem);
    div_mod::lemma_mod_multiples_basic(k, elem);
    assert(0 <= k * elem && k * elem + elem <= n * elem) by (nonlinear_arith)
        requires
            0 <= k < n,
            elem >= 8,
    ;
}

/// A slot of a page is slot `k` for some `k`.
pub proof fn lemma_slot_index(page: int, elem: int, x: int)
    requires
        8 <= elem <= 256,
        is_slot(page, elem, x),
    ensures
        ({
            let k = (x - base_of(page)) / elem;
            0 <= k < slot_count(elem) && x == base_of(page) + k * elem
        }),
{
    let d = x - base_of(page);
    let k = d / elem;
    let n = slot_count(elem);
    lemma_slot_count(elem);
    div_mod::lemma_fundamental_div_mod(d, elem);
    mul::lemma_mul_is_commutative(k, elem);
    assert(0 <= k < n) by (nonlinear_arith)
        requires
            d == k * elem,
            0 <= d,
            d + elem <= 65504,
            65504 < (n + 1) * elem,
            elem >= 8,
    ;
}

/// A slot lies in the page that it is a slot of.
pub proof fn lemma_slot_page(page: int, elem: int, x: int)
    requires
        is_page(page),
        elem >= 8,
        is_slot(page, elem, x),
    ensures
        page_of(x) == page,
        0 < x < ADDRESS_LIMIT,
{
    let base = base_of(page);
    assert(base <= x < base + PAGE_SIZE);
    assert(x % PAGE_SIZE as int == x - base);
}

/// Two slots of a page have no byte in common.
pub proof fn law_slots_apart(page: int, elem: int, x: int, y: int)
    requires
        8 <= elem <= 256,
        is_slot(page, elem, x),
        is_slot(page, elem, y),
        x != y,
    ensures
        x + elem <= y || y + elem <= x,
{
    lemma_slot_index(page, elem, x);
    lemma_slot_index(page, elem, y);
    let i = (x - base_of(page)) / elem;
    let j = (y - base_of(page)) / elem;
    assert(i * elem + elem <= j * elem || j * elem + elem <= i * elem) by (nonlinear_arith)
        requires
            i != j,
            elem >= 8,
    ;
}

/// A fresh page is in order, and every slot of it is free.
pub proof fn lemma_fresh(page: int, index: int, marker: u32)
    requires
        is_page(page),
        0 <= index < NUM_BUCKETS,
    ensures
        PageView::fresh(page, index, marker).ok(page),
        PageView::fresh(page, index, marker).use_count() == 0,
        PageView::fresh(page, index, marker).free.len() > 0,
        forall|x: int| !#[trigger] PageView::fresh(page, index, marker).live(page, x),
{
    let elem = elem_of(index);
    let v = PageView::fresh(page, index, marker);
    lemma_slot_count(elem);
    assert forall|i: int| 0 <= i < v.free.len() implies is_slot(page, elem, #[trigger] v.free[i]) by {
        lemma_slot(page, elem, i);
    }
    assert forall|i: int, j: int| 0 <= i < j < v.free.len() implies v.free[i] != v.free[j] by {
        assert(i * elem < j * elem) by (nonlinear_arith)
            requires
                i < j,
                elem >= 8,
        ;
    }
    assert forall|x: int| !#[trigger] v.live(page, x) by {
        if is_slot(page, elem, x) {
            lemma_slot_index(page, elem, x);
            let k = (x - base_of(page)) / elem;
            assert(v.free[k] == x);
        }
    }
}

/// Handing out the first free slot puts exactly that slot into use.
pub proof fn law_taken(v: PageView, page: int)
    requires
        v.ok(page),
        !v.full(),
    ensures
        v.taken().ok(page),
        !v.live(page, v.free[0]),
        v.taken().use_count() == v.use_count() + 1,
        forall|x: int|
            #![trigger v.taken().live(page, x)]
            v.taken().live(page, x) <==> v.live(page, x) || x == v.free[0],
{
    let w = v.taken();
    assert forall|i: int| 0 <= i < w.free.len() implies is_slot(page, w.elem(), #[trigger] w.free[i]) by {
        assert(w.free[i] == v.free[i + 1]);
    }
    assert forall|x: int| #![trigger w.live(page, x)] w.live(page, x) <==> v.live(page, x) || x == v.free[0] by {
        if v.free.contains(x) {
            let i = v.free.index_of(x);
            if i > 0 {
                assert(w.free[i - 1] == x);
            }
        }
        if w.free.contains(x) {
            let i = w.free.index_of(x);
            assert(v.free[i + 1] == x);
        }
        assert(is_slot(page, v.elem(), v.free[0]));
    }
    assert(v.free.contains(v.free[0]));
}

/// Giving a slot back takes exactly that slot out of use.
pub proof fn law_given(v: PageView, page: int, x: int)
    requires
        v.ok(page),
        v.live(page, x),
    ensures
        v.given(x).ok(page),
        v.given(x).use_count() == v.use_count() - 1,
        v.given(x).free.len() > 0,
        forall|y: int|
            #![trigger v.given(x).live(page, y)]
            v.given(x).live(page, y) <==> v.live(page, y) && y != x,
{
    let w = v.given(x);
    assert forall|i: int| 0 <= i < w.free.len() implies is_slot(page, w.elem(), #[trigger] w.free[i]) by {
        if i > 0 {
            assert(w.free[i] == v.free[i - 1]);
        }
    }
    assert(w.free.no_duplicates()) by {
        assert forall|i: int, j: int| 0 <= i < w.free.len() && 0 <= j < w.free.len() && i != j implies w.free[i]
            != w.free[j] by {
            if i > 0 {
                assert(w.free[i] == v.free[i - 1]);
                assert(v.free.contains(v.free[i - 1]));
            }
            if j > 0 {
                assert(w.free[j] == v.free[j - 1]);
                assert(v.free.contains(v.free[j - 1]));
            }
        }
    }
    assert forall|y: int| #![trigger w.live(page, y)] w.live(page, y) <==> v.live(page, y) && y != x by {
        if v.free.contains(y) {
            assert(w.free[v.free.index_of(y) + 1] == y);
        }
        if w.free.contains(y) && y != x {
            let i = w.free.index_of(y);
            assert(v.free[i - 1] == y);
        }
        assert(w.free[0] == x);
    }
    law_use_count(v, page);
}

/// A page has no slot in use exactly if its use count is zero.
pub proof fn law_use_count(v: PageView, page: int)
    requires
        v.ok(page),
    ensures
        v.use_count() >= 0,
        v.use_count() == 0 <==> forall|x: int| !#[trigger] v.live(page, x),
{
    let elem = v.elem();
    let n = slot_count(elem);
    lemma_slot_count(elem);
    let all = set_lib::set_int_range(0, n);
    set_lib::lemma_int_range(0, n);
    let ks = Seq::new(v.free.len(), |i: int| (v.free[i] - base_of(page)) / elem);
    assert forall|i: int| 0 <= i < ks.len() implies 0 <= #[trigger] ks[i] < n && v.free[i] == base_of(page)
        + ks[i] * elem by {
        lemma_slot_index(page, elem, v.free[i]);
    }
    assert(ks.no_duplicates()) by {
        assert forall|i: int, j: int| 0 <= i < ks.len() && 0 <= j < ks.len() && i != j implies ks[i]
            != ks[j] by {
            assert(v.free[i] != v.free[j]);
        }
    }
    ks.unique_seq_to_set();
    let set = ks.to_set();
    assert(set.subset_of(all)) by {
        assert forall|k: int| set.contains(k) implies all.contains(k) by {
            let i = ks.index_of(k);
            assert(ks[i] == k);
        }
    }
    if v.use_count() == 0 {
        set_lib::lemma_subset_equality(set, all);
        assert forall|x: int| !#[trigger] v.live(page, x) by {
            if is_slot(page, elem, x) {
                lemma_slot_index(page, elem, x);
                let k = (x - base_of(page)) / elem;
                assert(all.contains(k));
                assert(set.contains(k));
                let i = ks.index_of(k);
                assert(ks[i] == k);
                assert(v.free[i] == x);
            }
        }
    } else {
        if set =~= all {
            assert(false);
        }
        let k = choose|k: int| all.contains(k) && !set.contains(k);
        assert(all.contains(k) && !set.contains(k)) by {
            if forall|k: int| all.contains(k) ==> set.contains(k) {
                assert(set =~= all);
            }
        }
        let x = base_of(page) + k * elem;
        lemma_slot(page, elem, k);
        if v.free.contains(x) {
            let i = v.free.index_of(x);
            assert(v.free[i] == x);
            assert(ks[i] == k) by {
                assert(ks[i] * elem == k * elem);
                assert(ks[i] == k) by (nonlinear_arith)
                    requires
                        ks[i] * elem == k * elem,
                        elem >= 8,
                ;
            }
            assert(set.contains(ks[i]));
        }
        assert(v.live(page, x));
    }
}

/// The address of the record of the page that `ptr` lies in.
pub fn ptr_get_page(ptr: u64) -> (r: u64)
    ensures
        r == page_of(ptr as int),
{
    proof {
        os::lemma_page_size();
    }
    align::align_down(ptr, PAGE_SIZE) + (PAGE_SIZE - RECORD_SIZE)
}

/// The record of a page: its first free slot or zero, the bucket that it belongs to, how
/// many of its slots are in use, and its marker.
#[derive(Clone, Copy)]
pub struct Page {
    free_list: u64,
    bucket_index: u16,
    use_count: u16,
    marker: u32,
}

/// The address at position `i` of a list of free slots, zero behind the last.
pub open spec fn slot_at(free: Seq<int>, i: int) -> int {
    if 0 <= i < free.len() {
        free[i]
    } else {
        0
    }
}

/// The records of all pages, and the links of their free slots.
pub struct Pages {
    pages: Table<Page>,
    links: Table<u64>,
    free: Ghost<Map<int, Seq<int>>>,
}

impl View for Pages {
    type V = Map<int, PageView>;

    closed spec fn view(&self) -> Map<int, PageView> {
        Map::new(
            |p: int| self.pages@.contains_key(p),
            |p: int|
                PageView {
                    index: self.pages@[p].bucket_index as int,
                    marker: self.pages@[p].marker,
                    free: self.free@[p],
                },
        )
    }
}

impl Pages {
    spec fn linked(&self, p: int, i: int) -> bool {
        let f = self.free@[p];
        self.links@.contains_key(f[i]) && self.links@[f[i]] == slot_at(f, i + 1)
    }

    spec fn threaded(&self, p: int) -> bool {
        let f = self.free@[p];
        &&& self@[p].ok(p)
        &&& self.pages@[p].free_list == slot_at(f, 0)
        &&& self.pages@[p].use_count == self@[p].use_count()
        &&& forall|i: int| 0 <= i < f.len() ==> #[trigger] self.linked(p, i)
    }

    /// Every page is in order: its record leads through its free slots, and its count says
    /// how many others there are.
    pub closed spec fn wf(&self) -> bool {
        forall|p: int| self.pages@.contains_key(p) ==> #[trigger] self.threaded(p)
    }

    /// What well-formed pages say of their view.
    pub proof fn lemma_view(&self, p: int)
        requires
            self.wf(),
            self@.contains_key(p),
        ensures
            self@[p].ok(p),
    {
        assert(self.threaded(p));
    }

    /// What is done to the links of one page leaves the other pages in order.
    proof fn lemma_others(&self, now: &Self, p: int)
        requires
            self.wf(),
            is_page(p),
            forall|q: int|
                #![trigger now.pages@.contains_key(q)]
                q != p ==> (now.pages@.contains_key(q) ==> self.pages@.contains_key(q)
                    && now.pages@[q] == self.pages@[q] && now.free@[q] == self.free@[q]),
            forall|x: int|
                #![trigger now.links@.contains_key(x)]
                page_of(x) != p ==> (self.links@.contains_key(x) ==> now.links@.contains_key(x)
                    && now.links@[x] == self.links@[x]),
            now.pages@.contains_key(p) ==> now.threaded(p),
        ensures
            now.wf(),
    {
        assert forall|q: int| now.pages@.contains_key(q) implies #[trigger] now.threaded(q) by {
            if q != p {
                assert(self.threaded(q));
                let f = self.free@[q];
                assert(now@[q] == self@[q]);
                assert forall|i: int| 0 <= i < f.len() implies #[trigger] now.linked(q, i) by {
                    assert(self.linked(q, i));
                    lemma_slot_page(q, self@[q].elem(), f[i]);
                    assert(now.links@.contains_key(f[i]));
                }
            }
        }
    }

    /// No page yet.
    pub fn new() -> (t: Self)
        ensures
            t.wf(),
            t@ == Map::<int, PageView>::empty(),
    {
        let t = Pages { pages: Table::new(), links: Table::new(), free: Ghost(Map::empty()) };
        assert(t@ =~= Map::<int, PageView>::empty());
        t
    }

    /// Whether there is a record at `page`.
    pub fn contains(&self, page: u64) -> (r: bool)
        ensures
            r == self@.contains_key(page as int),
    {
        self.pages.contains(page)
    }

    /// The bucket that the page belongs to.
    pub fn bucket_index(&self, page: u64) -> (r: u64)
        requires
            self.wf(),
            self@.contains_key(page as int),
        ensures
            r == self@[page as int].index,
            r < NUM_BUCKETS,
    {
        proof {
            self.lemma_view(page as int);
        }
        self.pages.get(page).bucket_index as u64
    }

    /// The size of the slots of the page.
    pub fn elem_size(&self, page: u64) -> (r: u64)
        requires
            self.wf(),
            self@.contains_key(page as int),
        ensures
            r == self@[page as int].elem(),
            MIN_ALLOCATION <= r <= MAX_SMALL_ALLOCATION,
    {
        bucket_spacing_function_inverse(self.bucket_index(page))
    }

    /// How many slots of the page are in use.
    pub fn use_count(&self, page: u64) -> (r: u64)
        requires
            self.wf(),
            self@.contains_key(page as int),
        ensures
            r == self@[page as int].use_count(),
    {
        proof {
            assert(self.threaded(page as int));
        }
        self.pages.get(page).use_count as u64
    }

    /// Whether no slot of the page is in use.
    pub fn is_empty(&self, page: u64) -> (r: bool)
        requires
            self.wf(),
            self@.contains_key(page as int),
        ensures
            r == (self@[page as int].use_count() == 0),
    {
        self.use_count(page) == 0
    }

    /// The first free slot of the page, or zero.
    pub fn free_list(&self, page: u64) -> (r: u64)
        requires
            self.wf(),
            self@.contains_key(page as int),
        ensures
            r == slot_at(self@[page as int].free, 0),
            r == 0 <==> self@[page as int].full(),
    {
        proof {
            assert(self.threaded(page as int));
            let v = self@[page as int];
            if !v.full() {
                lemma_slot_page(page as int, v.elem(), v.free[0]);
            }
        }
        self.pages.get(page).free_list
    }

    /// The free slot that follows the free slot `slot`, or zero.
    pub fn next_free(&self, slot: u64) -> (r: u64)
        requires
            self.wf(),
            self@.contains_key(page_of(slot as int)),
            self@[page_of(slot as int)].free.contains(slot as int),
        ensures
            ({
                let f = self@[page_of(slot as int)].free;
                r == slot_at(f, f.index_of(slot as int) + 1)
            }),
    {
        proof {
            let p = page_of(slot as int);
            let f = self@[p].free;
            assert(self.threaded(p));
            let i = f.index_of(slot as int);
            assert(self.linked(p, i));
        }
        self.links.get(slot)
    }

    /// Whether every slot of the page is in use.
    pub fn is_full(&self, page: u64) -> (r: bool)
        requires
            self.wf(),
            self@.contains_key(page as int),
        ensures
            r == self@[page as int].full(),
    {
        self.free_list(page) == 0
    }

    /// Whether the page was made with `marker`.
    pub fn check_marker(&self, page: u64, marker: u32) -> (r: bool)
        requires
            self@.contains_key(page as int),
        ensures
            r == (self@[page as int].marker == mixed(marker, page)),
    {
        let stored = self.pages.get(page).marker;
        let addr = page as u32;
        stored == (marker ^ addr)
    }

    /// Whether the slot at `ptr` of the page is in use.
    pub fn is_live(&self, page: u64, ptr: u64) -> (r: bool)
        requires
            self.wf(),
            self@.contains_key(page as int),
        ensures
            r == self@[page as int].live(page as int, ptr as int),
    {
        let elem = self.elem_size(page);
        proof {
            self.lemma_view(page as int);
        }
        let base = page - (PAGE_SIZE - RECORD_SIZE);
        if ptr < base || (ptr - base) % elem != 0 || ptr > page - elem {
            return false;
        }
        let ghost v = self@[page as int];
        let mut slot = self.free_list(page);
        let ghost mut i: int = 0;
        while slot != 0
            invariant
                self.wf(),
                self@.contains_key(page as int),
                v == self@[page as int],
                v.ok(page as int),
                0 <= i <= v.free.len(),
                slot == slot_at(v.free, i),
                is_slot(page as int, v.elem(), ptr as int),
                forall|j: int| 0 <= j < i ==> v.free[j] != ptr,
            decreases v.free.len() - i,
        {
            proof {
                lemma_slot_page(page as int, v.elem(), v.free[i]);
                assert(v.free.contains(v.free[i]));
                assert(v.free.index_of(v.free[i]) == i);
            }
            if slot == ptr {
                return false;
            }
            slot = self.next_free(slot);
            proof {
                i = i + 1;
            }
        }
        proof {
            if i < v.free.len() {
                lemma_slot_page(page as int, v.elem(), v.free[i]);
            }
            if v.free.contains(ptr as int) {
                assert(v.free[v.free.index_of(ptr as int)] == ptr);
            }
        }
        true
    }

    /// Makes the page at `mem`, which is not one yet, a page of slots of `elem_size` bytes,
    /// all of them free, and returns the address of its record.
    pub fn init_page_at(&mut self, mem: u64, elem_size: u64, marker: u32) -> (r: u64)
        requires
            old(self).wf(),
            is_page(mem + USABLE),
            !old(self)@.contains_key(mem + USABLE),
            MIN_ALLOCATION <= elem_size <= MAX_SMALL_ALLOCATION,
            elem_size % MIN_ALLOCATION == 0,
        ensures
            final(self).wf(),
            r == mem + USABLE,
            final(self)@ == old(self)@.insert(
                r as int,
                PageView::fresh(r as int, class_of(elem_size as int), mixed(marker, r)),
            ),
    {
        let ghost p = mem + USABLE;
        let ghost elem = elem_size as int;
        let ghost all = all_slots(p, elem);
        let ghost links0 = self.links@;
        let usable = PAGE_SIZE - RECORD_SIZE;
        proof {
            lemma_slot_count(elem);
            lemma_slot(p, elem, 0);
        }
        let slot_count = usable / elem_size;
        let n = slot_count * elem_size;
        let ghost cnt = slot_count as int;
        proof {
            assert(n >= elem) by (nonlinear_arith)
                requires
                    n == cnt * elem,
                    cnt >= 1,
                    elem >= 8,
            ;
        }
        let mut i: u64 = 0;
        let ghost mut k: int = 0;
        while i < n - elem_size
            invariant
                p == mem + USABLE,
                is_page(p),
                elem == elem_size,
                8 <= elem <= 256,
                cnt == crate::page::slot_count(elem),
                n == cnt * elem,
                elem <= n <= USABLE,
                all == all_slots(p, elem),
                i == k * elem,
                0 <= k < cnt,
                self.pages@ == old(self).pages@,
                self.free@ == old(self).free@,
                forall|x: int|
                    #![trigger self.links@.contains_key(x)]
                    page_of(x) != p ==> (links0.contains_key(x) ==> self.links@.contains_key(x)
                        && self.links@[x] == links0[x]),
                forall|j: int|
                    0 <= j < k ==> #[trigger] self.links@.contains_key(all[j]) && self.links@[all[j]]
                        == all[j + 1],
            decreases cnt - k,
        {
            proof {
                lemma_slot(p, elem, k);
                lemma_slot_page(p, elem, mem + k * elem);
                assert(k + 1 < cnt) by (nonlinear_arith)
                    requires
                        k * elem < cnt * elem - elem,
                        elem >= 8,
                ;
                assert((k + 1) * elem == k * elem + elem) by (nonlinear_arith);
                assert(all[k] == mem + i);
                assert(all[k + 1] == mem + i + elem);
                assert forall|j: int| 0 <= j < k implies all[j] != all[k] by {
                    assert(j * elem < k * elem) by (nonlinear_arith)
                        requires
                            j < k,
                            elem >= 8,
                    ;
                }
            }
            let slot = mem + i;
            let next_slot = mem + (i + elem_size);
            self.links.set(slot, next_slot);
            i = i + elem_size;
            proof {
                k = k + 1;
            }
        }
        proof {
            assert(k == cnt - 1) by (nonlinear_arith)
                requires
                    k * elem >= cnt * elem - elem,
                    k < cnt,
                    elem >= 8,
            ;
            lemma_slot(p, elem, k);
            lemma_slot_page(p, elem, mem + k * elem);
            assert(all[k] == mem + i);
            assert forall|j: int| 0 <= j < k implies all[j] != all[k] by {
                assert(j * elem < k * elem) by (nonlinear_arith)
                    requires
                        j < k,
                        elem >= 8,
                ;
            }
        }
        let last_slot = mem + i;
        self.links.set(last_slot, 0);
        proof {
            assert(page_of(mem as int) == p) by {
                assert(mem as int % PAGE_SIZE as int == 0);
            }
        }
        let page = ptr_get_page(mem);
        let page_addr = page as u32;
        let bucket_index = bucket_spacing_function_aligned(elem_size) as u16;
        self.pages.set(
            page,
            Page { free_list: mem, bucket_index, use_count: 0, marker: marker ^ page_addr },
        );
        proof {
            self.free@ = self.free@.insert(p, all);
            lemma_fresh(p, class_of(elem), mixed(marker, page));
            assert(self@[p] == PageView::fresh(p, class_of(elem), mixed(marker, page)));
            assert(all[0] == mem);
            assert forall|j: int| 0 <= j < all.len() implies #[trigger] self.linked(p, j) by {
                if j < cnt - 1 {
                    assert(self.links@.contains_key(all[j]));
                }
            }
            assert(self.threaded(p));
            old(self).lemma_others(self, p);
            assert(self@ =~= old(self)@.insert(
                p,
                PageView::fresh(p, class_of(elem), mixed(marker, page)),
            ));
        }
        page
    }

    /// Hands out the first free slot of the page.
    pub fn take_slot(&mut self, page: u64) -> (r: u64)
        requires
            old(self).wf(),
            old(self)@.contains_key(page as int),
            !old(self)@[page as int].full(),
        ensures
            final(self).wf(),
            r == old(self)@[page as int].free[0],
            final(self)@ == old(self)@.insert(page as int, old(self)@[page as int].taken()),
    {
        let ghost p = page as int;
        let ghost v = self@[p];
        let free = self.free_list(page);
        proof {
            assert(self.threaded(p));
            lemma_slot_count(v.elem());
            lemma_slot_page(p, v.elem(), v.free[0]);
            assert(v.free.index_of(free as int) == 0);
            assert(v.free.contains(v.free[0]));
        }
        let next = self.next_free(free);
        let record = self.pages.get(page);
        self.links.remove(free);
        self.pages.set(
            page,
            Page { free_list: next, use_count: record.use_count + 1, ..record },
        );
        proof {
            self.free@ = self.free@.insert(p, v.free.drop_first());
            assert(self@[p] == v.taken());
            law_taken(v, p);
            let f = v.free.drop_first();
            assert forall|i: int| 0 <= i < f.len() implies #[trigger] self.linked(p, i) by {
                assert(old(self).linked(p, i + 1));
                assert(f[i] == v.free[i + 1]);
                assert(f[i] != v.free[0]);
            }
            assert(self.threaded(p));
            old(self).lemma_others(self, p);
            assert(self@ =~= old(self)@.insert(p, v.taken()));
        }
        free
    }

    /// Gives the slot at `ptr` back to the page.
    pub fn give_slot(&mut self, page: u64, ptr: u64)
        requires
            old(self).wf(),
            old(self)@.contains_key(page as int),
            old(self)@[page as int].live(page as int, ptr as int),
        ensures
            final(self).wf(),
            final(self)@ == old(self)@.insert(
                page as int,
                old(self)@[page as int].given(ptr as int),
            ),
    {
        let ghost p = page as int;
        let ghost v = self@[p];
        let free = self.free_list(page);
        proof {
            assert(self.threaded(p));
            lemma_slot_page(p, v.elem(), ptr as int);
            law_use_count(v, p);
            assert(v.live(p, ptr as int));
        }
        self.links.set(ptr, free);
        let record = self.pages.get(page);
        self.pages.set(page, Page { free_list: ptr, use_count: record.use_count - 1, ..record });
        proof {
            let f = seq![ptr as int] + v.free;
            self.free@ = self.free@.insert(p, f);
            assert(self@[p] == v.given(ptr as int));
            law_given(v, p, ptr as int);
            assert forall|i: int| 0 <= i < f.len() implies #[trigger] self.linked(p, i) by {
                if i > 0 {
                    assert(old(self).linked(p, i - 1));
                    assert(f[i] == v.free[i - 1]);
                    assert(v.free.contains(v.free[i - 1]));
                }
            }
            assert(self.threaded(p));
            old(self).lemma_others(self, p);
            assert(self@ =~= old(self)@.insert(p, v.given(ptr as int)));
        }
    }

    /// Drops the record of the page and the links of its free slots.
    pub fn discard(&mut self, page: u64)
        requires
            old(self).wf(),
            old(self)@.contains_key(page as int),
        ensures
            final(self).wf(),
            final(self)@ == old(self)@.remove(page as int),
    {
        let ghost p = page as int;
        let ghost v = self@[p];
        let ghost links0 = self.links@;
        let mut slot = self.free_list(page);
        let ghost mut k: int = 0;
        proof {
            assert(self.threaded(p));
        }
        while slot != 0
            invariant
                old(self).wf(),
                old(self)@.contains_key(p),
                old(self).links@ == links0,
                v == old(self)@[p],
                self.pages@ == old(self).pages@,
                self.free@ == old(self).free@,
                0 <= k <= v.free.len(),
                slot == slot_at(v.free, k),
                forall|x: int|
                    #![trigger self.links@.contains_key(x)]
                    page_of(x) != p ==> (links0.contains_key(x) ==> self.links@.contains_key(x)
                        && self.links@[x] == links0[x]),
                forall|i: int| k <= i < v.free.len() ==> #[trigger] self.linked(p, i),
            decreases v.free.len() - k,
        {
            proof {
                assert(old(self).threaded(p));
                assert(self.linked(p, k));
                lemma_slot_page(p, v.elem(), v.free[k]);
            }
            let ghost links1 = self.links@;
            let next = self.links.get(slot);
            let ghost before = *self;
            self.links.remove(slot);
            proof {
                assert forall|i: int| k + 1 <= i < v.free.len() implies #[trigger] self.linked(p, i) by {
                    assert(before.linked(p, i));
                    assert(v.free[i] != v.free[k]);
                }
                k = k + 1;
            }
            slot = next;
        }
        self.pages.remove(page);
        proof {
            assert(old(self).threaded(p));
            old(self).lemma_others(self, p);
            assert(self@ =~= old(self)@.remove(p));
        }
    }
}

} // verus!
