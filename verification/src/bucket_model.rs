//! The small-request path as a mathematical state, and what each operation makes of it.

use crate::os;
use crate::os::{Mapping, OsView, ADDRESS_LIMIT, PAGE_SIZE};
use crate::page;
use crate::page::{PageView, MAX_SMALL_ALLOCATION, NUM_BUCKETS, USABLE};
use vstd::prelude::*;
use vstd::set_lib;

verus! {

/// How far apart the addresses are that the markers of two neighbouring buckets are
/// derived from.
pub const MARKER_STEP: u64 = 16;

/// The list with `p` moved to its end.
pub open spec fn moved_back(list: Seq<int>, p: int) -> Seq<int> {
    list.remove(list.index_of(p)).push(p)
}

/// The list with `p` moved to its front.
pub open spec fn moved_front(list: Seq<int>, p: int) -> Seq<int> {
    list.remove(list.index_of(p)).insert(0, p)
}

/// Full pages stand behind all others.
pub open spec fn sorted(pages: Map<int, PageView>, list: Seq<int>) -> bool {
    forall|i: int, j: int|
        #![trigger list[i], list[j]]
        0 <= i < j < list.len() && pages[list[i]].full() ==> pages[list[j]].full()
}

/// The first page of the list, if it has a free slot.
pub open spec fn free_page(pages: Map<int, PageView>, list: Seq<int>) -> Option<int> {
    if list.len() == 0 || pages[list[0]].full() {
        None
    } else {
        Some(list[0])
    }
}

/// The list after a slot of its page `p` was handed out: a page that has become full goes
/// to the end.
pub open spec fn after_take(pages: Map<int, PageView>, list: Seq<int>, p: int) -> Seq<int> {
    if pages[p].taken().full() {
        moved_back(list, p)
    } else {
        list
    }
}

/// The list after a slot of its page `p` was given back: a page that was full goes to the
/// front.
pub open spec fn after_give(pages: Map<int, PageView>, list: Seq<int>, p: int) -> Seq<int> {
    if pages[p].full() {
        moved_front(list, p)
    } else {
        list
    }
}

/// The pages of the list that have no slot in use, or those that have one, in order.
pub open spec fn those(pages: Map<int, PageView>, list: Seq<int>, unused: bool) -> Seq<int>
    decreases list.len(),
{
    if list.len() == 0 {
        Seq::empty()
    } else {
        let r = those(pages, list.drop_last(), unused);
        if (pages[list.last()].use_count() == 0) == unused {
            r.push(list.last())
        } else {
            r
        }
    }
}

/// The system after the pages were given back one after the other.
pub open spec fn returned(os: OsView, list: Seq<int>) -> OsView
    decreases list.len(),
{
    if list.len() == 0 {
        os
    } else {
        returned(os, list.drop_last()).unmapped(page::mapping_of(list.last()))
    }
}

/// Moving a page to the end or to the front of its list keeps the pages of the list, each
/// of them once.
pub proof fn lemma_moved(list: Seq<int>, p: int)
    requires
        list.no_duplicates(),
        list.contains(p),
    ensures
        moved_back(list, p).no_duplicates(),
        moved_front(list, p).no_duplicates(),
        moved_back(list, p).len() == list.len(),
        moved_front(list, p).len() == list.len(),
        forall|q: int| #[trigger] moved_back(list, p).contains(q) <==> list.contains(q),
        forall|q: int| #[trigger] moved_front(list, p).contains(q) <==> list.contains(q),
{
    let k = list.index_of(p);
    let rest = list.remove(k);
    let b = moved_back(list, p);
    let f = moved_front(list, p);
    let n = list.len() as int;
    assert forall|i: int| 0 <= i < n - 1 implies rest[i] == list[if i < k { i } else { i + 1 }] by {}
    assert forall|q: int| #[trigger] b.contains(q) <==> list.contains(q) by {
        if list.contains(q) {
            let i = list.index_of(q);
            let at = if i < k { i } else if i == k { n - 1 } else { i - 1 };
            assert(b[at] == q);
        }
        if b.contains(q) {
            let i = b.index_of(q);
            let at = if i == n - 1 { k } else if i < k { i } else { i + 1 };
            assert(list[at] == q);
        }
    }
    assert forall|q: int| #[trigger] f.contains(q) <==> list.contains(q) by {
        if list.contains(q) {
            let i = list.index_of(q);
            let at = if i < k { i + 1 } else if i == k { 0 } else { i };
            assert(f[at] == q);
        }
        if f.contains(q) {
            let i = f.index_of(q);
            let at = if i == 0 { k } else if i - 1 < k { i - 1 } else { i };
            assert(list[at] == q);
        }
    }
}

/// Handing out a slot of a page of the list keeps full pages behind all others.
pub proof fn lemma_sorted_take(pages: Map<int, PageView>, list: Seq<int>, p: int)
    requires
        list.no_duplicates(),
        list.contains(p),
        sorted(pages, list),
        !pages[p].full(),
    ensures
        sorted(pages.insert(p, pages[p].taken()), after_take(pages, list, p)),
{
    let now = pages.insert(p, pages[p].taken());
    let l = after_take(pages, list, p);
    let k = list.index_of(p);
    assert forall|i: int, j: int|
        #![trigger l[i], l[j]]
        0 <= i < j < l.len() && now[l[i]].full() implies now[l[j]].full() by {
        if pages[p].taken().full() {
            if j < l.len() - 1 {
                let i0 = if i < k { i } else { i + 1 };
                let j0 = if j < k { j } else { j + 1 };
                assert(l[i] == list[i0] && l[j] == list[j0]);
                assert(list[i0] != p && list[j0] != p);
                assert(pages[list[j0]].full());
            }
        } else {
            assert(pages[list[i]].full());
            assert(pages[list[j]].full());
        }
    }
}

/// Giving back a slot of a page of the list keeps full pages behind all others.
pub proof fn lemma_sorted_give(pages: Map<int, PageView>, list: Seq<int>, p: int, x: int)
    requires
        list.no_duplicates(),
        list.contains(p),
        sorted(pages, list),
    ensures
        sorted(pages.insert(p, pages[p].given(x)), after_give(pages, list, p)),
{
    let now = pages.insert(p, pages[p].given(x));
    let l = after_give(pages, list, p);
    let k = list.index_of(p);
    assert(now[p].free.len() > 0);
    assert forall|i: int, j: int|
        #![trigger l[i], l[j]]
        0 <= i < j < l.len() && now[l[i]].full() implies now[l[j]].full() by {
        if pages[p].full() {
            if i > 0 {
                let i0 = if i - 1 < k { i - 1 } else { i };
                let j0 = if j - 1 < k { j - 1 } else { j };
                assert(l[i] == list[i0] && l[j] == list[j0]);
                assert(list[i0] != p && list[j0] != p);
                assert(pages[list[j0]].full());
            }
        } else {
            assert(l[i] != p);
            assert(pages[list[i]].full());
            assert(pages[list[j]].full());
        }
    }
}

/// The state of the small-request path: its pages, and for each bucket the order in which
/// its pages are tried.
pub struct BucketsView {
    pub pages: Map<int, PageView>,
    pub lists: Seq<Seq<int>>,
}

impl BucketsView {
    /// No page yet.
    pub open spec fn empty() -> BucketsView {
        BucketsView {
            pages: Map::empty(),
            lists: Seq::new(NUM_BUCKETS as nat, |i: int| Seq::empty()),
        }
    }

    /// The list of the bucket holds pages of the bucket, each of them once, full ones
    /// behind all others.
    pub open spec fn list_ok(self, bi: int) -> bool {
        let list = self.lists[bi];
        &&& list.no_duplicates()
        &&& sorted(self.pages, list)
        &&& forall|i: int|
            0 <= i < list.len() ==> self.pages.contains_key(#[trigger] list[i])
                && self.pages[list[i]].index == bi
    }

    /// The page is in order, stands on the list of its bucket, and carries the marker of
    /// its bucket.
    pub open spec fn page_ok(self, p: int) -> bool {
        let v = self.pages[p];
        &&& v.ok(p)
        &&& self.lists[v.index].contains(p)
        &&& v.marker == page::mixed(
            page::marker_of((MARKER_STEP * v.index) as u64),
            p as u64,
        )
    }

    /// Every bucket and every page is in order.
    #[verifier::opaque]
    pub open spec fn ok(self) -> bool {
        &&& self.lists.len() == NUM_BUCKETS
        &&& self.pages.dom().finite()
        &&& forall|bi: int| 0 <= bi < NUM_BUCKETS ==> #[trigger] self.list_ok(bi)
        &&& forall|p: int| self.pages.contains_key(p) ==> #[trigger] self.page_ok(p)
    }

    /// The bytes of all pages together.
    pub open spec fn total(self) -> int {
        PAGE_SIZE * self.pages.dom().len()
    }

    /// Whether `ptr` lies in a page of this path.
    pub open spec fn owns(self, ptr: int) -> bool {
        self.pages.contains_key(page::page_of(ptr))
    }

    /// Whether `ptr` is a slot in use.
    pub open spec fn live(self, ptr: int) -> bool {
        self.owns(ptr) && self.pages[page::page_of(ptr)].live(page::page_of(ptr), ptr)
    }

    /// The size of the slot at `ptr`.
    pub open spec fn usable(self, ptr: int) -> int {
        self.pages[page::page_of(ptr)].elem()
    }

    /// The bucket that the slot at `ptr` belongs to.
    pub open spec fn bucket(self, ptr: int) -> int {
        self.pages[page::page_of(ptr)].index
    }

    /// With the first free slot of the page handed out.
    pub open spec fn slot_taken(self, p: int) -> BucketsView {
        let bi = self.pages[p].index;
        BucketsView {
            pages: self.pages.insert(p, self.pages[p].taken()),
            lists: self.lists.update(bi, after_take(self.pages, self.lists[bi], p)),
        }
    }

    /// With the slot at `ptr` given back.
    pub open spec fn freed(self, ptr: int) -> BucketsView {
        let p = page::page_of(ptr);
        let bi = self.pages[p].index;
        BucketsView {
            pages: self.pages.insert(p, self.pages[p].given(ptr)),
            lists: self.lists.update(bi, after_give(self.pages, self.lists[bi], p)),
        }
    }

    /// With a fresh page at `base`, which the bucket tries first.
    pub open spec fn grown(self, bi: int, base: int) -> BucketsView {
        let p = base + USABLE;
        BucketsView {
            pages: self.pages.insert(
                p,
                PageView::fresh(
                    p,
                    bi,
                    page::mixed(page::marker_of((MARKER_STEP * bi) as u64), p as u64),
                ),
            ),
            lists: self.lists.update(bi, self.lists[bi].insert(0, p)),
        }
    }

    /// The state of this path and of the system after a request to the bucket, and the
    /// slot that answers it.
    pub open spec fn served(self, os: OsView, bi: int) -> (BucketsView, OsView, Option<int>) {
        match free_page(self.pages, self.lists[bi]) {
            Some(p) => (self.slot_taken(p), os, Some(self.pages[p].free[0])),
            None => match os.map_base(PAGE_SIZE as int) {
                Some(base) => (
                    self.grown(bi, base).slot_taken(base + USABLE),
                    os.mapped(PAGE_SIZE as int),
                    Some(base),
                ),
                None => (self, os.mapped(PAGE_SIZE as int), None),
            },
        }
    }

    /// The state after the slot at `ptr` was asked to hold `size` bytes, the address then,
    /// and how many bytes have to be moved there.
    pub open spec fn realloc(self, os: OsView, ptr: int, size: int) -> (
        BucketsView,
        OsView,
        Option<(int, int)>,
    ) {
        let elem = self.usable(ptr);
        if size <= elem {
            (self, os, Some((ptr, 0)))
        } else {
            match self.served(os, page::class_of(size)) {
                (v, os1, Some(r)) => (v.freed(ptr), os1, Some((r, elem))),
                (v, os1, None) => (v, os1, None),
            }
        }
    }

    /// Without the pages of the bucket that have no slot in use.
    pub open spec fn purged_bucket(self, os: OsView, bi: int) -> (BucketsView, OsView) {
        let gone = those(self.pages, self.lists[bi], true);
        (
            BucketsView {
                pages: self.pages.remove_keys(gone.to_set()),
                lists: self.lists.update(bi, those(self.pages, self.lists[bi], false)),
            },
            returned(os, gone),
        )
    }

    /// The same for the first `n` buckets, one after the other.
    pub open spec fn purged_upto(self, os: OsView, n: int) -> (BucketsView, OsView)
        decreases n,
    {
        if n <= 0 {
            (self, os)
        } else {
            let (v, o) = self.purged_upto(os, n - 1);
            v.purged_bucket(o, n - 1)
        }
    }

    /// Without the pages that have no slot in use.
    pub open spec fn purged(self, os: OsView) -> (BucketsView, OsView) {
        self.purged_upto(os, NUM_BUCKETS as int)
    }
}

/// The path and the system agree on what has been served: the pages are held and no
/// longer on offer.
#[verifier::opaque]
pub open spec fn agree(v: BucketsView, os: OsView) -> bool {
    &&& os.ok()
    &&& forall|p: int| #[trigger]
        v.pages.contains_key(p) ==> os.held.contains(page::mapping_of(p)) && !os.grants.contains(
            page::mapping_of(p),
        )
}

/// What is in order of a page.
pub proof fn lemma_page(v: BucketsView, p: int)
    requires
        v.ok(),
        v.pages.contains_key(p),
    ensures
        v.lists.len() == NUM_BUCKETS,
        v.pages[p].ok(p),
        v.page_ok(p),
        v.list_ok(v.pages[p].index),
        v.lists[v.pages[p].index].contains(p),
        v.lists[v.pages[p].index].no_duplicates(),
        sorted(v.pages, v.lists[v.pages[p].index]),
{
    reveal(BucketsView::ok);
    assert(v.page_ok(p));
    assert(v.list_ok(v.pages[p].index));
}

/// What is in order of a bucket.
pub proof fn lemma_list(v: BucketsView, bi: int)
    requires
        v.ok(),
        0 <= bi < NUM_BUCKETS,
    ensures
        v.lists.len() == NUM_BUCKETS,
        v.list_ok(bi),
{
    reveal(BucketsView::ok);
    assert(v.list_ok(bi));
}

/// A slot in use lies in a page of its bucket.
pub proof fn lemma_live(v: BucketsView, ptr: int)
    requires
        v.ok(),
        v.live(ptr),
    ensures
        0 < ptr < ADDRESS_LIMIT,
        ptr % 8 == 0,
        0 <= v.bucket(ptr) < NUM_BUCKETS,
        8 <= v.usable(ptr) <= MAX_SMALL_ALLOCATION,
        ptr % v.usable(ptr) == (page::base_of(page::page_of(ptr))) % v.usable(ptr),
{
    let p = page::page_of(ptr);
    lemma_page(v, p);
    let elem = v.usable(ptr);
    page::lemma_slot_page(p, elem, ptr);
    let base = page::base_of(p);
    page::lemma_slot_index(p, elem, ptr);
    let k = (ptr - base) / elem;
    assert(ptr % elem == base % elem) by {
        vstd::arithmetic::div_mod::lemma_mod_multiples_vanish(k, base, elem);
        vstd::arithmetic::mul::lemma_mul_is_commutative(k, elem);
    }
    let i = v.pages[p].index;
    assert((k * elem) % 8 == 0) by {
        assert(k * elem == 8 * (k * (i + 1))) by (nonlinear_arith)
            requires
                elem == 8 * (i + 1),
        ;
    }
}

/// A change of one page and of the list of its bucket leaves everything else in order.
proof fn lemma_update(v: BucketsView, w: BucketsView, p: int)
    requires
        v.ok(),
        ({
            let bi = w.pages[p].index;
            &&& 0 <= bi < NUM_BUCKETS
            &&& w.pages == v.pages.insert(p, w.pages[p])
            &&& w.lists == v.lists.update(bi, w.lists[bi])
            &&& v.pages.contains_key(p) ==> v.pages[p].index == bi
            &&& w.pages[p].ok(p)
            &&& w.pages[p].marker == page::mixed(
                page::marker_of((MARKER_STEP * bi) as u64),
                p as u64,
            )
            &&& w.lists[bi].no_duplicates()
            &&& sorted(w.pages, w.lists[bi])
            &&& forall|q: int| #[trigger]
                w.lists[bi].contains(q) <==> v.lists[bi].contains(q) || q == p
        }),
    ensures
        w.ok(),
{
    reveal(BucketsView::ok);
    let bi = w.pages[p].index;
    assert(v.list_ok(bi));
    assert forall|i: int| 0 <= i < NUM_BUCKETS implies #[trigger] w.list_ok(i) by {
        assert(v.list_ok(i));
        let list = w.lists[i];
        assert forall|k: int| 0 <= k < list.len() implies w.pages.contains_key(#[trigger] list[k])
            && w.pages[list[k]].index == i by {
            if i == bi {
                assert(list.contains(list[k]));
                if list[k] != p {
                    let k0 = v.lists[bi].index_of(list[k]);
                    assert(v.lists[bi][k0] == list[k]);
                }
            } else {
                assert(v.lists[i][k] == list[k]);
            }
        }
        if i != bi {
            assert forall|x: int, y: int|
                #![trigger list[x], list[y]]
                0 <= x < y < list.len() && w.pages[list[x]].full() implies w.pages[list[y]].full() by {
                assert(v.pages[v.lists[i][x]].index == i);
                assert(v.pages[v.lists[i][y]].index == i);
            }
        }
    }
    assert forall|q: int| w.pages.contains_key(q) implies #[trigger] w.page_ok(q) by {
        if q != p {
            assert(v.page_ok(q));
            if v.pages[q].index == bi {
                assert(w.lists[bi].contains(q));
            }
        } else {
            assert(w.lists[bi].contains(p));
        }
    }
}

/// Handing out a slot keeps the path in order.
pub proof fn lemma_slot_taken(v: BucketsView, p: int)
    requires
        v.ok(),
        v.pages.contains_key(p),
        !v.pages[p].full(),
    ensures
        v.slot_taken(p).ok(),
        v.slot_taken(p).pages.dom() == v.pages.dom(),
{
    lemma_page(v, p);
    let w = v.slot_taken(p);
    let bi = v.pages[p].index;
    lemma_moved(v.lists[bi], p);
    lemma_sorted_take(v.pages, v.lists[bi], p);
    page::law_taken(v.pages[p], p);
    assert(w.pages.dom() =~= v.pages.dom());
    lemma_update(v, w, p);
}

/// Giving back a slot keeps the path in order.
pub proof fn lemma_freed(v: BucketsView, ptr: int)
    requires
        v.ok(),
        v.live(ptr),
    ensures
        v.freed(ptr).ok(),
        v.freed(ptr).pages.dom() == v.pages.dom(),
{
    let p = page::page_of(ptr);
    lemma_page(v, p);
    let w = v.freed(ptr);
    let bi = v.pages[p].index;
    lemma_moved(v.lists[bi], p);
    lemma_sorted_give(v.pages, v.lists[bi], p, ptr);
    page::law_given(v.pages[p], p, ptr);
    assert(w.pages.dom() =~= v.pages.dom());
    lemma_update(v, w, p);
}

/// A fresh page keeps the path in order.
pub proof fn lemma_grown(v: BucketsView, bi: int, base: int)
    requires
        v.ok(),
        0 <= bi < NUM_BUCKETS,
        page::is_page(base + USABLE),
        !v.pages.contains_key(base + USABLE),
    ensures
        v.grown(bi, base).ok(),
        v.grown(bi, base).pages[base + USABLE].free.len() > 1,
        v.grown(bi, base).pages[base + USABLE].free[0] == base,
        v.grown(bi, base).total() == v.total() + PAGE_SIZE,
{
    let w = v.grown(bi, base);
    let p = base + USABLE;
    lemma_list(v, bi);
    let list = v.lists[bi];
    let l = w.lists[bi];
    page::lemma_fresh(p, bi, w.pages[p].marker);
    page::lemma_slot_count(page::elem_of(bi));
    assert(!list.contains(p)) by {
        if list.contains(p) {
            assert(v.pages.contains_key(list[list.index_of(p)]));
        }
    }
    assert forall|q: int| #[trigger] l.contains(q) <==> list.contains(q) || q == p by {
        if list.contains(q) {
            assert(l[list.index_of(q) + 1] == q);
        }
        if l.contains(q) && q != p {
            let i = l.index_of(q);
            assert(list[i - 1] == q);
        }
        assert(l[0] == p);
    }
    assert(l.no_duplicates()) by {
        assert forall|i: int, j: int| 0 <= i < l.len() && 0 <= j < l.len() && i != j implies l[i] != l[j] by {
            if i > 0 {
                assert(l[i] == list[i - 1]);
                assert(list.contains(list[i - 1]));
            }
            if j > 0 {
                assert(l[j] == list[j - 1]);
                assert(list.contains(list[j - 1]));
            }
        }
    }
    assert(sorted(w.pages, l)) by {
        assert forall|i: int, j: int|
            #![trigger l[i], l[j]]
            0 <= i < j < l.len() && w.pages[l[i]].full() implies w.pages[l[j]].full() by {
            if i > 0 {
                assert(l[i] == list[i - 1] && l[j] == list[j - 1]);
                assert(v.pages.contains_key(list[i - 1]) && v.pages.contains_key(list[j - 1]));
            }
        }
    }
    reveal(BucketsView::ok);
    lemma_update(v, w, p);
    assert(w.pages.dom() =~= v.pages.dom().insert(p));
}

/// The pages leave room in the address range for one more.
pub proof fn lemma_total(v: BucketsView)
    requires
        v.ok(),
    ensures
        0 <= v.total(),
        v.total() + PAGE_SIZE <= ADDRESS_LIMIT,
{
    reveal(BucketsView::ok);
    let hi = ADDRESS_LIMIT as int / PAGE_SIZE as int;
    let all = set_lib::set_int_range(1, hi);
    set_lib::lemma_int_range(1, hi);
    let f = |p: int| page::base_of(p) / PAGE_SIZE as int;
    let numbers = v.pages.dom().map(f);
    assert forall|a: int, b: int|
        v.pages.dom().contains(a) && v.pages.dom().contains(b) && #[trigger] f(a) == #[trigger] f(
            b,
        ) implies a == b by {
        assert(v.page_ok(a) && v.page_ok(b));
    }
    set_lib::lemma_map_size(v.pages.dom(), numbers, f);
    assert(numbers.subset_of(all)) by {
        assert forall|k: int| numbers.contains(k) implies all.contains(k) by {
            let p = choose|p: int| v.pages.dom().contains(p) && k == f(p);
            assert(v.page_ok(p));
        }
    }
    set_lib::lemma_len_subset(numbers, all);
}

/// A mapping on offer is no page yet.
pub proof fn lemma_agree_fresh(v: BucketsView, os: OsView)
    requires
        agree(v, os),
    ensures
        os.ok(),
        os.mapped(PAGE_SIZE as int).ok(),
        !os.can_map(PAGE_SIZE as int) ==> agree(v, os.mapped(PAGE_SIZE as int)),
        os.map_base(PAGE_SIZE as int) matches Some(base) ==> {
            &&& page::is_page(base + USABLE)
            &&& !v.pages.contains_key(base + USABLE)
            &&& forall|bi: int|
                agree(#[trigger] v.grown(bi, base), os.mapped(PAGE_SIZE as int))
        },
{
    reveal(agree);
    let len = PAGE_SIZE as int;
    os.lemma_mapped(len);
    os::lemma_first_of_len(os.grants, len);
    let o1 = os.mapped(len);
    if os.can_map(len) {
        let m = os.grants[os::first_of_len(os.grants, len)];
        let base = m.base as int;
        assert(os.grants.contains(m));
        assert(page::mapping_of(base + USABLE) == m);
        assert forall|bi: int| agree(#[trigger] v.grown(bi, base), o1) by {
            let w = v.grown(bi, base);
            assert forall|p: int| #[trigger] w.pages.contains_key(p) implies o1.held.contains(
                page::mapping_of(p),
            ) && !o1.grants.contains(page::mapping_of(p)) by {
                if p != base + USABLE {
                    assert(v.pages.contains_key(p));
                }
            }
        }
    }
}

/// Path and system agree as long as the pages are the same.
pub proof fn lemma_agree_same(v: BucketsView, w: BucketsView, os: OsView)
    requires
        agree(v, os),
        w.pages.dom() == v.pages.dom(),
    ensures
        agree(w, os),
{
    reveal(agree);
    assert forall|p: int| #[trigger] w.pages.contains_key(p) implies os.held.contains(
        page::mapping_of(p),
    ) && !os.grants.contains(page::mapping_of(p)) by {
        assert(w.pages.dom().contains(p));
        assert(v.pages.contains_key(p));
    }
}

/// Handing out a slot puts exactly that slot into use.
pub proof fn lemma_taken_live(v: BucketsView, p: int)
    requires
        v.ok(),
        v.pages.contains_key(p),
        !v.pages[p].full(),
    ensures
        ({
            let x = v.pages[p].free[0];
            let w = v.slot_taken(p);
            &&& page::page_of(x) == p
            &&& !v.live(x)
            &&& w.live(x)
            &&& forall|q: int| #![trigger w.live(q)] w.live(q) <==> v.live(q) || q == x
            &&& forall|q: int| #![trigger w.usable(q)] w.usable(q) == v.usable(q)
            &&& forall|q: int| #![trigger w.bucket(q)] w.bucket(q) == v.bucket(q)
        }),
{
    lemma_page(v, p);
    let x = v.pages[p].free[0];
    let w = v.slot_taken(p);
    assert(page::is_slot(p, v.pages[p].elem(), x));
    page::lemma_slot_page(p, v.pages[p].elem(), x);
    page::law_taken(v.pages[p], p);
    assert forall|q: int| #![trigger w.live(q)] w.live(q) <==> v.live(q) || q == x by {
        if page::page_of(q) == p {
            assert(v.pages[p].taken().live(p, q) <==> v.pages[p].live(p, q) || q == x);
        }
    }
}

/// A request keeps every slot in use as it is. It is answered unless the bucket has no
/// free slot and the system has no page to serve. The answer is a slot of the bucket that
/// was not in use before, and where there is none, nothing changes.
pub proof fn law_served(v: BucketsView, o: OsView, bi: int)
    requires
        v.ok(),
        agree(v, o),
        0 <= bi < NUM_BUCKETS,
    ensures
        ({
            let (w, o1, r) = v.served(o, bi);
            &&& w.ok()
            &&& agree(w, o1)
            &&& r is None <==> (free_page(v.pages, v.lists[bi]) is None && !o.can_map(
                PAGE_SIZE as int,
            ))
            &&& r is None ==> w == v
            &&& r matches Some(x) ==> {
                &&& w.live(x)
                &&& !v.live(x)
                &&& w.bucket(x) == bi
                &&& w.usable(x) == page::elem_of(bi)
                &&& forall|q: int| #![trigger w.live(q)] w.live(q) <==> v.live(q) || q == x
            }
            &&& forall|q: int|
                #![trigger w.usable(q)]
                v.live(q) ==> w.usable(q) == v.usable(q) && w.bucket(q) == v.bucket(q)
            &&& forall|q: int| v.live(q) ==> #[trigger] w.live(q)
        }),
{
    lemma_list(v, bi);
    lemma_agree_fresh(v, o);
    let (w, o1, r) = v.served(o, bi);
    match free_page(v.pages, v.lists[bi]) {
        Some(p) => {
            assert(v.pages.contains_key(v.lists[bi][0]));
            lemma_slot_taken(v, p);
            lemma_taken_live(v, p);
            lemma_agree_same(v, w, o);
            assert(w.bucket(v.pages[p].free[0]) == bi);
            assert forall|q: int| #![trigger w.usable(q)] v.live(q) implies w.usable(q) == v.usable(q)
                && w.bucket(q) == v.bucket(q) by {}
        },
        None => {
            if let Some(base) = o.map_base(PAGE_SIZE as int) {
                lemma_grown(v, bi, base);
                let g = v.grown(bi, base);
                let p = base + USABLE;
                lemma_slot_taken(g, p);
                lemma_taken_live(g, p);
                assert(agree(g, o1));
                lemma_agree_same(g, w, o1);
                page::lemma_fresh(p, bi, g.pages[p].marker);
                assert forall|q: int| g.live(q) <==> v.live(q) by {
                    if page::page_of(q) == p {
                        assert(!PageView::fresh(p, bi, g.pages[p].marker).live(p, q));
                    }
                }
                assert forall|q: int| #![trigger w.live(q)] w.live(q) <==> v.live(q) || q == base by {
                    assert(g.live(q) <==> v.live(q));
                }
                assert(w.bucket(base) == g.bucket(base));
                assert(w.usable(base) == g.usable(base));
                assert forall|q: int| #![trigger w.usable(q)] v.live(q) implies w.usable(q) == v.usable(q)
                    && w.bucket(q) == v.bucket(q) by {
                    assert(g.usable(q) == v.usable(q));
                    assert(w.bucket(q) == g.bucket(q));
                    assert(page::page_of(q) != p);
                }
                assert(!v.live(base)) by {
                    assert(page::page_of(base) == p);
                }
            }
        },
    }
}

/// Giving a slot back takes exactly that slot out of use.
pub proof fn law_freed(v: BucketsView, ptr: int)
    requires
        v.ok(),
        v.live(ptr),
    ensures
        ({
            let w = v.freed(ptr);
            &&& w.ok()
            &&& w.pages.dom() == v.pages.dom()
            &&& w.total() == v.total()
            &&& forall|q: int| #![trigger w.live(q)] w.live(q) <==> v.live(q) && q != ptr
            &&& forall|q: int| #![trigger w.usable(q)] w.usable(q) == v.usable(q)
            &&& forall|q: int| #![trigger w.bucket(q)] w.bucket(q) == v.bucket(q)
        }),
{
    lemma_freed(v, ptr);
    let p = page::page_of(ptr);
    let w = v.freed(ptr);
    lemma_page(v, p);
    page::law_given(v.pages[p], p, ptr);
    assert forall|q: int| #![trigger w.live(q)] w.live(q) <==> v.live(q) && q != ptr by {
        if page::page_of(q) == p {
            assert(v.pages[p].given(ptr).live(p, q) <==> v.pages[p].live(p, q) && q != ptr);
        }
    }
}

/// Memory at hand is used first: as long as a page of the bucket has a slot that is not in
/// use, a request is answered, nothing is asked of the system and no page is added.
pub proof fn law_at_hand(v: BucketsView, o: OsView, bi: int, p: int)
    requires
        v.ok(),
        0 <= bi < NUM_BUCKETS,
        v.pages.contains_key(p),
        v.pages[p].index == bi,
        v.pages[p].free.len() > 0,
    ensures
        ({
            let (w, o1, r) = v.served(o, bi);
            &&& r is Some
            &&& o1 == o
            &&& w.pages.dom() == v.pages.dom()
        }),
{
    lemma_page(v, p);
    lemma_list(v, bi);
    let list = v.lists[bi];
    let i = list.index_of(p);
    assert(list[i] == p);
    if v.pages[list[0]].full() {
        if i > 0 {
            assert(v.pages[list[i]].full());
        }
    }
    assert(v.pages.contains_key(list[0]));
    lemma_slot_taken(v, list[0]);
}

/// What was given back last is served first: a slot of the page that the bucket tries first, or
/// of a page that was full, answers the next request to the bucket.
pub proof fn law_last_freed(v: BucketsView, o: OsView, ptr: int)
    requires
        v.ok(),
        v.live(ptr),
    ensures
        ({
            let p = page::page_of(ptr);
            let bi = v.bucket(ptr);
            let (w, o1, r) = v.freed(ptr).served(o, bi);
            v.pages[p].free.len() == 0 || v.lists[bi][0] == p ==> r == Some(ptr) && o1 == o
        }),
{
    let p = page::page_of(ptr);
    lemma_page(v, p);
    page::law_last_given(v.pages[p], ptr);
}

/// Where a slot is after a request for more bytes, its bytes up to the size of the old slot
/// are to be moved, and every other slot in use stays as it is. Where there is no room, the
/// slot is untouched. A slot that is large enough stays where it is.
pub proof fn law_realloc(v: BucketsView, o: OsView, ptr: int, size: int)
    requires
        v.ok(),
        agree(v, o),
        v.live(ptr),
        0 <= size <= MAX_SMALL_ALLOCATION,
    ensures
        ({
            let (w, o1, r) = v.realloc(o, ptr, size);
            &&& w.ok()
            &&& agree(w, o1)
            &&& r is None ==> w == v
            &&& size <= v.usable(ptr) ==> r == Some((ptr, 0int)) && w == v && o1 == o
            &&& r matches Some((x, copied)) ==> {
                &&& w.live(x)
                &&& w.usable(x) >= size
                &&& x == ptr || (!v.live(x) && copied == v.usable(ptr) && copied < size)
                &&& forall|q: int|
                    #![trigger w.live(q)]
                    w.live(q) <==> (v.live(q) && q != ptr) || q == x
            }
            &&& forall|q: int|
                #![trigger w.usable(q)]
                v.live(q) ==> w.usable(q) == v.usable(q) && w.bucket(q) == v.bucket(q)
        }),
{
    lemma_live(v, ptr);
    if size > v.usable(ptr) {
        let bi = page::class_of(size);
        page::law_spacing(0, size);
        law_served(v, o, bi);
        let (m, o1, r) = v.served(o, bi);
        if r is Some {
            assert(m.live(ptr));
            law_freed(m, ptr);
            lemma_agree_same(m, m.freed(ptr), o1);
            let w = m.freed(ptr);
            assert forall|q: int| #![trigger w.usable(q)] v.live(q) implies w.usable(q) == v.usable(q)
                && w.bucket(q) == v.bucket(q) by {
                assert(w.usable(q) == m.usable(q));
                assert(w.bucket(q) == m.bucket(q));
            }
            assert(w.usable(r->0) == m.usable(r->0));
        }
    }
}

/// Two slots in use have no byte in common.
pub proof fn law_live_apart(v: BucketsView, x: int, y: int)
    requires
        v.ok(),
        v.live(x),
        v.live(y),
        x != y,
    ensures
        x + v.usable(x) <= y || y + v.usable(y) <= x,
{
    let p = page::page_of(x);
    let q = page::page_of(y);
    lemma_page(v, p);
    lemma_page(v, q);
    page::lemma_slot_page(p, v.usable(x), x);
    page::lemma_slot_page(q, v.usable(y), y);
    if p == q {
        page::law_slots_apart(p, v.usable(x), x, y);
    }
}

/// The state while the bucket is purged: its first `j` pages have been looked at.
pub open spec fn purging(v: BucketsView, o: OsView, bi: int, j: int) -> (BucketsView, OsView) {
    let list = v.lists[bi];
    let gone = those(v.pages, list.take(j), true);
    (
        BucketsView {
            pages: v.pages.remove_keys(gone.to_set()),
            lists: v.lists.update(bi, those(v.pages, list.take(j), false) + list.skip(j)),
        },
        returned(o, gone),
    )
}

/// Whether `h` is the memory of a page.
pub open spec fn maps(v: BucketsView, h: Mapping) -> bool {
    exists|p: int| #[trigger] v.pages.contains_key(p) && page::mapping_of(p) == h
}

/// What the system holds besides the pages stays held.
pub open spec fn spares(v: BucketsView, o: OsView, o1: OsView) -> bool {
    &&& o1.grants == o.grants
    &&& forall|h: Mapping| o.held.contains(h) && !maps(v, h) ==> #[trigger] o1.held.contains(h)
}

/// What is held afterwards was held before, and a page of it is still a page: the pages that
/// have gone are no longer held.
pub open spec fn gives_back(v: BucketsView, w: BucketsView, o: OsView, o1: OsView) -> bool {
    forall|h: Mapping| #[trigger]
        o1.held.contains(h) ==> o.held.contains(h) && (maps(v, h) ==> maps(w, h))
}

/// Where all pages from index `j` on have a slot in use, they all stay.
pub proof fn lemma_those_rest(pages: Map<int, PageView>, list: Seq<int>, j: int)
    requires
        0 <= j <= list.len(),
        forall|i: int| j <= i < list.len() ==> pages[#[trigger] list[i]].use_count() != 0,
    ensures
        those(pages, list, true) == those(pages, list.take(j), true),
        those(pages, list, false) == those(pages, list.take(j), false) + list.skip(j),
    decreases list.len() - j,
{
    if j == list.len() {
        assert(list.take(j) =~= list);
        assert(list.skip(j) =~= Seq::empty());
        assert(those(pages, list, false) + list.skip(j) =~= those(pages, list, false));
    } else {
        lemma_those_rest(pages, list, j + 1);
        let t = list.take(j + 1);
        assert(t.drop_last() =~= list.take(j));
        assert(t.last() == list[j]);
        assert(those(pages, list.take(j), false).push(list[j]) + list.skip(j + 1) =~= those(
            pages,
            list.take(j),
            false,
        ) + list.skip(j));
    }
}

/// Giving back a page keeps the others in order.
pub proof fn lemma_dropped(v: BucketsView, o: OsView, p: int)
    requires
        v.ok(),
        agree(v, o),
        v.pages.contains_key(p),
    ensures
        ({
            let bi = v.pages[p].index;
            let list = v.lists[bi];
            let w = BucketsView {
                pages: v.pages.remove(p),
                lists: v.lists.update(bi, list.remove(list.index_of(p))),
            };
            let o1 = o.unmapped(page::mapping_of(p));
            &&& w.ok()
            &&& agree(w, o1)
            &&& w.total() == v.total() - PAGE_SIZE
            &&& o.held.contains(page::mapping_of(p))
            &&& !o.grants.contains(page::mapping_of(p))
            &&& spares(v, o, o1)
            &&& gives_back(v, w, o, o1)
        }),
{
    reveal(BucketsView::ok);
    reveal(agree);
    lemma_page(v, p);
    let bi = v.pages[p].index;
    let list = v.lists[bi];
    let k = list.index_of(p);
    let l = list.remove(k);
    let w = BucketsView { pages: v.pages.remove(p), lists: v.lists.update(bi, l) };
    let m = page::mapping_of(p);
    let o1 = o.unmapped(m);
    o.lemma_unmapped(m);
    assert(w.pages.dom() =~= v.pages.dom().remove(p));
    assert forall|i: int| 0 <= i < NUM_BUCKETS implies #[trigger] w.list_ok(i) by {
        assert(v.list_ok(i));
        let wl = w.lists[i];
        if i == bi {
            assert forall|x: int| 0 <= x < wl.len() implies w.pages.contains_key(#[trigger] wl[x])
                && w.pages[wl[x]].index == i by {
                let x0 = if x < k { x } else { x + 1 };
                assert(wl[x] == list[x0]);
                assert(v.pages.contains_key(list[x0]));
            }
            assert forall|x: int, y: int|
                #![trigger wl[x], wl[y]]
                0 <= x < y < wl.len() && w.pages[wl[x]].full() implies w.pages[wl[y]].full() by {
                let x0 = if x < k { x } else { x + 1 };
                let y0 = if y < k { y } else { y + 1 };
                assert(wl[x] == list[x0] && wl[y] == list[y0]);
                assert(list[x0] != p && list[y0] != p);
            }
        } else {
            assert forall|x: int| 0 <= x < wl.len() implies w.pages.contains_key(#[trigger] wl[x])
                && w.pages[wl[x]].index == i by {
                assert(v.pages.contains_key(v.lists[i][x]));
            }
            assert forall|x: int, y: int|
                #![trigger wl[x], wl[y]]
                0 <= x < y < wl.len() && w.pages[wl[x]].full() implies w.pages[wl[y]].full() by {
                assert(v.pages[v.lists[i][x]].index == i);
                assert(v.pages[v.lists[i][y]].index == i);
            }
        }
    }
    assert forall|q: int| w.pages.contains_key(q) implies #[trigger] w.page_ok(q) by {
        assert(v.page_ok(q));
        if v.pages[q].index == bi {
            let x = list.index_of(q);
            assert(l[if x < k { x } else { x - 1 }] == q);
            assert(l.contains(q));
        }
    }
    assert(w.ok());
    assert forall|q: int| #[trigger] w.pages.contains_key(q) implies o1.held.contains(
        page::mapping_of(q),
    ) && !o1.grants.contains(page::mapping_of(q)) by {
        assert(v.page_ok(q) && v.page_ok(p));
        assert(page::mapping_of(q) != m);
    }
    assert forall|h: Mapping| o.held.contains(h) && !maps(v, h) implies #[trigger] o1.held.contains(h) by {
        if h == m {
            assert(v.pages.contains_key(p));
        }
    }
    assert forall|h: Mapping| #[trigger] o1.held.contains(h) implies o.held.contains(h) && (maps(v, h)
        ==> maps(w, h)) by {
        if maps(v, h) {
            let q = choose|q: int| #[trigger] v.pages.contains_key(q) && page::mapping_of(q) == h;
            assert(q != p);
            assert(w.pages.contains_key(q));
        }
    }
}

/// A page is part of the total.
pub proof fn lemma_counted(v: BucketsView, p: int)
    requires
        v.ok(),
        v.pages.contains_key(p),
    ensures
        v.total() >= PAGE_SIZE,
{
    reveal(BucketsView::ok);
    assert(v.pages.dom().contains(p));
    assert(v.pages.dom().remove(p).len() == v.pages.dom().len() - 1);
}

/// A step of a purge drops the page that it looks at or leaves everything as it is.
pub proof fn lemma_purging_step(v: BucketsView, o: OsView, bi: int, j: int)
    requires
        v.ok(),
        agree(v, o),
        0 <= bi < NUM_BUCKETS,
        0 <= j < v.lists[bi].len(),
    ensures
        ({
            let list = v.lists[bi];
            let p = list[j];
            let (u, o0) = purging(v, o, bi, j);
            let (w, o1) = purging(v, o, bi, j + 1);
            &&& v.pages[p].use_count() == 0 ==> {
                &&& w == (BucketsView {
                    pages: u.pages.remove(p),
                    lists: u.lists.update(bi, u.lists[bi].remove(u.lists[bi].index_of(p))),
                })
                &&& o1 == o0.unmapped(page::mapping_of(p))
            }
            &&& v.pages[p].use_count() != 0 ==> w == u && o1 == o0
        }),
    decreases j, 1int,
{
    let list = v.lists[bi];
    lemma_list(v, bi);
    let (u, o0) = purging(v, o, bi, j);
    let (w, o1) = purging(v, o, bi, j + 1);
    lemma_purging(v, o, bi, j);
    let p = list[j];
    let front = list.take(j);
    let t = list.take(j + 1);
    assert(t.drop_last() =~= front);
    assert(t.last() == p);
    let kept = those(v.pages, front, false);
    let gone = those(v.pages, front, true);
    if v.pages[p].use_count() == 0 {
        assert((kept + list.skip(j)).remove(kept.len() as int) =~= kept + list.skip(j + 1));
        assert(gone.push(p).drop_last() =~= gone);
        assert(gone.push(p).to_set() =~= gone.to_set().insert(p)) by {
            assert forall|x: int| gone.push(p).to_set().contains(x) <==> gone.to_set().insert(p).contains(x) by {
                if gone.push(p).contains(x) {
                    let i = gone.push(p).index_of(x);
                    if i < gone.len() {
                        assert(gone[i] == x);
                    }
                }
                if gone.contains(x) {
                    assert(gone.push(p)[gone.index_of(x)] == x);
                }
                assert(gone.push(p)[gone.len() as int] == p);
            }
        }
        assert(w.pages =~= u.pages.remove(p));
        assert(w.lists =~= u.lists.update(bi, u.lists[bi].remove(kept.len() as int)));
    } else {
        assert(kept.push(p) + list.skip(j + 1) =~= kept + list.skip(j));
        assert(w == u);
    }
}

/// A bucket is in order at every step of a purge, and no step touches anything but pages
/// without a slot in use.
pub proof fn lemma_purging(v: BucketsView, o: OsView, bi: int, j: int)
    requires
        v.ok(),
        agree(v, o),
        0 <= bi < NUM_BUCKETS,
        0 <= j <= v.lists[bi].len(),
    ensures
        ({
            let (w, o1) = purging(v, o, bi, j);
            &&& w.ok()
            &&& agree(w, o1)
            &&& spares(v, o, o1)
            &&& gives_back(v, w, o, o1)
            &&& os::lists_gone(o, o1)
            &&& forall|p: int|
                #![trigger w.pages.contains_key(p)]
                w.pages.contains_key(p) <==> v.pages.contains_key(p) && !(v.pages[p].use_count() == 0
                    && v.lists[bi].take(j).contains(p))
            &&& forall|p: int|
                #![trigger w.pages[p]]
                w.pages.contains_key(p) ==> w.pages[p] == v.pages[p]
            &&& j < v.lists[bi].len() ==> {
                let p = v.lists[bi][j];
                let kept = those(v.pages, v.lists[bi].take(j), false);
                &&& w.pages.contains_key(p)
                &&& w.pages[p] == v.pages[p]
                &&& w.lists[bi] == kept + v.lists[bi].skip(j)
                &&& w.lists[bi].index_of(p) == kept.len()
                &&& w.lists[bi].contains(p)
                &&& w.lists[bi][kept.len() as int] == p
            }
        }),
    decreases j, 0int,
{
    let list = v.lists[bi];
    lemma_list(v, bi);
    let (w, o1) = purging(v, o, bi, j);
    if j == 0 {
        assert(list.take(0) =~= Seq::empty());
        assert(those(v.pages, list.take(0), true) =~= Seq::empty());
        assert(those(v.pages, list.take(0), false) + list.skip(0) =~= list);
        assert(w.pages =~= v.pages);
        assert(w.lists =~= v.lists);
        assert(w == v && o1 == o);
        assert(gives_back(v, w, o, o1));
        os::lemma_lists_none(o);
    } else {
        let (u, o0) = purging(v, o, bi, j - 1);
        lemma_purging(v, o, bi, j - 1);
        let p = list[j - 1];
        let front = list.take(j - 1);
        let t = list.take(j);
        assert(t.drop_last() =~= front);
        assert(t.last() == p);
        lemma_purging_step(v, o, bi, j - 1);
        if v.pages[p].use_count() == 0 {
            lemma_dropped(u, o0, p);
            assert(o0.ok() && o0.held.contains(page::mapping_of(p)) && !o0.grants.contains(
                page::mapping_of(p),
            )) by {
                reveal(agree);
                assert(u.pages.contains_key(p));
            }
            os::lemma_lists_one(o0, page::mapping_of(p));
            os::lemma_lists_both(o, o0, o1);
            assert(u.pages[p].index == bi);
            assert forall|h: Mapping| o.held.contains(h) && !maps(v, h) implies #[trigger] o1.held.contains(
                h,
            ) by {
                assert(o0.held.contains(h));
                assert(!maps(u, h)) by {
                    if maps(u, h) {
                        let q = choose|q: int| #[trigger] u.pages.contains_key(q) && page::mapping_of(q) == h;
                        assert(v.pages.contains_key(q));
                    }
                }
            }
            assert(gives_back(u, w, o0, o1));
        }
        assert forall|h: Mapping| #[trigger] o1.held.contains(h) implies o.held.contains(h) && (maps(v, h)
            ==> maps(w, h)) by {
            assert(o0.held.contains(h));
        }
        assert forall|q: int|
            #![trigger w.pages.contains_key(q)]
            w.pages.contains_key(q) <==> v.pages.contains_key(q) && !(v.pages[q].use_count() == 0
                && list.take(j).contains(q)) by {
            assert(u.pages.contains_key(q) <==> v.pages.contains_key(q) && !(v.pages[q].use_count() == 0
                && front.contains(q)));
            if front.contains(q) {
                assert(t[front.index_of(q)] == q);
            }
            if t.contains(q) && q != p {
                assert(front[t.index_of(q)] == q);
            }
            assert(t[j - 1] == p);
        }
    }
    if j < list.len() {
        let p = list[j];
        let kept = those(v.pages, list.take(j), false);
        let l = w.lists[bi];
        assert(l == kept + list.skip(j));
        assert(l[kept.len() as int] == p);
        assert(v.pages.contains_key(p));
        assert(!list.take(j).contains(p)) by {
            if list.take(j).contains(p) {
                assert(list[list.take(j).index_of(p)] == p);
            }
        }
        assert(w.pages.contains_key(p));
        lemma_list(w, bi);
        assert(l.no_duplicates());
        assert(l.contains(p));
        assert(l.index_of(p) == kept.len());
    }
}

/// Purging a bucket drops exactly its pages without a slot in use.
pub proof fn lemma_purged_bucket(v: BucketsView, o: OsView, bi: int)
    requires
        v.ok(),
        agree(v, o),
        0 <= bi < NUM_BUCKETS,
    ensures
        ({
            let (w, o1) = v.purged_bucket(o, bi);
            &&& w.ok()
            &&& agree(w, o1)
            &&& spares(v, o, o1)
            &&& gives_back(v, w, o, o1)
            &&& os::lists_gone(o, o1)
            &&& forall|p: int|
                #![trigger w.pages.contains_key(p)]
                w.pages.contains_key(p) <==> v.pages.contains_key(p) && !(v.pages[p].use_count() == 0
                    && v.pages[p].index == bi)
            &&& forall|p: int|
                #![trigger w.pages[p]]
                w.pages.contains_key(p) ==> w.pages[p] == v.pages[p]
        }),
{
    let list = v.lists[bi];
    let n = list.len() as int;
    lemma_purging(v, o, bi, n);
    lemma_list(v, bi);
    assert(list.take(n) =~= list);
    assert(those(v.pages, list, false) + list.skip(n) =~= those(v.pages, list, false));
    let (w, o1) = v.purged_bucket(o, bi);
    assert forall|p: int|
        #![trigger w.pages.contains_key(p)]
        w.pages.contains_key(p) <==> v.pages.contains_key(p) && !(v.pages[p].use_count() == 0
            && v.pages[p].index == bi) by {
        assert(purging(v, o, bi, n).0.pages.contains_key(p) <==> v.pages.contains_key(p) && !(
        v.pages[p].use_count() == 0 && list.contains(p)));
        if v.pages.contains_key(p) {
            lemma_page(v, p);
            if list.contains(p) {
                assert(v.pages[list[list.index_of(p)]].index == bi);
            }
        }
    }
}

/// Purging the first `n` buckets drops exactly their pages without a slot in use.
pub proof fn lemma_purged_upto(v: BucketsView, o: OsView, n: int)
    requires
        v.ok(),
        agree(v, o),
        0 <= n <= NUM_BUCKETS,
    ensures
        ({
            let (w, o1) = v.purged_upto(o, n);
            &&& w.ok()
            &&& agree(w, o1)
            &&& spares(v, o, o1)
            &&& gives_back(v, w, o, o1)
            &&& os::lists_gone(o, o1)
            &&& forall|p: int|
                #![trigger w.pages.contains_key(p)]
                w.pages.contains_key(p) <==> v.pages.contains_key(p) && !(v.pages[p].use_count() == 0
                    && v.pages[p].index < n)
            &&& forall|p: int|
                #![trigger w.pages[p]]
                w.pages.contains_key(p) ==> w.pages[p] == v.pages[p]
        }),
    decreases n,
{
    let (w, o1) = v.purged_upto(o, n);
    if n > 0 {
        let (u, o0) = v.purged_upto(o, n - 1);
        lemma_purged_upto(v, o, n - 1);
        lemma_purged_bucket(u, o0, n - 1);
        os::lemma_lists_both(o, o0, o1);
        assert forall|h: Mapping| #[trigger] o1.held.contains(h) implies o.held.contains(h) && (maps(v, h)
            ==> maps(w, h)) by {
            assert(o0.held.contains(h));
        }
        assert forall|h: Mapping| o.held.contains(h) && !maps(v, h) implies #[trigger] o1.held.contains(h) by {
            assert(o0.held.contains(h));
            if maps(u, h) {
                let q = choose|q: int| #[trigger] u.pages.contains_key(q) && page::mapping_of(q) == h;
                assert(v.pages.contains_key(q));
            }
        }
        assert forall|p: int|
            #![trigger w.pages.contains_key(p)]
            w.pages.contains_key(p) <==> v.pages.contains_key(p) && !(v.pages[p].use_count() == 0
                && v.pages[p].index < n) by {
            if v.pages.contains_key(p) {
                lemma_page(v, p);
            }
            if u.pages.contains_key(p) {
                assert(u.pages[p] == v.pages[p]);
            }
        }
        assert forall|p: int| #![trigger w.pages[p]] w.pages.contains_key(p) implies w.pages[p] == v.pages[p] by {
            assert(u.pages.contains_key(p));
            assert(u.pages[p] == v.pages[p]);
        }
    } else {
        os::lemma_lists_none(o);
        assert forall|p: int|
            #![trigger w.pages.contains_key(p)]
            w.pages.contains_key(p) <==> v.pages.contains_key(p) && !(v.pages[p].use_count() == 0
                && v.pages[p].index < n) by {
            if v.pages.contains_key(p) {
                lemma_page(v, p);
            }
        }
    }
}

/// A purge keeps every slot in use and gives every page without one back to the system:
/// what remains is the pages that have a slot in use, and what has gone is listed for return.
pub proof fn law_purged(v: BucketsView, o: OsView)
    requires
        v.ok(),
        agree(v, o),
    ensures
        ({
            let (w, o1) = v.purged(o);
            &&& w.ok()
            &&& agree(w, o1)
            &&& spares(v, o, o1)
            &&& gives_back(v, w, o, o1)
            &&& os::lists_gone(o, o1)
            &&& forall|q: int|
                #![trigger w.live(q)]
                #![trigger v.live(q)]
                w.live(q) <==> v.live(q)
            &&& forall|q: int|
                #![trigger w.usable(q)]
                v.live(q) ==> w.usable(q) == v.usable(q) && w.bucket(q) == v.bucket(q)
            &&& forall|p: int|
                #![trigger w.pages.contains_key(p)]
                w.pages.contains_key(p) <==> v.pages.contains_key(p) && v.pages[p].use_count() != 0
            &&& forall|p: int|
                #![trigger w.pages.contains_key(p)]
                w.pages.contains_key(p) ==> exists|q: int| page::page_of(q) == p && #[trigger] w.live(q)
            &&& (forall|q: int| !#[trigger] v.live(q)) ==> w.total() == 0
        }),
{
    let (w, o1) = v.purged(o);
    lemma_purged_upto(v, o, NUM_BUCKETS as int);
    assert forall|p: int|
        #![trigger w.pages.contains_key(p)]
        w.pages.contains_key(p) <==> v.pages.contains_key(p) && v.pages[p].use_count() != 0 by {
        if v.pages.contains_key(p) {
            lemma_page(v, p);
        }
    }
    assert forall|q: int| #![trigger w.live(q)] #![trigger v.live(q)] w.live(q) <==> v.live(q) by {
        let p = page::page_of(q);
        if w.pages.contains_key(p) {
            assert(w.pages[p] == v.pages[p]);
        }
        if v.live(q) {
            lemma_page(v, p);
            page::law_use_count(v.pages[p], p);
            assert(v.pages[p].live(p, q));
            assert(w.pages.contains_key(p));
        }
    }
    assert forall|q: int| #![trigger w.usable(q)] v.live(q) implies w.usable(q) == v.usable(q) && w.bucket(
        q,
    ) == v.bucket(q) by {
        assert(w.live(q));
        assert(w.pages[page::page_of(q)] == v.pages[page::page_of(q)]);
    }
    assert forall|p: int| #![trigger w.pages.contains_key(p)] w.pages.contains_key(p) implies exists|q: int|
        page::page_of(q) == p && #[trigger] w.live(q) by {
        lemma_page(w, p);
        page::law_use_count(w.pages[p], p);
        assert(w.pages[p] == v.pages[p]);
        let q = choose|q: int| #[trigger] w.pages[p].live(p, q);
        page::lemma_slot_page(p, w.pages[p].elem(), q);
        assert(w.live(q));
    }
    if forall|q: int| !#[trigger] v.live(q) {
        assert(w.pages.dom() =~= Set::empty()) by {
            assert forall|p: int| !w.pages.dom().contains(p) by {
                if w.pages.contains_key(p) {
                    let q = choose|q: int| page::page_of(q) == p && #[trigger] w.live(q);
                    assert(v.live(q));
                }
            }
        }
    }
}

} // verus!
