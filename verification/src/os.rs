//! Memory from the operating system, in multiples of one fixed page size.
//!
//! The system calls are made by the program around this library. It hands over what
//! it mapped with [`Os::grant`], learns from [`Os::take_wanted`] what was asked for in
//! vain, and returns to the system what [`Os::take_released`] lists.

use crate::align;
use vstd::arithmetic::power2;
use vstd::prelude::*;

verus! {

/// The size by which the allocator grows, on every platform.
pub const PAGE_SIZE: u64 = 65536;

/// The highest address that the end of a mapping may have: the last one that there is.
pub const ADDRESS_LIMIT: u64 = 0xffff_ffff_ffff_ffff;

/// A stretch of mapped memory.
#[derive(Clone, Copy, PartialEq, Eq, Structural, Debug)]
pub struct Mapping {
    pub base: u64,
    pub len: u64,
}

impl Mapping {
    /// The address behind the last byte.
    pub open spec fn end(self) -> int {
        self.base + self.len
    }

    /// Page-aligned at both ends, not empty, not at null, below the address limit.
    pub open spec fn ok(self) -> bool {
        &&& self.base > 0
        &&& self.len > 0
        &&& self.base as int % PAGE_SIZE as int == 0
        &&& self.len as int % PAGE_SIZE as int == 0
        &&& self.end() <= ADDRESS_LIMIT
    }

    /// No byte in common.
    pub open spec fn apart(self, other: Mapping) -> bool {
        self.end() <= other.base || other.end() <= self.base
    }
}

/// The index of the first mapping of exactly `len` bytes, or the number of mappings.
pub open spec fn first_of_len(maps: Seq<Mapping>, len: int) -> int
    decreases maps.len(),
{
    if maps.len() == 0 {
        0
    } else if maps[0].len == len {
        0
    } else {
        1 + first_of_len(maps.drop_first(), len)
    }
}

/// What `first_of_len` finds.
pub proof fn lemma_first_of_len(maps: Seq<Mapping>, len: int)
    ensures
        0 <= first_of_len(maps, len) <= maps.len(),
        first_of_len(maps, len) < maps.len() ==> maps[first_of_len(maps, len)].len == len,
        forall|i: int| 0 <= i < first_of_len(maps, len) ==> maps[i].len != len,
    decreases maps.len(),
{
    if maps.len() > 0 && maps[0].len != len {
        let rest = maps.drop_first();
        lemma_first_of_len(rest, len);
        assert forall|i: int| 0 <= i < first_of_len(maps, len) implies maps[i].len != len by {
            if i > 0 {
                assert(rest[i - 1] == maps[i]);
            }
        }
    }
}

/// The only index with these two properties is the one that `first_of_len` gives.
pub proof fn lemma_is_first_of_len(maps: Seq<Mapping>, len: int, k: int)
    requires
        0 <= k <= maps.len(),
        k < maps.len() ==> maps[k].len == len,
        forall|i: int| 0 <= i < k ==> maps[i].len != len,
    ensures
        first_of_len(maps, len) == k,
{
    lemma_first_of_len(maps, len);
}

/// Mappings that can be served, mappings that are held, mappings to be returned, and
/// the size of the last request that could not be served.
#[verifier::ext_equal]
pub struct OsView {
    pub grants: Seq<Mapping>,
    pub held: Seq<Mapping>,
    pub released: Seq<Mapping>,
    pub wanted: Option<int>,
}

impl OsView {
    /// Held mappings are sound and apart from each other, and what can be served is
    /// held.
    #[verifier::opaque]
    pub open spec fn ok(self) -> bool {
        &&& forall|i: int| 0 <= i < self.held.len() ==> (#[trigger] self.held[i]).ok()
        &&& forall|i: int, j: int|
            #![trigger self.held[i], self.held[j]]
            0 <= i < j < self.held.len() ==> self.held[i].apart(self.held[j])
        &&& forall|i: int| 0 <= i < self.grants.len() ==> self.held.contains(#[trigger] self.grants[i])
        &&& self.grants.no_duplicates()
    }

    /// Whether a mapping of exactly `size` bytes can be served.
    pub open spec fn can_map(self, size: int) -> bool {
        first_of_len(self.grants, size) < self.grants.len()
    }

    /// The address that a request for `size` bytes is answered with.
    pub open spec fn map_base(self, size: int) -> Option<int> {
        if self.can_map(size) {
            Some(self.grants[first_of_len(self.grants, size)].base as int)
        } else {
            None
        }
    }

    /// After a request for `size` bytes.
    pub open spec fn mapped(self, size: int) -> OsView {
        if self.can_map(size) {
            OsView { grants: self.grants.remove(first_of_len(self.grants, size)), ..self }
        } else {
            OsView { wanted: Some(size), ..self }
        }
    }

    /// After the mapping `m` was given back.
    pub open spec fn unmapped(self, m: Mapping) -> OsView {
        OsView {
            held: self.held.remove(self.held.index_of(m)),
            released: self.released.push(m),
            ..self
        }
    }

    /// After the mapping `m` was handed over.
    pub open spec fn granted(self, m: Mapping) -> OsView {
        OsView { grants: self.grants.push(m), held: self.held.push(m), ..self }
    }

    /// Whether `m` is sound and apart from everything held.
    pub open spec fn accepts(self, m: Mapping) -> bool {
        m.ok() && forall|i: int| 0 <= i < self.held.len() ==> m.apart(#[trigger] self.held[i])
    }

    /// Serving a request keeps the mappings in order and takes one out of service.
    pub proof fn lemma_mapped(self, size: int)
        requires
            self.ok(),
        ensures
            self.mapped(size).ok(),
            self.can_map(size) ==> {
                let m = self.grants[first_of_len(self.grants, size)];
                &&& m.len == size
                &&& m.ok()
                &&& self.held.contains(m)
                &&& !self.mapped(size).grants.contains(m)
                &&& forall|g: Mapping| #[trigger]
                    self.mapped(size).grants.contains(g) ==> self.grants.contains(g)
                &&& forall|g: Mapping| #[trigger]
                    self.grants.contains(g) ==> g == m || self.mapped(size).grants.contains(g)
            },
    {
        reveal(OsView::ok);
        lemma_first_of_len(self.grants, size);
        let k = first_of_len(self.grants, size);
        if self.can_map(size) {
            let m = self.grants[k];
            let rest = self.grants.remove(k);
            assert(self.held.contains(m));
            assert forall|i: int| 0 <= i < rest.len() implies self.held.contains(#[trigger] rest[i])
                && rest[i] != m && self.grants.contains(rest[i]) by {
                let i0 = if i < k { i } else { i + 1 };
                assert(rest[i] == self.grants[i0]);
            }
            assert forall|g: Mapping| #[trigger] self.grants.contains(g) implies g == m || rest.contains(g) by {
                let i = self.grants.index_of(g);
                if i != k {
                    assert(rest[if i < k { i } else { i - 1 }] == g);
                }
            }
            assert(rest.no_duplicates()) by {
                assert forall|i: int, j: int| 0 <= i < rest.len() && 0 <= j < rest.len() && i != j implies rest[i]
                    != rest[j] by {
                    let i0 = if i < k { i } else { i + 1 };
                    let j0 = if j < k { j } else { j + 1 };
                    assert(rest[i] == self.grants[i0] && rest[j] == self.grants[j0]);
                }
            }
        }
    }

    /// Two held mappings are the same or apart.
    pub proof fn lemma_held_apart(self, a: Mapping, b: Mapping)
        requires
            self.ok(),
            self.held.contains(a),
            self.held.contains(b),
            a != b,
        ensures
            a.apart(b),
            a.ok(),
            b.ok(),
    {
        reveal(OsView::ok);
        let i = self.held.index_of(a);
        let j = self.held.index_of(b);
        assert(self.held[i] == a && self.held[j] == b);
    }

    /// Giving back a mapping that is not in service keeps the others in order.
    pub proof fn lemma_unmapped(self, m: Mapping)
        requires
            self.ok(),
            self.held.contains(m),
            !self.grants.contains(m),
        ensures
            self.unmapped(m).ok(),
            forall|h: Mapping| #[trigger]
                self.unmapped(m).held.contains(h) <==> self.held.contains(h) && h != m,
    {
        reveal(OsView::ok);
        let k = self.held.index_of(m);
        let rest = self.held.remove(k);
        assert forall|i: int| 0 <= i < rest.len() implies (#[trigger] rest[i]).ok() by {
            let i0 = if i < k { i } else { i + 1 };
            assert(rest[i] == self.held[i0]);
        }
        assert forall|i: int, j: int|
            #![trigger rest[i], rest[j]]
            0 <= i < j < rest.len() implies rest[i].apart(rest[j]) by {
            let i0 = if i < k { i } else { i + 1 };
            let j0 = if j < k { j } else { j + 1 };
            assert(rest[i] == self.held[i0] && rest[j] == self.held[j0]);
        }
        assert forall|h: Mapping| #[trigger] rest.contains(h) <==> self.held.contains(h) && h != m by {
            if rest.contains(h) {
                let i = rest.index_of(h);
                let i0 = if i < k { i } else { i + 1 };
                assert(rest[i] == self.held[i0]);
                if h == m {
                    assert(self.held[i0].ok() && self.held[k].ok());
                    if i0 < k {
                        assert(self.held[i0].apart(self.held[k]));
                    } else {
                        assert(self.held[k].apart(self.held[i0]));
                    }
                }
            }
            if self.held.contains(h) && h != m {
                let i = self.held.index_of(h);
                let i0 = if i < k { i } else { i - 1 };
                assert(rest[i0] == h);
            }
        }
        assert forall|i: int| 0 <= i < self.grants.len() implies rest.contains(#[trigger] self.grants[i]) by {
            assert(self.held.contains(self.grants[i]));
            assert(self.grants.contains(self.grants[i]));
        }
    }

    /// Taking over an acceptable mapping keeps the others in order.
    pub proof fn lemma_granted(self, m: Mapping)
        requires
            self.ok(),
            self.accepts(m),
        ensures
            self.granted(m).ok(),
            !self.held.contains(m),
            forall|h: Mapping| #[trigger]
                self.granted(m).held.contains(h) <==> self.held.contains(h) || h == m,
            forall|h: Mapping| #[trigger]
                self.granted(m).grants.contains(h) <==> self.grants.contains(h) || h == m,
    {
        reveal(OsView::ok);
        let held = self.held.push(m);
        let grants = self.grants.push(m);
        if self.held.contains(m) {
            let i = self.held.index_of(m);
            assert(m.apart(self.held[i]));
        }
        assert forall|h: Mapping| #[trigger] held.contains(h) <==> self.held.contains(h) || h == m by {
            if self.held.contains(h) {
                assert(held[self.held.index_of(h)] == h);
            }
            assert(held[held.len() - 1] == m);
        }
        assert forall|h: Mapping| #[trigger] grants.contains(h) <==> self.grants.contains(h) || h == m by {
            if self.grants.contains(h) {
                assert(grants[self.grants.index_of(h)] == h);
            }
            assert(grants[grants.len() - 1] == m);
        }
        assert(grants.no_duplicates()) by {
            assert forall|i: int, j: int| 0 <= i < grants.len() && 0 <= j < grants.len() && i != j implies grants[i]
                != grants[j] by {
                if i < self.grants.len() {
                    assert(self.held.contains(self.grants[i]));
                }
                if j < self.grants.len() {
                    assert(self.held.contains(self.grants[j]));
                }
            }
        }
        assert forall|i: int| 0 <= i < grants.len() implies held.contains(#[trigger] grants[i]) by {
            if i < self.grants.len() {
                assert(self.held.contains(self.grants[i]));
            }
        }
    }
}

/// Nothing was handed over between `o` and `o1`, and everything that is no longer held is
/// listed for return, each mapping once, behind what was listed before.
#[verifier::opaque]
pub open spec fn lists_gone(o: OsView, o1: OsView) -> bool {
    let n = o.released.len() as int;
    let gone = o1.released.skip(n);
    &&& n <= o1.released.len()
    &&& o1.released.take(n) == o.released
    &&& gone.no_duplicates()
    &&& forall|m: Mapping| #[trigger] gone.contains(m) <==> o.held.contains(m) && !o1.held.contains(m)
    &&& forall|m: Mapping| #[trigger] o1.held.contains(m) ==> o.held.contains(m)
    &&& o1.grants == o.grants
    &&& o1.wanted == o.wanted
}

/// Where nothing changes nothing is listed.
pub proof fn lemma_lists_none(o: OsView)
    ensures
        lists_gone(o, o),
{
    reveal(lists_gone);
    let n = o.released.len() as int;
    assert(o.released.take(n) =~= o.released);
    assert(o.released.skip(n) =~= Seq::empty());
}

/// A mapping that is given back is listed.
pub proof fn lemma_lists_one(o: OsView, m: Mapping)
    requires
        o.ok(),
        o.held.contains(m),
        !o.grants.contains(m),
    ensures
        lists_gone(o, o.unmapped(m)),
{
    reveal(lists_gone);
    law_unmap(o, m);
    let o1 = o.unmapped(m);
    let n = o.released.len() as int;
    assert(o1.released.take(n) =~= o.released);
    let gone = o1.released.skip(n);
    assert(gone =~= seq![m]);
    assert(gone[0] == m);
    assert forall|h: Mapping| #[trigger] gone.contains(h) <==> o.held.contains(h) && !o1.held.contains(h) by {
        assert(o1.held.contains(h) <==> o.held.contains(h) && h != m);
    }
}

/// What is listed in two steps is listed in both.
pub proof fn lemma_lists_both(o: OsView, u: OsView, w: OsView)
    requires
        lists_gone(o, u),
        lists_gone(u, w),
    ensures
        lists_gone(o, w),
{
    reveal(lists_gone);
    let n = o.released.len() as int;
    let k = u.released.len() as int;
    let first = u.released.skip(n);
    let second = w.released.skip(k);
    let gone = w.released.skip(n);
    assert(w.released.take(n) =~= o.released) by {
        assert forall|i: int| 0 <= i < n implies w.released[i] == o.released[i] by {
            assert(w.released.take(k)[i] == u.released[i]);
            assert(u.released.take(n)[i] == o.released[i]);
        }
    }
    assert(gone =~= first + second) by {
        assert forall|i: int| 0 <= i < k - n implies gone[i] == first[i] by {
            assert(w.released.take(k)[n + i] == u.released[n + i]);
        }
    }
    assert forall|m: Mapping| #[trigger] gone.contains(m) <==> first.contains(m) || second.contains(m) by {
        if first.contains(m) {
            assert(gone[first.index_of(m)] == m);
        }
        if second.contains(m) {
            assert(gone[first.len() + second.index_of(m)] == m);
        }
    }
    assert forall|m: Mapping| #[trigger] gone.contains(m) <==> o.held.contains(m) && !w.held.contains(m) by {
        assert(first.contains(m) <==> o.held.contains(m) && !u.held.contains(m));
        assert(second.contains(m) <==> u.held.contains(m) && !w.held.contains(m));
        assert(w.held.contains(m) ==> u.held.contains(m));
        assert(u.held.contains(m) ==> o.held.contains(m));
    }
    assert(gone.no_duplicates()) by {
        assert forall|i: int, j: int| 0 <= i < gone.len() && 0 <= j < gone.len() && i != j implies gone[i]
            != gone[j] by {
            let l = first.len() as int;
            if i < l {
                assert(first.contains(first[i]));
            } else {
                assert(second.contains(second[i - l]));
            }
            if j < l {
                assert(first.contains(first[j]));
            } else {
                assert(second.contains(second[j - l]));
            }
        }
    }
}

/// A mapping is taken over if and only if it is whole pages, not at null, ends at a 64-bit
/// address and has no byte in common with what is held. It is on offer at once, and nothing
/// else changes.
pub proof fn law_grant(o: OsView, m: Mapping)
    requires
        o.ok(),
    ensures
        o.accepts(m) <==> {
            &&& m.base > 0
            &&& m.len > 0
            &&& m.base as int % 65536 == 0
            &&& m.len as int % 65536 == 0
            &&& m.base + m.len <= u64::MAX
            &&& forall|h: Mapping| #[trigger]
                o.held.contains(h) ==> m.base + m.len <= h.base || h.base + h.len <= m.base
        },
        o.accepts(m) ==> {
            let o1 = o.granted(m);
            &&& o1.ok()
            &&& o1.released == o.released
            &&& o1.wanted == o.wanted
            &&& forall|h: Mapping| #[trigger] o1.held.contains(h) <==> o.held.contains(h) || h == m
            &&& forall|h: Mapping| #[trigger] o1.grants.contains(h) <==> o.grants.contains(h) || h == m
        },
{
    if o.accepts(m) {
        o.lemma_granted(m);
        assert forall|h: Mapping| #[trigger] o.held.contains(h) implies m.base + m.len <= h.base || h.base
            + h.len <= m.base by {
            assert(m.apart(o.held[o.held.index_of(h)]));
        }
    } else if forall|h: Mapping| #[trigger]
        o.held.contains(h) ==> m.base + m.len <= h.base || h.base + h.len <= m.base {
        assert forall|i: int| 0 <= i < o.held.len() implies m.apart(#[trigger] o.held[i]) by {
            assert(o.held.contains(o.held[i]));
        }
    }
}

/// One mapping of `len` bytes was taken off the offer, and nothing else changed.
pub open spec fn took(o: OsView, o1: OsView, len: int) -> bool {
    &&& o1.held == o.held
    &&& o1.released == o.released
    &&& o1.wanted == o.wanted
    &&& exists|i: int|
        0 <= i < o.grants.len() && (#[trigger] o.grants[i]).len == len && o1.grants == o.grants.remove(i)
}

/// `len` bytes were asked for in vain: no mapping on offer has that length, and nothing but
/// the note of the length changed.
pub open spec fn missed(o: OsView, o1: OsView, len: int) -> bool {
    &&& o1 == (OsView { wanted: Some(len), ..o })
    &&& forall|i: int| 0 <= i < o.grants.len() ==> (#[trigger] o.grants[i]).len != len
}

/// A request is served if and only if a mapping of exactly that length is on offer, which is
/// on offer no longer, and else its length is noted.
pub proof fn law_map(o: OsView, len: int)
    requires
        o.ok(),
    ensures
        o.map_base(len) matches Some(base) ==> {
            &&& took(o, o.mapped(len), len)
            &&& exists|i: int|
                0 <= i < o.grants.len() && (#[trigger] o.grants[i]).len == len && o.grants[i].base == base
                    && o.mapped(len).grants == o.grants.remove(i)
        },
        o.map_base(len) is None ==> missed(o, o.mapped(len), len),
        o.can_map(len) <==> exists|i: int| 0 <= i < o.grants.len() && (#[trigger] o.grants[i]).len == len,
{
    lemma_first_of_len(o.grants, len);
    let k = first_of_len(o.grants, len);
    if k < o.grants.len() {
        assert(o.grants[k].len == len);
    }
}

/// A mapping that is given back is held no longer and is listed for return behind what is
/// listed already. Nothing else changes.
pub proof fn law_unmap(o: OsView, m: Mapping)
    requires
        o.ok(),
        o.held.contains(m),
        !o.grants.contains(m),
    ensures
        ({
            let o1 = o.unmapped(m);
            &&& o1.ok()
            &&& o1.released == o.released.push(m)
            &&& o1.grants == o.grants
            &&& o1.wanted == o.wanted
            &&& forall|h: Mapping| #[trigger] o1.held.contains(h) <==> o.held.contains(h) && h != m
        }),
{
    o.lemma_unmapped(m);
}

/// What is on offer afterwards was on offer before.
pub open spec fn offers_less(o: OsView, o1: OsView) -> bool {
    forall|m: Mapping| #[trigger] o1.grants.contains(m) ==> o.grants.contains(m)
}

/// The mappings that the allocator has from the system.
pub struct Os {
    grants: Vec<Mapping>,
    held: Vec<Mapping>,
    released: Vec<Mapping>,
    wanted: Option<u64>,
}

impl View for Os {
    type V = OsView;

    closed spec fn view(&self) -> OsView {
        OsView {
            grants: self.grants@,
            held: self.held@,
            released: self.released@,
            wanted: match self.wanted {
                Some(n) => Some(n as int),
                None => None,
            },
        }
    }
}

impl Os {
    /// Nothing held, nothing to be returned.
    pub fn new() -> (os: Self)
        ensures
            os@ == (OsView {
                grants: Seq::empty(),
                held: Seq::empty(),
                released: Seq::empty(),
                wanted: None,
            }),
            os@.ok(),
    {
        proof {
            reveal(OsView::ok);
        }
        Os { grants: Vec::new(), held: Vec::new(), released: Vec::new(), wanted: None }
    }

    /// Takes over `[base, base + len)`, which the caller has mapped. Declined, with
    /// nothing changed, where it is not page-aligned, empty or null, where its end is not a
    /// 64-bit address, or where it overlaps memory that is already held.
    pub fn grant(&mut self, base: u64, len: u64) -> (r: bool)
        requires
            old(self)@.ok(),
        ensures
            final(self)@.ok(),
            r == old(self)@.accepts(Mapping { base, len }),
            r ==> final(self)@ == old(self)@.granted(Mapping { base, len }),
            !r ==> final(self)@ == old(self)@,
    {
        proof {
            reveal(OsView::ok);
        }
        let m = Mapping { base, len };
        if base == 0 || len == 0 || base % PAGE_SIZE != 0 || len % PAGE_SIZE != 0 || len
            > ADDRESS_LIMIT - base {
            return false;
        }
        let mut i: usize = 0;
        while i < self.held.len()
            invariant
                *self == *old(self),
                i <= self.held.len(),
                self@.ok(),
                m.base + m.len <= u64::MAX,
                m == (Mapping { base, len }),
                forall|j: int| 0 <= j < i ==> m.apart(#[trigger] self.held@[j]),
            decreases self.held.len() - i,
        {
            let h = self.held[i];
            proof {
                reveal(OsView::ok);
            }
            assert(self@.held[i as int].ok());
            if !(m.base + m.len <= h.base || h.base + h.len <= m.base) {
                assert(!m.apart(self@.held[i as int]));
                return false;
            }
            i = i + 1;
        }
        proof {
            assert forall|j: int| 0 <= j < self@.held.len() implies m.apart(#[trigger] self@.held[j]) by {
                assert(m.apart(self.held@[j]));
            }
            self@.lemma_granted(m);
        }
        self.grants.push(m);
        self.held.push(m);
        true
    }

    /// Serves a request for `size` bytes from the first mapping of exactly that size.
    /// Where there is none the size is noted as wanted.
    pub fn map(&mut self, size: u64) -> (r: Option<u64>)
        requires
            old(self)@.ok(),
        ensures
            final(self)@.ok(),
            final(self)@ == old(self)@.mapped(size as int),
            (match r {
                Some(a) => Some(a as int),
                None => None,
            }) == old(self)@.map_base(size as int),
    {
        proof {
            reveal(OsView::ok);
        }
        let ghost v = self@;
        let mut i: usize = 0;
        while i < self.grants.len()
            invariant
                *self == *old(self),
                v == self@,
                v.ok(),
                i <= self.grants.len(),
                forall|j: int| 0 <= j < i ==> (#[trigger] self.grants@[j]).len != size,
            decreases self.grants.len() - i,
        {
            if self.grants[i].len == size {
                proof {
                    assert forall|j: int| 0 <= j < i implies v.grants[j].len != size by {
                        assert(self.grants@[j].len != size);
                    }
                    lemma_is_first_of_len(v.grants, size as int, i as int);
                    v.lemma_mapped(size as int);
                }
                let m = self.grants.remove(i);
                return Some(m.base);
            }
            i = i + 1;
        }
        proof {
            assert forall|j: int| 0 <= j < i implies v.grants[j].len != size by {
                assert(self.grants@[j].len != size);
            }
            lemma_is_first_of_len(v.grants, size as int, i as int);
            v.lemma_mapped(size as int);
        }
        self.wanted = Some(size);
        None
    }

    /// Gives the mapping `[ptr, ptr + size)` back.
    pub fn unmap(&mut self, ptr: u64, size: u64)
        requires
            old(self)@.ok(),
            old(self)@.held.contains(Mapping { base: ptr, len: size }),
            !old(self)@.grants.contains(Mapping { base: ptr, len: size }),
        ensures
            final(self)@.ok(),
            final(self)@ == old(self)@.unmapped(Mapping { base: ptr, len: size }),
    {
        proof {
            reveal(OsView::ok);
        }
        let ghost v = self@;
        let m = Mapping { base: ptr, len: size };
        let mut i: usize = 0;
        proof {
            v.lemma_unmapped(m);
        }
        while self.held[i] != m
            invariant
                *self == *old(self),
                v == self@,
                v.held.contains(m),
                i < self.held.len(),
                i <= v.held.index_of(m),
                v.held.index_of(m) < v.held.len(),
                v.held[v.held.index_of(m)] == m,
                forall|j: int| 0 <= j < i ==> #[trigger] self.held@[j] != m,
            decreases self.held.len() - i,
        {
            i = i + 1;
        }
        proof {
            let k = v.held.index_of(m);
            if i < k {
                assert(v.ok());
                assert(v.held[i as int].ok() && v.held[k].ok());
                assert(v.held[i as int].apart(v.held[k]));
            }
        }
        self.held.remove(i);
        self.released.push(m);
    }

    /// What was given back since the last call, in that order. The caller returns it to
    /// the system.
    pub fn take_released(&mut self) -> (r: Vec<Mapping>)
        requires
            old(self)@.ok(),
        ensures
            final(self)@.ok(),
            r@ == old(self)@.released,
            final(self)@ == (OsView { released: Seq::empty(), ..old(self)@ }),
    {
        proof {
            reveal(OsView::ok);
        }
        let mut r: Vec<Mapping> = Vec::new();
        std::mem::swap(&mut r, &mut self.released);
        r
    }

    /// The size of the last request that could not be served, if there was one since the
    /// last call.
    pub fn take_wanted(&mut self) -> (r: Option<u64>)
        requires
            old(self)@.ok(),
        ensures
            final(self)@.ok(),
            (match r {
                Some(n) => Some(n as int),
                None => None,
            }) == old(self)@.wanted,
            final(self)@ == (OsView { wanted: None, ..old(self)@ }),
    {
        proof {
            reveal(OsView::ok);
        }
        let r = self.wanted;
        self.wanted = None;
        r
    }
}

/// How a mapping that is longer than needed is cut to a page-aligned window: `head_len`
/// bytes before it and `tail_len` bytes behind it are not used.
#[derive(Clone, Copy, PartialEq, Eq, Structural, Debug)]
pub struct Window {
    pub base: u64,
    pub head_len: u64,
    pub tail_len: u64,
}

/// The length to ask the system for in order to find a page-aligned window of `size`
/// bytes in whatever comes back; `None` where that exceeds the address range.
pub fn request_len(size: u64) -> (r: Option<u64>)
    ensures
        size + PAGE_SIZE <= u64::MAX ==> r == Some((size + PAGE_SIZE) as u64),
        size + PAGE_SIZE > u64::MAX ==> r is None,
{
    size.checked_add(PAGE_SIZE)
}

/// The page-aligned window of `size` bytes in the `size + PAGE_SIZE` bytes at `raw`.
pub fn window(raw: u64, size: u64) -> (w: Window)
    requires
        raw + size + PAGE_SIZE <= u64::MAX,
    ensures
        w.base == align::rounded_up(raw as int, PAGE_SIZE as int),
        w.base % PAGE_SIZE == 0,
        w.head_len == w.base - raw,
        w.head_len < PAGE_SIZE,
        w.head_len + size + w.tail_len == size + PAGE_SIZE,
        w.tail_len > 0,
{
    proof {
        lemma_page_size();
    }
    let request = size + PAGE_SIZE;
    let aligned = align::round_up(raw, PAGE_SIZE);
    let head_len = aligned - raw;
    let tail_len = request - head_len - size;
    Window { base: aligned, head_len, tail_len }
}

/// The page size is a power of two.
pub proof fn lemma_page_size()
    ensures
        power2::is_pow2(PAGE_SIZE as int),
{
    reveal_with_fuel(power2::is_pow2, 18);
}

} // verus!
