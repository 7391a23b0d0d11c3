//! What the allocator promises.

use crate::align;
use crate::block::{DEFAULT_ALIGNMENT, HEADER_SIZE};
use crate::bucket_model;
use crate::bucket_model::BucketsView;
use crate::orisnik_account;
use crate::orisnik_model;
use crate::orisnik_model::OrisnikView;
use crate::orisnik_retry;
use crate::os;
use crate::os::{Mapping, PAGE_SIZE};
use crate::page;
use crate::page::{MAX_SMALL_ALLOCATION, NUM_BUCKETS};
use crate::tree_laws;
use crate::tree_model;
use crate::tree_model::{TreeView, MAX_ALLOCATION, SPLIT_REMAINDER_MIN};
use crate::tree_purge;
use vstd::arithmetic::{div_mod, mul, power2};
use vstd::prelude::*;

verus! {

/// The payload at `q` is served by the same path, and by the same bucket, as before.
pub open spec fn same_path(v: OrisnikView, w: OrisnikView, q: int) -> bool {
    &&& v.buckets.live(q) ==> w.buckets.live(q) && w.buckets.bucket(q) == v.buckets.bucket(q)
    &&& v.tree.live(q) ==> w.tree.live(q)
}

/// What a request promises: every payload in use stays where it is and keeps its size, to
/// which an aligned request may add up to `slack` bytes. Where there is an answer, it is a
/// payload of at least `size` bytes that was not in use before, and no other payload comes
/// into use. Where there is none, neither path changes. Nothing is given back to the system, so
/// that no less is mapped than before.
pub open spec fn served_well(
    v: OrisnikView,
    w: OrisnikView,
    r: Option<int>,
    size: int,
    slack: int,
) -> bool {
    &&& w.ok()
    &&& w.os.held == v.os.held
    &&& w.os.released == v.os.released
    &&& v.allocated() <= w.allocated()
    &&& forall|q: int| v.live(q) ==> #[trigger] w.live(q) && same_path(v, w, q)
    &&& forall|q: int|
        #![trigger w.usable(q)]
        v.live(q) ==> v.usable(q) <= w.usable(q) <= v.usable(q) + slack
    &&& r is None ==> w.buckets == v.buckets && w.tree == v.tree
    &&& r matches Some(x) ==> {
        &&& w.live(x)
        &&& !v.live(x)
        &&& w.usable(x) >= size
        &&& x % 8 == 0
        &&& forall|q: int| #![trigger w.live(q)] w.live(q) <==> v.live(q) || q == x
    }
}

/// A payload of a path is in use with the size that the path gives it.
pub proof fn lemma_usable(v: OrisnikView, q: int)
    requires
        v.ok(),
        v.live(q),
    ensures
        v.buckets.live(q) ==> v.usable(q) == v.buckets.usable(q) && !v.tree.live(q),
        v.tree.live(q) ==> v.usable(q) == v.tree.usable(q) && !v.buckets.live(q) && !v.buckets.owns(q),
{
    if v.tree.live(q) {
        orisnik_model::law_dispatch(v, q);
    }
}

/// A bucket answers with a slot of its size.
pub proof fn lemma_from_bucket(v: OrisnikView, bi: int)
    requires
        v.ok(),
        0 <= bi < NUM_BUCKETS,
    ensures
        ({
            let (w, r) = v.from_bucket(bi);
            &&& served_well(v, w, r, page::elem_of(bi), 0)
            &&& r is None <==> bucket_model::free_page(v.buckets.pages, v.buckets.lists[bi]) is None
                && !v.os.can_map(PAGE_SIZE as int)
            &&& r matches Some(x) ==> {
                &&& w.buckets.live(x)
                &&& w.buckets.bucket(x) == bi
                &&& w.usable(x) == page::elem_of(bi)
            }
        }),
{
    let (w, r) = v.from_bucket(bi);
    assert(w.ok() && v.buckets.ok() && bucket_model::agree(v.buckets, v.os)) by {
        reveal(OrisnikView::ok);
        bucket_model::law_served(v.buckets, v.os, bi);
        orisnik_model::lemma_bucket_fed(v, bi);
    }
    assert(v.allocated() <= w.allocated()) by {
        assert(os::offers_less(v.os, w.os)) by {
            reveal(OrisnikView::ok);
            orisnik_model::lemma_bucket_fed(v, bi);
        }
        orisnik_account::lemma_grown(v, w);
    }
    bucket_model::law_served(v.buckets, v.os, bi);
    assert forall|q: int| v.live(q) implies #[trigger] w.live(q) && same_path(v, w, q) by {
        if v.buckets.live(q) {
            assert(w.buckets.live(q));
            assert(w.buckets.usable(q) == v.buckets.usable(q));
        }
    }
    assert forall|q: int| #![trigger w.usable(q)] v.live(q) implies w.usable(q) == v.usable(q) by {
        assert(w.live(q));
        lemma_usable(v, q);
        if v.buckets.live(q) {
            assert(w.buckets.live(q));
            assert(w.buckets.usable(q) == v.buckets.usable(q));
        }
        lemma_usable(w, q);
    }
    if let Some(x) = r {
        lemma_usable(w, x);
        bucket_model::lemma_live(w.buckets, x);
        assert forall|q: int| #![trigger w.live(q)] w.live(q) <==> v.live(q) || q == x by {
            assert(w.buckets.live(q) <==> v.buckets.live(q) || q == x);
        }
    }
}

/// The tree answers with a block that is large enough.
pub proof fn lemma_from_tree(v: OrisnikView, size: int)
    requires
        v.ok(),
        0 <= size,
    ensures
        ({
            let (w, r) = v.from_tree(size);
            &&& served_well(v, w, r, size, 0)
            &&& r is None <==> size > MAX_ALLOCATION || {
                let n = tree_model::normalized(size)->0;
                v.tree.fit(n) is None && !v.os.can_map(tree_model::arena_len(n))
            }
            &&& r matches Some(x) ==> w.tree.live(x) && x % 16 == 0 && tree_model::snug(
                w.usable(x),
                size,
            )
        }),
{
    let (w, r) = v.from_tree(size);
    assert(w.ok() && v.tree.ok() && tree_model::agree(v.tree, v.os)) by {
        reveal(OrisnikView::ok);
        tree_laws::law_served(v.tree, v.os, size);
        orisnik_model::lemma_served_fed(v.tree, v.os, size);
        orisnik_model::lemma_tree_fed(v, w);
    }
    assert(v.allocated() <= w.allocated()) by {
        assert(os::offers_less(v.os, w.os)) by {
            reveal(OrisnikView::ok);
            orisnik_model::lemma_served_fed(v.tree, v.os, size);
            orisnik_model::lemma_tree_fed(v, w);
        }
        orisnik_account::lemma_grown(v, w);
    }
    tree_laws::law_served(v.tree, v.os, size);
    lemma_tree_served(v, w, r, size, 0);
    if let Some(x) = r {
        lemma_usable(w, x);
    }
}

/// The tree answers with a block that is large enough and aligned.
pub proof fn lemma_from_tree_aligned(v: OrisnikView, size: int, al: int)
    requires
        v.ok(),
        0 <= size,
        power2::is_pow2(al),
    ensures
        ({
            let (w, r) = v.from_tree_aligned(size, al);
            &&& served_well(v, w, r, size, SPLIT_REMAINDER_MIN as int)
            &&& r is None <==> size > MAX_ALLOCATION || {
                let n = tree_model::normalized(size)->0;
                n + al > MAX_ALLOCATION || (v.tree.fit_aligned(n, al) is None && !v.os.can_map(
                    tree_model::arena_len(n + al),
                ))
            }
            &&& r matches Some(x) ==> w.tree.live(x) && x % al == 0 && tree_model::snug(
                w.usable(x),
                size,
            )
        }),
{
    let (w, r) = v.from_tree_aligned(size, al);
    assert(w.ok() && v.tree.ok() && tree_model::agree(v.tree, v.os)) by {
        reveal(OrisnikView::ok);
        tree_laws::law_served_aligned(v.tree, v.os, size, al);
        orisnik_model::lemma_served_aligned_fed(v.tree, v.os, size, al);
        orisnik_model::lemma_tree_fed(v, w);
    }
    assert(v.allocated() <= w.allocated()) by {
        assert(os::offers_less(v.os, w.os)) by {
            reveal(OrisnikView::ok);
            orisnik_model::lemma_served_aligned_fed(v.tree, v.os, size, al);
            orisnik_model::lemma_tree_fed(v, w);
        }
        orisnik_account::lemma_grown(v, w);
    }
    tree_laws::law_served_aligned(v.tree, v.os, size, al);
    lemma_tree_served(v, w, r, size, SPLIT_REMAINDER_MIN as int);
    if let Some(x) = r {
        lemma_usable(w, x);
    }
}

/// A payload that the tree keeps, and any of the buckets, is kept.
proof fn lemma_tree_kept(v: OrisnikView, w: OrisnikView, q: int, slack: int)
    requires
        v.ok(),
        w.ok(),
        w.buckets == v.buckets,
        v.live(q),
        v.tree.live(q) ==> w.tree.live(q) && v.tree.usable(q) <= w.tree.usable(q) <= v.tree.usable(
            q,
        ) + slack,
        slack >= 0,
    ensures
        w.live(q),
        same_path(v, w, q),
        v.usable(q) <= w.usable(q) <= v.usable(q) + slack,
{
    lemma_usable(v, q);
    assert(w.live(q));
    lemma_usable(w, q);
}

/// A payload is in use if it was or if the tree has just served it.
proof fn lemma_tree_joined(v: OrisnikView, w: OrisnikView, x: int, q: int)
    requires
        w.buckets == v.buckets,
        w.tree.live(x),
        w.tree.live(q) ==> v.tree.live(q) || q == x,
        v.tree.live(q) ==> w.tree.live(q),
    ensures
        w.live(q) <==> v.live(q) || q == x,
{
}

/// What the tree promises, the allocator does.
#[verifier::spinoff_prover]
#[verifier::rlimit(40)]
proof fn lemma_tree_served(v: OrisnikView, w: OrisnikView, r: Option<int>, size: int, slack: int)
    requires
        v.ok(),
        w.ok(),
        w.buckets == v.buckets,
        w.os.held == v.os.held,
        w.os.released == v.os.released,
        v.allocated() <= w.allocated(),
        forall|q: int| v.tree.live(q) ==> #[trigger] w.tree.live(q),
        forall|q: int|
            #![trigger w.tree.live(q)]
            v.tree.live(q) ==> v.tree.usable(q) <= w.tree.usable(q) <= v.tree.usable(q) + slack,
        r is None ==> w.tree == v.tree,
        r matches Some(x) ==> {
            &&& w.tree.live(x)
            &&& !v.tree.live(x)
            &&& x % 16 == 0
            &&& w.tree.usable(x) >= size
            &&& forall|q: int| #![trigger w.tree.live(q)] w.tree.live(q) ==> v.tree.live(q) || q == x
        },
        slack >= 0,
    ensures
        served_well(v, w, r, size, slack),
{
    assert forall|q: int| v.live(q) implies #[trigger] w.live(q) && same_path(v, w, q) by {
        assert(v.tree.live(q) ==> w.tree.live(q));
        lemma_tree_kept(v, w, q, slack);
    }
    assert forall|q: int| #![trigger w.usable(q)] v.live(q) implies v.usable(q) <= w.usable(q) <= v.usable(q)
        + slack by {
        assert(v.tree.live(q) ==> w.tree.live(q));
        lemma_tree_kept(v, w, q, slack);
    }
    if let Some(x) = r {
        lemma_usable(w, x);
        lemma_sixteen(x);
        assert(!v.live(x)) by {
            if v.buckets.live(x) {
                assert(w.buckets.live(x));
            }
        }
        assert forall|q: int| #![trigger w.live(q)] w.live(q) <==> v.live(q) || q == x by {
            assert(w.tree.live(q) ==> v.tree.live(q) || q == x);
            assert(v.tree.live(q) ==> w.tree.live(q));
            lemma_tree_joined(v, w, x, q);
        }
    }
}

/// A request for more than nothing and less than the limit is answered with a payload that
/// is large enough, unless memory is lacking: a small one with a slot of the smallest class
/// that holds it, another with a block that is little larger.
pub proof fn law_alloc(v: OrisnikView, size: int)
    requires
        v.ok(),
        0 <= size,
    ensures
        ({
            let (w, r) = v.alloc_bytes(size);
            &&& served_well(v, w, r, size, 0)
            &&& size == 0 || size > MAX_ALLOCATION ==> r is None && w == v
            &&& 0 < size <= MAX_SMALL_ALLOCATION ==> (r is None
                <==> bucket_model::free_page(
                v.buckets.pages,
                v.buckets.lists[orisnik_model::plain_class(size)],
            ) is None && !v.os.can_map(PAGE_SIZE as int))
            &&& MAX_SMALL_ALLOCATION < size <= MAX_ALLOCATION ==> (r is None <==> {
                let n = tree_model::normalized(size)->0;
                v.tree.fit(n) is None && !v.os.can_map(tree_model::arena_len(n))
            })
            &&& r matches Some(x) ==> {
                &&& w.fits_request(x, size)
                &&& size <= MAX_SMALL_ALLOCATION ==> w.usable(x) == page::elem_of(
                    orisnik_model::plain_class(size),
                )
                &&& size > MAX_SMALL_ALLOCATION ==> tree_model::snug(w.usable(x), size)
            }
        }),
{
    if size > MAX_SMALL_ALLOCATION {
        lemma_from_tree(v, size);
    } else if size > 0 {
        page::law_spacing(0, page::clamped(size));
        align::lemma_rounded_up(page::clamped(size), 8);
        lemma_from_bucket(v, orisnik_model::plain_class(size));
    }
}

/// A multiple of eight is a multiple of every alignment up to the default.
proof fn lemma_default_aligned(x: int, al: int)
    requires
        x % 8 == 0,
        power2::is_pow2(al),
        0 < al <= DEFAULT_ALIGNMENT,
    ensures
        x % al == 0,
{
    reveal_with_fuel(power2::is_pow2, 5);
    assert(al == 1 || al == 2 || al == 4 || al == 8);
    div_mod::lemma_fundamental_div_mod(x, 8);
    let q = x / 8;
    div_mod::lemma_fundamental_div_mod_converse(x, 1, 8 * q, 0);
    div_mod::lemma_fundamental_div_mod_converse(x, 2, 4 * q, 0);
    div_mod::lemma_fundamental_div_mod_converse(x, 4, 2 * q, 0);
}

/// What is promised with less slack is promised with more.
proof fn lemma_slack(v: OrisnikView, w: OrisnikView, r: Option<int>, size: int, slack: int)
    requires
        served_well(v, w, r, size, 0),
        slack >= 0,
    ensures
        served_well(v, w, r, size, slack),
{
}

/// Whether an aligned request finds no memory.
pub open spec fn starved(v: OrisnikView, size: int, al: int) -> bool {
    if size > MAX_SMALL_ALLOCATION || al > MAX_SMALL_ALLOCATION {
        let n = tree_model::normalized(size)->0;
        n + al > MAX_ALLOCATION || (v.tree.fit_aligned(n, al) is None && !v.os.can_map(
            tree_model::arena_len(n + al),
        ))
    } else {
        bucket_model::free_page(
            v.buckets.pages,
            v.buckets.lists[orisnik_model::aligned_class(size, al)],
        ) is None && !v.os.can_map(PAGE_SIZE as int)
    }
}

/// A small aligned request is answered with an aligned slot.
proof fn lemma_alloc_slot(v: OrisnikView, size: int, al: int)
    requires
        v.ok(),
        0 < size <= MAX_SMALL_ALLOCATION,
        power2::is_pow2(al),
        DEFAULT_ALIGNMENT < al <= MAX_SMALL_ALLOCATION,
    ensures
        ({
            let bi = orisnik_model::aligned_class(size, al);
            let (w, r) = v.from_bucket(bi);
            &&& 0 <= bi < NUM_BUCKETS
            &&& served_well(v, w, r, size, 0)
            &&& r is None <==> starved(v, size, al)
            &&& r matches Some(x) ==> {
                &&& x % al == 0
                &&& w.buckets.live(x)
                &&& w.buckets.bucket(x) == bi
                &&& w.usable(x) == page::elem_of(bi)
            }
        }),
{
    let s = page::clamped(size);
    let n = align::rounded_up(s, al);
    let bi = orisnik_model::aligned_class(size, al);
    orisnik_model::lemma_rounded_small(s, al);
    page::law_spacing(0, n);
    align::lemma_rounded_up(n, 8);
    lemma_from_bucket(v, bi);
    let (w, r) = v.from_bucket(bi);
    if let Some(x) = r {
        lemma_slot_aligned(w, x, al);
    }
}

/// An aligned request for more than nothing and less than the limit is answered with a payload
/// that is large enough and at a multiple of the alignment, unless memory is lacking. It is a
/// slot of the smallest class that does, or a block that is little larger.
pub proof fn law_alloc_aligned(v: OrisnikView, size: int, al: int)
    requires
        v.ok(),
        0 <= size,
        orisnik_model::valid_alignment(al),
    ensures
        ({
            let (w, r) = v.alloc_aligned(size, al);
            &&& served_well(v, w, r, size, SPLIT_REMAINDER_MIN as int)
            &&& size == 0 || size > MAX_ALLOCATION ==> r is None && w == v
            &&& al <= DEFAULT_ALIGNMENT ==> (w, r) == v.alloc_bytes(size)
            &&& al > DEFAULT_ALIGNMENT && 0 < size <= MAX_ALLOCATION ==> (r is None <==> starved(
                v,
                size,
                al,
            ))
            &&& r matches Some(x) ==> {
                &&& al > 0 ==> x % al == 0
                &&& w.fits_aligned_request(x, size, al)
                &&& al > DEFAULT_ALIGNMENT ==> if size <= MAX_SMALL_ALLOCATION && al
                    <= MAX_SMALL_ALLOCATION {
                    w.usable(x) == page::elem_of(orisnik_model::aligned_class(size, al))
                } else {
                    tree_model::snug(w.usable(x), size)
                }
            }
        }),
{
    let (w, r) = v.alloc_aligned(size, al);
    if al <= DEFAULT_ALIGNMENT {
        law_alloc(v, size);
        lemma_slack(v, w, r, size, SPLIT_REMAINDER_MIN as int);
        if let Some(x) = r {
            if al > 0 {
                lemma_default_aligned(x, al);
            }
        }
    } else if size == 0 {
    } else if size > MAX_SMALL_ALLOCATION || al > MAX_SMALL_ALLOCATION {
        lemma_from_tree_aligned(v, size, al);
    } else {
        lemma_alloc_slot(v, size, al);
        lemma_slack(v, w, r, size, SPLIT_REMAINDER_MIN as int);
    }
}

/// The alignments that a slot can have beyond the default one.
proof fn lemma_slot_alignments(al: int)
    requires
        power2::is_pow2(al),
        DEFAULT_ALIGNMENT < al <= MAX_SMALL_ALLOCATION,
    ensures
        al == 16 || al == 32 || al == 64 || al == 128 || al == 256,
{
    reveal_with_fuel(power2::is_pow2, 10);
}

/// A page boundary and a multiple of a factor of the page size add up to such a multiple.
proof fn lemma_sum_of_multiples(b: int, t: int, c: int, al: int)
    requires
        al > 0,
        c * al == 65536,
    ensures
        (65536 * b + t * al) % al == 0,
{
    mul::lemma_mul_is_commutative(c * al, b);
    mul::lemma_mul_is_associative(b, c, al);
    mul::lemma_mul_is_distributive_add_other_way(al, b * c, t);
    div_mod::lemma_mod_multiples_basic(b * c + t, al);
}

/// A multiple of a multiple of a small power of two, on top of a multiple of the page size,
/// is a multiple of it.
proof fn lemma_multiple_aligned(base: int, k: int, elem: int, al: int)
    requires
        base % 65536 == 0,
        power2::is_pow2(al),
        DEFAULT_ALIGNMENT < al <= MAX_SMALL_ALLOCATION,
        elem % al == 0,
    ensures
        (base + k * elem) % al == 0,
{
    let j = elem / al;
    div_mod::lemma_fundamental_div_mod(elem, al);
    mul::lemma_mul_is_commutative(al, j);
    mul::lemma_mul_is_associative(k, j, al);
    div_mod::lemma_fundamental_div_mod(base, 65536);
    let b = base / 65536;
    lemma_slot_alignments(al);
    if al == 16 {
        lemma_sum_of_multiples(b, k * j, 4096, 16);
    } else if al == 32 {
        lemma_sum_of_multiples(b, k * j, 2048, 32);
    } else if al == 64 {
        lemma_sum_of_multiples(b, k * j, 1024, 64);
    } else if al == 128 {
        lemma_sum_of_multiples(b, k * j, 512, 128);
    } else {
        lemma_sum_of_multiples(b, k * j, 256, 256);
    }
}

/// The slots of an element size that is a multiple of a small power of two are multiples of
/// it.
proof fn lemma_slot_aligned(w: OrisnikView, x: int, al: int)
    requires
        w.ok(),
        w.buckets.live(x),
        power2::is_pow2(al),
        DEFAULT_ALIGNMENT < al <= MAX_SMALL_ALLOCATION,
        w.buckets.usable(x) % al == 0,
    ensures
        x % al == 0,
{
    reveal(OrisnikView::ok);
    let b = w.buckets;
    let p = page::page_of(x);
    let base = page::base_of(p);
    let elem = b.usable(x);
    bucket_model::lemma_page(b, p);
    page::lemma_slot_index(p, elem, x);
    lemma_multiple_aligned(base, (x - base) / elem, elem, al);
}

/// A payload of a bucket and a payload of the tree have no byte in common.
proof fn lemma_paths_apart(v: OrisnikView, x: int, y: int)
    requires
        v.ok(),
        v.buckets.live(x),
        v.tree.live(y),
    ensures
        x + v.buckets.usable(x) <= y || y + v.tree.usable(y) <= x,
{
    reveal(OrisnikView::ok);
    reveal(bucket_model::agree);
    reveal(tree_model::agree);
    let p = page::page_of(x);
    bucket_model::lemma_page(v.buckets, p);
    tree_laws::law_live(v.tree, y);
    let base = choose|base: int| #[trigger]
        v.tree.arenas.contains_key(base) && base + 2 * HEADER_SIZE <= y && y + v.tree.usable(y)
            + HEADER_SIZE <= base + v.tree.arenas[base];
    reveal(TreeView::all_mapped);
    reveal(TreeView::ok);
    let i = choose|i: int| 0 <= i < v.tree.mapped.len() && (#[trigger] v.tree.mapped[i]).base == base;
    let m = v.tree.mapped[i];
    assert(m.len == v.tree.arenas[base]);
    assert(v.tree.mapped.contains(m));
    assert(v.buckets.pages.contains_key(p));
    v.os.lemma_held_apart(m, page::mapping_of(p));
}

/// Two payloads in use have no byte in common.
pub proof fn law_live_apart(v: OrisnikView, x: int, y: int)
    requires
        v.ok(),
        v.live(x),
        v.live(y),
        x != y,
    ensures
        x + v.usable(x) <= y || y + v.usable(y) <= x,
{
    lemma_usable(v, x);
    lemma_usable(v, y);
    assert(v.buckets.ok() && v.tree.ok()) by {
        reveal(OrisnikView::ok);
    }
    if v.buckets.live(x) {
        if v.buckets.live(y) {
            bucket_model::law_live_apart(v.buckets, x, y);
        } else {
            lemma_paths_apart(v, x, y);
        }
    } else if v.buckets.live(y) {
        lemma_paths_apart(v, y, x);
    } else {
        tree_laws::law_live_apart(v.tree, x, y);
    }
}

/// A payload in use lies within one mapping that the system has served.
proof fn lemma_within(v: OrisnikView, x: int)
    requires
        v.ok(),
        v.live(x),
    ensures
        v.usable(x) <= MAX_ALLOCATION,
        exists|m: Mapping| #[trigger]
            v.os.held.contains(m) && !v.os.grants.contains(m) && m.base <= x && x + v.usable(x)
                <= m.end(),
{
    lemma_usable(v, x);
    reveal(OrisnikView::ok);
    if v.buckets.live(x) {
        let p = page::page_of(x);
        bucket_model::lemma_page(v.buckets, p);
        bucket_model::lemma_live(v.buckets, x);
        assert(v.buckets.pages.contains_key(p));
        let m = page::mapping_of(p);
        assert(v.os.held.contains(m) && !v.os.grants.contains(m)) by {
            reveal(bucket_model::agree);
        }
    } else {
        tree_laws::law_live(v.tree, x);
        let base = choose|base: int| #[trigger]
            v.tree.arenas.contains_key(base) && base + 2 * HEADER_SIZE <= x && x + v.tree.usable(x)
                + HEADER_SIZE <= base + v.tree.arenas[base];
        reveal(TreeView::all_mapped);
        let i = choose|i: int| 0 <= i < v.tree.mapped.len() && (#[trigger] v.tree.mapped[i]).base == base;
        let m = v.tree.mapped[i];
        assert(m.len == v.tree.arenas[base]) by {
            reveal(TreeView::ok);
        }
        assert(m.ok()) by {
            reveal(TreeView::ok);
        }
        assert(v.os.held.contains(m) && !v.os.grants.contains(m)) by {
            reveal(tree_model::agree);
        }
    }
}

/// A payload in use is a multiple of eight, not null, and lies within one mapping that the
/// system has served.
pub proof fn law_live(v: OrisnikView, x: int)
    requires
        v.ok(),
        v.live(x),
    ensures
        x % 8 == 0,
        0 < x < os::ADDRESS_LIMIT,
        8 <= v.usable(x) <= MAX_ALLOCATION,
        exists|m: Mapping| #[trigger]
            v.os.held.contains(m) && !v.os.grants.contains(m) && m.base <= x && x + v.usable(x)
                <= m.end(),
{
    lemma_within(v, x);
    lemma_usable(v, x);
    assert(v.buckets.ok() && v.tree.ok()) by {
        reveal(OrisnikView::ok);
    }
    if v.buckets.live(x) {
        bucket_model::lemma_live(v.buckets, x);
    } else {
        tree_laws::law_live(v.tree, x);
    }
}

/// Giving a payload back takes exactly that payload out of use and leaves the others as
/// they are.
pub proof fn law_free(v: OrisnikView, ptr: int)
    requires
        v.ok(),
        v.live(ptr),
    ensures
        ({
            let w = v.freed(ptr);
            &&& w.ok()
            &&& w.os == v.os
            &&& w.allocated() == v.allocated()
            &&& forall|q: int| #![trigger w.live(q)] w.live(q) <==> v.live(q) && q != ptr
            &&& forall|q: int|
                #![trigger w.usable(q)]
                v.live(q) && q != ptr ==> w.usable(q) == v.usable(q) && same_path(v, w, q)
        }),
{
    let w = v.freed(ptr);
    orisnik_model::lemma_freed_ok(v, ptr);
    lemma_usable(v, ptr);
    assert(v.buckets.ok() && v.tree.ok()) by {
        reveal(OrisnikView::ok);
    }
    if v.buckets.live(ptr) {
        bucket_model::law_freed(v.buckets, ptr);
        assert forall|q: int| #![trigger w.live(q)] w.live(q) <==> v.live(q) && q != ptr by {
            assert(w.buckets.live(q) <==> v.buckets.live(q) && q != ptr);
        }
    } else {
        tree_laws::law_freed(v.tree, ptr);
        assert forall|q: int| #![trigger w.live(q)] w.live(q) <==> v.live(q) && q != ptr by {
            assert(w.tree.live(q) <==> v.tree.live(q) && q != ptr);
        }
    }
    assert forall|q: int| #![trigger w.usable(q)] v.live(q) && q != ptr implies w.usable(q) == v.usable(q)
        && same_path(v, w, q) by {
        assert(w.live(q));
        lemma_usable(v, q);
        lemma_usable(w, q);
        if v.buckets.live(ptr) {
            assert(w.buckets.live(q) <==> v.buckets.live(q) && q != ptr);
            assert(w.buckets.usable(q) == v.buckets.usable(q));
            assert(w.buckets.bucket(q) == v.buckets.bucket(q));
        } else {
            assert(w.tree.live(q) <==> v.tree.live(q) && q != ptr);
            assert(w.tree.usable(q) == v.tree.usable(q) || !v.tree.live(q));
        }
    }
}

/// What a reallocation of a payload promises: where there is an answer, the payload there
/// is in use and holds `size` bytes; `copied` bytes are to be moved there from `ptr`, none
/// where it stayed, else at least the smaller of the two sizes and no more than either
/// place holds; it was in use before only if it stayed; and apart from the one that moved the payloads in use are the same, to one
/// of which an aligned request may add up to `slack` bytes. Where there is no answer neither
/// path changes, so that the payload is still there. Nothing is given back to the system, so
/// that no less is mapped than before.
pub open spec fn moved_well(
    v: OrisnikView,
    w: OrisnikView,
    r: Option<(int, int)>,
    ptr: int,
    size: int,
    slack: int,
) -> bool {
    &&& w.ok()
    &&& w.os.held == v.os.held
    &&& w.os.released == v.os.released
    &&& v.allocated() <= w.allocated()
    &&& r is None ==> w.buckets == v.buckets && w.tree == v.tree
    &&& r matches Some((x, copied)) ==> {
        &&& w.live(x)
        &&& x == ptr || !v.live(x)
        &&& x % 8 == 0
        &&& w.usable(x) >= size
        &&& copied == 0 ==> x == ptr
        &&& copied != 0 ==> orisnik_model::smaller(v.usable(ptr), size) <= copied <= v.usable(ptr)
            + slack && copied <= w.usable(x)
        &&& forall|q: int|
            #![trigger w.live(q)]
            w.live(q) <==> (v.live(q) && q != ptr) || q == x
        &&& forall|q: int|
            #![trigger w.usable(q)]
            v.live(q) && q != ptr ==> v.usable(q) <= w.usable(q) <= v.usable(q) + slack
                && same_path(v, w, q)
    }
}

/// A move to a payload that was served for it, with the old one given back.
proof fn lemma_moved(
    v: OrisnikView,
    u: OrisnikView,
    r: Option<int>,
    ptr: int,
    size: int,
    copied: int,
    slack: int,
)
    requires
        v.ok(),
        v.live(ptr),
        size > 0,
        slack >= 0,
        served_well(v, u, r, size, slack),
        orisnik_model::smaller(v.usable(ptr), size) <= copied <= v.usable(ptr) + slack,
        r matches Some(x) ==> copied <= u.usable(x),
    ensures
        ({
            let (w, m) = u.moved(ptr, r, copied);
            moved_well(v, w, m, ptr, size, slack)
        }),
{
    law_live(v, ptr);
    if let Some(x) = r {
        assert(u.live(ptr));
        law_free(u, ptr);
        let w = u.freed(ptr);
        assert(w.usable(x) == u.usable(x));
        assert forall|q: int| #![trigger w.live(q)] w.live(q) <==> (v.live(q) && q != ptr) || q == x by {
            assert(w.live(q) <==> u.live(q) && q != ptr);
            assert(u.live(q) <==> v.live(q) || q == x);
        }
        assert forall|q: int| #![trigger w.usable(q)] v.live(q) && q != ptr implies v.usable(q) <= w.usable(q)
            <= v.usable(q) + slack && same_path(v, w, q) by {
            assert(v.live(q));
            assert(u.live(q));
            assert(same_path(v, u, q));
            assert(w.usable(q) == u.usable(q));
            assert(same_path(u, w, q));
        }
    }
}

/// A reallocation within the buckets.
pub proof fn lemma_slot_realloc(v: OrisnikView, ptr: int, size: int)
    requires
        v.ok(),
        v.buckets.live(ptr),
        0 < size <= MAX_SMALL_ALLOCATION,
    ensures
        ({
            let (w, r) = v.slot_realloc(ptr, size);
            &&& moved_well(v, w, r, ptr, size, 0)
            &&& size <= v.usable(ptr) ==> r == Some((ptr, 0int)) && w == v
            &&& r matches Some((x, c)) ==> w.buckets.live(x) && (x == ptr || w.buckets.bucket(x)
                == page::class_of(size))
        }),
{
    lemma_usable(v, ptr);
    law_live(v, ptr);
    let elem = v.buckets.usable(ptr);
    let (w, r) = v.slot_realloc(ptr, size);
    if size > elem {
        let bi = page::class_of(size);
        page::law_spacing(0, size);
        align::lemma_rounded_up(size, 8);
        lemma_from_bucket(v, bi);
        let (u, x) = v.from_bucket(bi);
        assert(u.buckets.owns(ptr)) by {
            assert(v.live(ptr));
            assert(u.live(ptr));
            assert(same_path(v, u, ptr));
        }
        assert((w, r) == u.moved(ptr, x, elem));
        lemma_moved(v, u, x, ptr, size, elem, 0);
        if let Some(y) = x {
            assert(u.usable(y) >= size);
            law_free(u, ptr);
            assert(w.usable(y) == u.usable(y) && same_path(u, w, y));
        }
    } else {
        assert(w == v);
        assert forall|q: int| #![trigger w.usable(q)] v.live(q) && q != ptr implies same_path(v, w, q) by {}
    }
}

proof fn lemma_sixteen(x: int)
    requires
        x % 16 == 0,
    ensures
        x % 8 == 0,
{
    div_mod::lemma_fundamental_div_mod(x, 16);
    div_mod::lemma_fundamental_div_mod_converse(x, 8, 2 * (x / 16), 0);
}

/// Whether `q` is in use after a reallocation within the tree.
proof fn lemma_tree_moved_live(v: OrisnikView, w: OrisnikView, ptr: int, x: int, q: int)
    requires
        v.ok(),
        v.tree.live(ptr),
        w.buckets == v.buckets,
        w.tree.live(q) <==> (v.tree.live(q) && q != ptr) || q == x,
    ensures
        w.live(q) <==> (v.live(q) && q != ptr) || q == x,
{
    lemma_usable(v, ptr);
}

/// What a reallocation within the tree promises, the allocator does.
#[verifier::spinoff_prover]
#[verifier::rlimit(40)]
proof fn lemma_tree_moved(
    v: OrisnikView,
    w: OrisnikView,
    r: Option<(int, int)>,
    ptr: int,
    size: int,
    slack: int,
)
    requires
        v.ok(),
        w.ok(),
        v.tree.live(ptr),
        w.buckets == v.buckets,
        w.os.held == v.os.held,
        w.os.released == v.os.released,
        v.allocated() <= w.allocated(),
        size > 0,
        slack >= 0,
        tree_laws::moved_well(v.tree, w.tree, ptr, size, slack, r),
    ensures
        moved_well(v, w, r, ptr, size, slack),
{
    lemma_usable(v, ptr);
    if let Some((x, copied)) = r {
        lemma_sixteen(x);
        assert(w.tree.live(x));
        lemma_usable(w, x);
        lemma_tree_moved_live(v, w, ptr, x, x);
        assert(x == ptr || !v.live(x)) by {
            if v.buckets.live(x) {
                lemma_usable(w, x);
            }
        }
        assert forall|q: int| #![trigger w.live(q)] w.live(q) <==> (v.live(q) && q != ptr) || q == x by {
            assert(w.tree.live(q) <==> (v.tree.live(q) && q != ptr) || q == x);
            lemma_tree_moved_live(v, w, ptr, x, q);
        }
        assert forall|q: int| #![trigger w.usable(q)] v.live(q) && q != ptr implies v.usable(q) <= w.usable(q)
            <= v.usable(q) + slack && same_path(v, w, q) by {
            assert(w.tree.live(q) <==> (v.tree.live(q) && q != ptr) || q == x);
            assert(v.tree.live(q) ==> v.tree.usable(q) <= w.tree.usable(q) <= v.tree.usable(q) + slack);
            lemma_tree_kept(v, w, q, slack);
        }
    }
}

/// A reallocation keeps its promise. A payload that is large enough stays where it is, and
/// a size of zero gives the payload back. Another size is answered unless it is beyond the
/// limit or memory is lacking.
pub proof fn law_realloc(v: OrisnikView, ptr: u64, size: int)
    requires
        v.ok(),
        v.live(ptr as int),
        0 <= size,
    ensures
        ({
            let (w, r) = v.realloc(Some(ptr), size);
            &&& size == 0 ==> r is None && w == v.freed(ptr as int)
            &&& size > 0 ==> moved_well(v, w, r, ptr as int, size, 0)
            &&& 0 < size <= v.usable(ptr as int) ==> r == Some((ptr as int, 0int))
            &&& size > 0 && r is None ==> size > MAX_ALLOCATION || !v.os.can_map(
                orisnik_retry::lacking_move(v, ptr as int, size),
            )
        }),
{
    let p = ptr as int;
    let (w, r) = v.realloc(Some(ptr), size);
    lemma_usable(v, p);
    law_live(v, p);
    if size > 0 {
        if v.buckets.live(p) {
            let s = page::clamped(size);
            assert(v.buckets.ok()) by {
                reveal(OrisnikView::ok);
            }
            bucket_model::lemma_live(v.buckets, p);
            if s <= MAX_SMALL_ALLOCATION {
                lemma_slot_realloc(v, p, s);
            } else {
                lemma_from_tree(v, s);
                let (u, x) = v.from_tree(s);
                lemma_moved(v, u, x, p, s, v.buckets.usable(p), 0);
            }
        } else {
            assert(v.tree.ok() && tree_model::agree(v.tree, v.os)) by {
                reveal(OrisnikView::ok);
            }
            tree_laws::law_realloc(v.tree, v.os, p, size);
            orisnik_model::lemma_realloc_fed(v.tree, v.os, p - HEADER_SIZE, size);
            lemma_fed(v, w, r, p, size, 0);
        }
    }
}

/// An aligned reallocation keeps its promise, and the payload is at a multiple of the
/// alignment afterwards. A size that is not zero is answered unless it, or it and the
/// alignment together, are beyond the limit, or memory is lacking.
pub proof fn law_realloc_aligned(v: OrisnikView, ptr: u64, size: int, al: int)
    requires
        v.ok(),
        v.live(ptr as int),
        0 <= size,
        orisnik_model::valid_alignment(al),
    ensures
        ({
            let (w, r) = v.realloc_aligned(Some(ptr), size, al);
            &&& size == 0 ==> r is None && w == v.freed(ptr as int)
            &&& size > 0 ==> moved_well(v, w, r, ptr as int, size, SPLIT_REMAINDER_MIN as int)
            &&& r matches Some((x, c)) ==> al > 0 ==> x % al == 0
            &&& size > 0 && r is None ==> {
                ||| size > MAX_ALLOCATION
                ||| al > DEFAULT_ALIGNMENT && tree_model::normalized(size)->0 + al > MAX_ALLOCATION
                ||| !v.os.can_map(orisnik_retry::lacking_move_aligned(v, ptr as int, size, al))
            }
        }),
{
    let p = ptr as int;
    let (w, r) = v.realloc_aligned(Some(ptr), size, al);
    lemma_usable(v, p);
    law_live(v, p);
    if al <= DEFAULT_ALIGNMENT {
        law_realloc(v, ptr, size);
        if let Some((x, c)) = r {
            if al > 0 {
                lemma_default_aligned(x, al);
            }
        }
    } else if size > 0 {
        if p % al != 0 {
            lemma_move_aligned(v, p, size, al);
        } else if v.buckets.live(p) {
            lemma_slot_realloc_aligned(v, p, size, al);
        } else {
            lemma_tree_realloc_aligned(v, p, size, al);
        }
    }
}

proof fn lemma_move_aligned(v: OrisnikView, p: int, size: int, al: int)
    requires
        v.ok(),
        v.live(p),
        0 < size,
        power2::is_pow2(al),
    ensures
        ({
            let (w, r) = v.move_aligned(p, size, al);
            &&& moved_well(v, w, r, p, size, SPLIT_REMAINDER_MIN as int)
            &&& r matches Some((x, c)) ==> x % al == 0
            &&& al > DEFAULT_ALIGNMENT && r is None ==> size > MAX_ALLOCATION || starved(v, size, al)
        }),
{
    law_alloc_aligned(v, size, al);
    let (u, x) = v.alloc_aligned(size, al);
    reveal_with_fuel(power2::is_pow2, 2);
    assert(u.usable(p) >= v.usable(p));
    lemma_moved(
        v,
        u,
        x,
        p,
        size,
        orisnik_model::smaller(u.usable(p), size),
        SPLIT_REMAINDER_MIN as int,
    );
}

proof fn lemma_slot_realloc_aligned(v: OrisnikView, p: int, size: int, al: int)
    requires
        v.ok(),
        v.buckets.live(p),
        0 < size,
        power2::is_pow2(al),
        p % al == 0,
    ensures
        ({
            let (w, r) = v.slot_realloc_aligned(p, page::clamped(size), al);
            &&& moved_well(v, w, r, p, size, SPLIT_REMAINDER_MIN as int)
            &&& r matches Some((x, c)) ==> x % al == 0
            &&& al > DEFAULT_ALIGNMENT && r is None ==> size > MAX_ALLOCATION || starved(
                v,
                page::clamped(size),
                al,
            )
        }),
{
    let s = page::clamped(size);
    let (w, r) = v.slot_realloc_aligned(p, s, al);
    lemma_usable(v, p);
    assert(v.buckets.ok()) by {
        reveal(OrisnikView::ok);
    }
    bucket_model::lemma_live(v.buckets, p);
    if s <= v.buckets.usable(p) && al <= MAX_SMALL_ALLOCATION {
        lemma_slot_realloc(v, p, s);
        lemma_more_slack(v, w, r, p, size);
    } else {
        lemma_move_aligned(v, p, s, al);
    }
}

proof fn lemma_tree_realloc_aligned(v: OrisnikView, p: int, size: int, al: int)
    requires
        v.ok(),
        v.tree.live(p),
        0 < size,
        power2::is_pow2(al),
        p % al == 0,
    ensures
        ({
            let (t, o, r) = v.tree.realloc_aligned(v.os, p - HEADER_SIZE, size, al);
            let w = OrisnikView { tree: t, os: o, ..v };
            &&& moved_well(v, w, r, p, size, SPLIT_REMAINDER_MIN as int)
            &&& r matches Some((x, c)) ==> x % al == 0
            &&& r is None ==> {
                ||| size > MAX_ALLOCATION
                ||| tree_model::normalized(size)->0 + al > MAX_ALLOCATION
                ||| !v.os.can_map(tree_model::arena_len(tree_model::normalized(size)->0 + al))
            }
        }),
{
    let (t, o, r) = v.tree.realloc_aligned(v.os, p - HEADER_SIZE, size, al);
    let w = OrisnikView { tree: t, os: o, ..v };
    assert(v.tree.ok() && tree_model::agree(v.tree, v.os)) by {
        reveal(OrisnikView::ok);
    }
    tree_laws::law_realloc_aligned(v.tree, v.os, p, size, al);
    orisnik_model::lemma_realloc_aligned_fed(v.tree, v.os, p - HEADER_SIZE, size, al);
    lemma_fed(v, w, r, p, size, SPLIT_REMAINDER_MIN as int);
}

/// What a reallocation within the tree promises, the allocator does, whatever the tree took
/// from the system.
proof fn lemma_fed(
    v: OrisnikView,
    w: OrisnikView,
    r: Option<(int, int)>,
    p: int,
    size: int,
    slack: int,
)
    requires
        v.ok(),
        v.tree.live(p),
        0 < size,
        0 <= slack,
        w.buckets == v.buckets,
        w.tree.ok(),
        tree_model::agree(w.tree, w.os),
        v.tree.all_mapped() ==> w.tree.all_mapped(),
        tree_laws::moved_well(v.tree, w.tree, p, size, slack, r),
        orisnik_model::fed(v.tree, v.os, w.tree, w.os),
    ensures
        moved_well(v, w, r, p, size, slack),
{
    assert(w.ok()) by {
        reveal(OrisnikView::ok);
        orisnik_model::lemma_tree_fed(v, w);
    }
    assert(os::offers_less(v.os, w.os)) by {
        reveal(OrisnikView::ok);
        orisnik_model::lemma_tree_fed(v, w);
    }
    orisnik_account::lemma_grown(v, w);
    lemma_tree_moved(v, w, r, p, size, slack);
}

proof fn lemma_more_slack(v: OrisnikView, w: OrisnikView, r: Option<(int, int)>, ptr: int, size: int)
    requires
        moved_well(v, w, r, ptr, page::clamped(size), 0),
        size > 0,
    ensures
        moved_well(v, w, r, ptr, size, SPLIT_REMAINDER_MIN as int),
{
    if let Some((x, c)) = r {
        assert forall|q: int| #![trigger w.usable(q)] v.live(q) && q != ptr implies v.usable(q) <= w.usable(q)
            <= v.usable(q) + SPLIT_REMAINDER_MIN && same_path(v, w, q) by {}
    }
}

/// Memory after `n` bytes were moved from `from` to `to`, which may overlap.
pub open spec fn with_moved(mem: spec_fn(int) -> u8, from: int, to: int, n: int) -> spec_fn(int) -> u8 {
    |a: int|
        if to <= a < to + n {
            mem(from + (a - to))
        } else {
            mem(a)
        }
}

/// What moving `copied` bytes from `ptr` to `x` makes of memory keeps the contents: the
/// payload has at its new address what it had at the old one, up to the smaller of the two
/// sizes, and every other payload in use has what it had.
pub open spec fn keeps_contents(
    v: OrisnikView,
    ptr: int,
    size: int,
    x: int,
    copied: int,
    mem: spec_fn(int) -> u8,
) -> bool {
    let m = with_moved(mem, ptr, x, copied);
    &&& forall|k: int|
        0 <= k < orisnik_model::smaller(v.usable(ptr), size) ==> #[trigger] m(x + k) == mem(ptr + k)
    &&& forall|q: int, k: int|
        v.live(q) && q != ptr && 0 <= k < v.usable(q) ==> #[trigger] m(q + k) == mem(q + k)
}

proof fn lemma_contents(
    v: OrisnikView,
    w: OrisnikView,
    ptr: int,
    size: int,
    slack: int,
    x: int,
    copied: int,
    mem: spec_fn(int) -> u8,
)
    requires
        v.ok(),
        v.live(ptr),
        moved_well(v, w, Some((x, copied)), ptr, size, slack),
    ensures
        keeps_contents(v, ptr, size, x, copied, mem),
{
    let m = with_moved(mem, ptr, x, copied);
    assert forall|k: int| 0 <= k < orisnik_model::smaller(v.usable(ptr), size) implies #[trigger] m(x + k)
        == mem(ptr + k) by {
        if copied == 0 {
            assert(x == ptr);
        }
    }
    assert forall|q: int, k: int| v.live(q) && q != ptr && 0 <= k < v.usable(q) implies #[trigger] m(q + k)
        == mem(q + k) by {
        if copied != 0 {
            assert(w.live(q));
            assert(v.usable(q) <= w.usable(q));
            law_live_apart(w, q, x);
        }
    }
}

/// Moving the bytes that a reallocation tells keeps the contents of every payload.
pub proof fn law_realloc_contents(v: OrisnikView, ptr: u64, size: int, mem: spec_fn(int) -> u8)
    requires
        v.ok(),
        v.live(ptr as int),
        0 < size,
    ensures
        v.realloc(Some(ptr), size).1 matches Some((x, copied)) ==> keeps_contents(
            v,
            ptr as int,
            size,
            x,
            copied,
            mem,
        ),
{
    law_realloc(v, ptr, size);
    let (w, r) = v.realloc(Some(ptr), size);
    if let Some((x, copied)) = r {
        lemma_contents(v, w, ptr as int, size, 0, x, copied, mem);
    }
}

/// The same for an aligned reallocation.
pub proof fn law_realloc_aligned_contents(
    v: OrisnikView,
    ptr: u64,
    size: int,
    al: int,
    mem: spec_fn(int) -> u8,
)
    requires
        v.ok(),
        v.live(ptr as int),
        0 < size,
        orisnik_model::valid_alignment(al),
    ensures
        v.realloc_aligned(Some(ptr), size, al).1 matches Some((x, copied)) ==> keeps_contents(
            v,
            ptr as int,
            size,
            x,
            copied,
            mem,
        ),
{
    law_realloc_aligned(v, ptr, size, al);
    let (w, r) = v.realloc_aligned(Some(ptr), size, al);
    if let Some((x, copied)) = r {
        lemma_contents(v, w, ptr as int, size, SPLIT_REMAINDER_MIN as int, x, copied, mem);
    }
}

/// A request that is answered and given back again leaves the payloads in use as they were.
pub proof fn law_alloc_free(v: OrisnikView, size: int)
    requires
        v.ok(),
        0 <= size,
    ensures
        ({
            let (u, r) = v.alloc_bytes(size);
            r matches Some(x) ==> {
                let w = u.freed(x);
                &&& w.ok()
                &&& forall|q: int| #![trigger w.live(q)] w.live(q) <==> v.live(q)
                &&& forall|q: int| #![trigger w.usable(q)] v.live(q) ==> w.usable(q) == v.usable(q)
            }
        }),
{
    law_alloc(v, size);
    let (u, r) = v.alloc_bytes(size);
    if let Some(x) = r {
        law_free(u, x);
        let w = u.freed(x);
        assert forall|q: int| #![trigger w.live(q)] w.live(q) <==> v.live(q) by {
            assert(w.live(q) <==> u.live(q) && q != x);
            assert(u.live(q) <==> v.live(q) || q == x);
        }
        assert forall|q: int| #![trigger w.usable(q)] v.live(q) implies w.usable(q) == v.usable(q) by {
            assert(u.live(q));
            assert(u.usable(q) == v.usable(q));
        }
    }
}

/// A zeroed request is answered if and only if one for the product is, with the same payload
/// and the same state afterwards, and all bytes of the product are to be set to zero; one whose
/// product is zero or exceeds 64 bits changes nothing.
pub proof fn law_calloc(v: OrisnikView, count: int, size: int)
    requires
        v.ok(),
        0 <= count,
        0 <= size,
    ensures
        ({
            let (w, r) = v.calloc(count, size);
            &&& count * size == 0 || count * size > u64::MAX ==> r is None && w == v
            &&& 0 < count * size <= u64::MAX ==> {
                let (u, x) = v.alloc_bytes(count * size);
                &&& w == u
                &&& r is Some <==> x is Some
                &&& r matches Some((p, len)) ==> x == Some(p)
            }
            &&& r matches Some((x, len)) ==> {
                &&& len == count * size
                &&& served_well(v, w, Some(x), len, 0)
            }
            &&& r is None ==> served_well(v, w, None, 0, 0)
        }),
{
    assert(count * size >= 0) by (nonlinear_arith)
        requires
            count >= 0,
            size >= 0,
    ;
    if count * size <= u64::MAX {
        law_alloc(v, count * size);
    }
}

/// A payload whose size changes in place stays where it is, as do all others. It holds the
/// size asked for wherever its block, or its block and a free one behind it, has room for
/// that; else nothing changes, nor for a size of zero. A slot never changes.
pub proof fn law_resize(v: OrisnikView, ptr: u64, size: int)
    requires
        v.ok(),
        v.live(ptr as int),
        0 <= size,
    ensures
        ({
            let w = v.resized(Some(ptr), size);
            &&& w.ok()
            &&& w.os == v.os
            &&& w.allocated() == v.allocated()
            &&& v.buckets.live(ptr as int) ==> w == v
            &&& v.tree.live(ptr as int) ==> {
                match tree_model::normalized(size) {
                    Some(n) if size > 0 && tree_laws::roomy_behind(v.tree, ptr as int, n) => n <= w.usable(
                        ptr as int,
                    ) < n + SPLIT_REMAINDER_MIN,
                    _ => w == v,
                }
            }
            &&& forall|q: int| #![trigger w.live(q)] w.live(q) <==> v.live(q)
            &&& forall|q: int| #![trigger w.live(q)] v.live(q) ==> same_path(v, w, q)
            &&& forall|q: int|
                #![trigger w.usable(q)]
                v.live(q) && q != ptr ==> w.usable(q) == v.usable(q)
            &&& size <= v.usable(ptr as int) ==> w.usable(ptr as int) >= size
        }),
{
    let p = ptr as int;
    let w = v.resized(Some(ptr), size);
    lemma_usable(v, p);
    if v.tree.live(p) {
        assert(v.tree.ok()) by {
            reveal(OrisnikView::ok);
        }
        tree_laws::law_resized(v.tree, p, size);
        tree_laws::law_normalized(size);
        assert(w.ok()) by {
            reveal(OrisnikView::ok);
            tree_model::lemma_agree_same(v.tree, w.tree, v.os);
            orisnik_model::lemma_covered_same(v.buckets, v.tree, w.buckets, w.tree, v.os);
        }
        assert forall|q: int| #![trigger w.live(q)] w.live(q) <==> v.live(q) by {
            assert(w.tree.live(q) <==> v.tree.live(q));
        }
        assert forall|q: int| #![trigger w.live(q)] v.live(q) implies same_path(v, w, q) by {
            assert(w.tree.live(q) <==> v.tree.live(q));
        }
        assert forall|q: int| #![trigger w.usable(q)] v.live(q) && q != ptr implies w.usable(q) == v.usable(q) by {
            assert(w.live(q));
            lemma_usable(v, q);
            lemma_usable(w, q);
            assert(v.tree.live(q) ==> w.tree.usable(q) == v.tree.usable(q));
        }
        assert(w.live(p));
        assert(w.tree.live(p) <==> v.tree.live(p));
        lemma_usable(w, p);
    }
}

/// A purge keeps every payload in use as it is and gives everything else back: each page and
/// each arena that remains has a payload in use, with none in use nothing stays mapped, and what
/// has gone is listed for return.
pub proof fn law_purge(v: OrisnikView)
    requires
        v.ok(),
    ensures
        ({
            let w = v.purged();
            &&& w.ok()
            &&& w.os.grants == v.os.grants
            &&& forall|q: int| #![trigger w.live(q)] #![trigger v.live(q)] w.live(q) <==> v.live(q)
            &&& forall|q: int|
                #![trigger w.usable(q)]
                v.live(q) ==> w.usable(q) == v.usable(q) && same_path(v, w, q)
            &&& forall|p: int| #[trigger]
                w.buckets.pages.contains_key(p) ==> exists|q: int|
                    page::page_of(q) == p && #[trigger] w.buckets.live(q)
            &&& forall|base: int| #[trigger]
                w.tree.arenas.contains_key(base) ==> exists|q: int| #[trigger]
                    w.tree.live(q) && base < q <= base + w.tree.arenas[base]
            &&& os::lists_gone(v.os, w.os)
            &&& w.allocated() <= v.allocated()
            &&& (forall|q: int| !#[trigger] v.live(q)) ==> w.allocated() == 0
        }),
{
    let w = v.purged();
    let (t, o) = v.tree.purged(v.os);
    let (b, o1) = v.buckets.purged(o);
    assert(v.buckets.ok() && v.tree.ok() && tree_model::agree(v.tree, v.os) && v.tree.all_mapped()
        && bucket_model::agree(v.buckets, v.os)) by {
        reveal(OrisnikView::ok);
    }
    tree_purge::law_purged(v.tree, v.os);
    assert(o.ok() && bucket_model::agree(v.buckets, o) && orisnik_model::separate(v.buckets, t)
        && orisnik_model::covered(v.buckets, t, o)) by {
        tree_model::lemma_agree_same(t, t, o);
        orisnik_model::lemma_tree_purged(v, o, t);
    }
    bucket_model::law_purged(v.buckets, o);
    os::lemma_lists_both(v.os, o, o1);
    assert(w.ok()) by {
        reveal(OrisnikView::ok);
        bucket_model::lemma_agree_fresh(b, o1);
        orisnik_model::lemma_buckets_purged(v.buckets, t, o, b, o1);
    }
    assert(w.allocated() <= v.allocated()) by {
        assert forall|m: Mapping| #[trigger] o1.held.contains(m) implies v.os.held.contains(m) by {
            assert(o.held.contains(m));
        }
        orisnik_account::lemma_shrunk(v, w);
    }
    assert forall|q: int| #![trigger w.live(q)] #![trigger v.live(q)] w.live(q) <==> v.live(q) by {
        assert(w.tree.live(q) <==> v.tree.live(q));
        assert(w.buckets.live(q) <==> v.buckets.live(q));
    }
    assert forall|q: int| #![trigger w.usable(q)] v.live(q) implies w.usable(q) == v.usable(q) && same_path(
        v,
        w,
        q,
    ) by {
        assert(w.live(q));
        assert(w.tree.live(q) <==> v.tree.live(q));
        assert(w.buckets.live(q) <==> v.buckets.live(q));
        lemma_usable(v, q);
        lemma_usable(w, q);
        assert(v.buckets.live(q) ==> w.buckets.usable(q) == v.buckets.usable(q));
        assert(v.tree.live(q) ==> w.tree.usable(q) == v.tree.usable(q));
    }
    if forall|q: int| !#[trigger] v.live(q) {
        assert forall|q: int| !#[trigger] v.tree.live(q) by {
            assert(!v.live(q));
        }
        assert forall|q: int| !#[trigger] v.buckets.live(q) by {
            assert(!v.live(q));
        }
    }
}

/// Every payload in use of an allocator that has just been made: there is none.
pub proof fn law_empty(q: int)
    ensures
        !OrisnikView::empty().live(q),
        OrisnikView::empty().allocated() == 0,
{
    assert(BucketsView::empty().pages.dom() =~= Set::empty());
}

} // verus!
