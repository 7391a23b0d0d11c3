//! What is mapped, to the byte: the count that the allocator keeps is what the system has
//! served and was not given back.

use crate::bucket_model;
use crate::bucket_model::BucketsView;
use crate::orisnik_laws;
use crate::orisnik_model;
use crate::orisnik_model::OrisnikView;
use crate::os;
use crate::os::{Mapping, OsView, PAGE_SIZE};
use crate::page;
use crate::tree_model;
use crate::tree_model::TreeView;
use vstd::prelude::*;

verus! {

/// The bytes of two lists of mappings together.
proof fn lemma_total_concat(s: Seq<Mapping>, t: Seq<Mapping>)
    ensures
        tree_model::total(s + t) == tree_model::total(s) + tree_model::total(t),
    decreases t.len(),
{
    if t.len() == 0 {
        assert(s + t =~= s);
    } else {
        lemma_total_concat(s, t.drop_last());
        assert((s + t).drop_last() =~= s + t.drop_last());
        assert((s + t).last() == t.last());
    }
}

/// Mappings that are all among others have no more bytes than those.
proof fn lemma_total_among(s: Seq<Mapping>, t: Seq<Mapping>)
    requires
        s.no_duplicates(),
        forall|m: Mapping| #[trigger] s.contains(m) ==> t.contains(m),
    ensures
        tree_model::total(s) <= tree_model::total(t),
    decreases s.len(),
{
    if s.len() == 0 {
        tree_model::lemma_total_nonneg(t);
    } else {
        let x = s.last();
        let front = s.drop_last();
        assert(s.contains(x));
        let i = t.index_of(x);
        let rest = t.remove(i);
        assert forall|m: Mapping| #[trigger] front.contains(m) implies rest.contains(m) by {
            let k = front.index_of(m);
            assert(s[k] == m);
            assert(s.contains(m));
            assert(m != x);
            let j = t.index_of(m);
            assert(rest[if j < i { j } else { j - 1 }] == m);
        }
        tree_model::lemma_total_remove(t, i);
        lemma_total_among(front, rest);
    }
}

/// Mappings that are pages or among `rest` have the bytes of both together.
proof fn lemma_total_pages(held: Seq<Mapping>, pages: Set<int>, rest: Seq<Mapping>)
    requires
        pages.finite(),
        held.no_duplicates(),
        rest.no_duplicates(),
        forall|p: int, q: int|
            #![trigger pages.contains(p), pages.contains(q)]
            pages.contains(p) && pages.contains(q) && p != q ==> page::mapping_of(p)
                != page::mapping_of(q),
        forall|p: int| #[trigger]
            pages.contains(p) ==> held.contains(page::mapping_of(p)) && !rest.contains(
                page::mapping_of(p),
            ),
        forall|m: Mapping| #[trigger] rest.contains(m) ==> held.contains(m),
        forall|m: Mapping| #[trigger]
            held.contains(m) ==> rest.contains(m) || exists|p: int| #[trigger]
                pages.contains(p) && page::mapping_of(p) == m,
    ensures
        tree_model::total(held) == PAGE_SIZE * pages.len() + tree_model::total(rest),
    decreases pages.len(),
{
    if pages.len() == 0 {
        assert forall|m: Mapping| #[trigger] held.contains(m) implies rest.contains(m) by {
            if !rest.contains(m) {
                let p = choose|p: int| #[trigger] pages.contains(p) && page::mapping_of(p) == m;
                assert(pages.remove(p).len() == pages.len() - 1);
            }
        }
        lemma_total_among(held, rest);
        lemma_total_among(rest, held);
    } else {
        let p = pages.choose();
        let less = pages.remove(p);
        let x = page::mapping_of(p);
        assert(pages.contains(p));
        let i = held.index_of(x);
        let front = held.remove(i);
        assert forall|m: Mapping| #[trigger] front.contains(m) <==> held.contains(m) && m != x by {
            if front.contains(m) {
                let k = front.index_of(m);
                assert(held[if k < i { k } else { k + 1 }] == m);
            }
            if held.contains(m) && m != x {
                let k = held.index_of(m);
                assert(front[if k < i { k } else { k - 1 }] == m);
            }
        }
        assert(front.no_duplicates()) by {
            assert forall|j: int, k: int| 0 <= j < front.len() && 0 <= k < front.len() && j != k implies front[j]
                != front[k] by {
                let j0 = if j < i { j } else { j + 1 };
                let k0 = if k < i { k } else { k + 1 };
                assert(front[j] == held[j0] && front[k] == held[k0]);
            }
        }
        assert forall|q: int| #[trigger] less.contains(q) implies front.contains(page::mapping_of(q))
            && !rest.contains(page::mapping_of(q)) by {
            assert(pages.contains(q));
        }
        assert forall|m: Mapping| #[trigger] front.contains(m) implies rest.contains(m) || exists|q: int| #[trigger]
            less.contains(q) && page::mapping_of(q) == m by {
            if !rest.contains(m) {
                let q = choose|q: int| #[trigger] pages.contains(q) && page::mapping_of(q) == m;
                assert(less.contains(q));
            }
        }
        tree_model::lemma_total_remove(held, i);
        lemma_total_pages(front, less, rest);
    }
}

/// Held mappings are all different.
proof fn lemma_held_once(o: OsView)
    requires
        o.ok(),
    ensures
        o.held.no_duplicates(),
        o.grants.no_duplicates(),
{
    reveal(OsView::ok);
    assert forall|i: int, j: int| 0 <= i < o.held.len() && 0 <= j < o.held.len() && i != j implies o.held[i]
        != o.held[j] by {
        assert(o.held[i].ok() && o.held[j].ok());
        if i < j {
            assert(o.held[i].apart(o.held[j]));
        } else {
            assert(o.held[j].apart(o.held[i]));
        }
    }
}

/// What has been mapped is what is held and not on offer: everything that the system has
/// served on either path, less what was given back.
pub proof fn law_allocated(v: OrisnikView)
    requires
        v.ok(),
    ensures
        v.allocated() == tree_model::total(v.os.held) - tree_model::total(v.os.grants),
        0 <= v.allocated() <= os::ADDRESS_LIMIT,
        v.allocated() % (PAGE_SIZE as int) == 0,
{
    let b = v.buckets;
    let t = v.tree;
    let o = v.os;
    reveal(OrisnikView::ok);
    assert(o.ok()) by {
        reveal(tree_model::agree);
    }
    lemma_held_once(o);
    let rest = o.grants + t.mapped;
    assert forall|m: Mapping| #[trigger] rest.contains(m) <==> o.grants.contains(m) || t.mapped.contains(m) by {
        if o.grants.contains(m) {
            assert(rest[o.grants.index_of(m)] == m);
        }
        if t.mapped.contains(m) {
            assert(rest[o.grants.len() + t.mapped.index_of(m)] == m);
        }
    }
    assert(rest.no_duplicates()) by {
        reveal(TreeView::ok);
        reveal(tree_model::agree);
        assert forall|i: int, j: int| 0 <= i < j < rest.len() implies rest[i] != rest[j] by {
            let n = o.grants.len() as int;
            if i >= n {
                assert(t.mapped[i - n].base != t.mapped[j - n].base);
            } else if j >= n {
                assert(!o.grants.contains(t.mapped[j - n]));
            }
        }
    }
    let pages = b.pages.dom();
    assert(pages.finite()) by {
        reveal(BucketsView::ok);
    }
    assert forall|p: int, q: int|
        #![trigger pages.contains(p), pages.contains(q)]
        pages.contains(p) && pages.contains(q) && p != q implies page::mapping_of(p)
        != page::mapping_of(q) by {
        bucket_model::lemma_page(b, p);
        bucket_model::lemma_page(b, q);
    }
    assert forall|p: int| #[trigger] pages.contains(p) implies o.held.contains(page::mapping_of(p))
        && !rest.contains(page::mapping_of(p)) by {
        reveal(bucket_model::agree);
        assert(b.pages.contains_key(p));
    }
    assert forall|m: Mapping| #[trigger] rest.contains(m) implies o.held.contains(m) by {
        if o.grants.contains(m) {
            reveal(OsView::ok);
            assert(o.held.contains(o.grants[o.grants.index_of(m)]));
        } else {
            reveal(tree_model::agree);
            assert(o.held.contains(t.mapped[t.mapped.index_of(m)]));
        }
    }
    assert forall|m: Mapping| #[trigger] o.held.contains(m) implies rest.contains(m) || exists|p: int| #[trigger]
        pages.contains(p) && page::mapping_of(p) == m by {
        reveal(orisnik_model::covered);
        if !rest.contains(m) {
            let p = choose|p: int| #[trigger] b.pages.contains_key(p) && page::mapping_of(p) == m;
            assert(pages.contains(p));
        }
    }
    lemma_total_pages(o.held, pages, rest);
    lemma_total_concat(o.grants, t.mapped);
    tree_model::lemma_total_nonneg(t.mapped);
    lemma_whole_pages(t.mapped, t);
    assert(tree_model::total(o.held) < os::ADDRESS_LIMIT) by {
        reveal(OsView::ok);
        tree_model::lemma_total(o.held);
    }
    tree_model::lemma_total_nonneg(o.grants);
}

/// Mappings of the tree are whole pages.
proof fn lemma_whole_pages(maps: Seq<Mapping>, t: TreeView)
    requires
        t.ok(),
        forall|i: int| 0 <= i < maps.len() ==> t.mapped.contains(#[trigger] maps[i]),
    ensures
        tree_model::total(maps) % (PAGE_SIZE as int) == 0,
    decreases maps.len(),
{
    if maps.len() > 0 {
        lemma_whole_pages(maps.drop_last(), t);
        let m = maps.last();
        assert(t.mapped.contains(maps[maps.len() - 1]));
        assert(m.ok()) by {
            reveal(TreeView::ok);
            assert(t.mapped[t.mapped.index_of(m)].ok());
        }
    }
}

/// Where nothing was handed over or given back and nothing came on offer, no less is mapped
/// than before.
pub proof fn lemma_grown(v: OrisnikView, w: OrisnikView)
    requires
        v.ok(),
        w.ok(),
        w.os.held == v.os.held,
        os::offers_less(v.os, w.os),
    ensures
        v.allocated() <= w.allocated(),
{
    law_allocated(v);
    law_allocated(w);
    assert(w.os.grants.no_duplicates()) by {
        reveal(OrisnikView::ok);
        reveal(tree_model::agree);
        reveal(OsView::ok);
    }
    lemma_total_among(w.os.grants, v.os.grants);
}

/// Where nothing came on offer and nothing was handed over, no more is mapped than before.
pub proof fn lemma_shrunk(v: OrisnikView, w: OrisnikView)
    requires
        v.ok(),
        w.ok(),
        w.os.grants == v.os.grants,
        forall|m: Mapping| #[trigger] w.os.held.contains(m) ==> v.os.held.contains(m),
    ensures
        w.allocated() <= v.allocated(),
{
    law_allocated(v);
    law_allocated(w);
    assert(w.os.ok()) by {
        reveal(OrisnikView::ok);
        reveal(tree_model::agree);
    }
    lemma_held_once(w.os);
    lemma_total_among(w.os.held, v.os.held);
}

/// Only a request that is answered can raise what is mapped, and then by what it took from the
/// offer.
pub open spec fn raised(v: OrisnikView, w: OrisnikView, answered: bool) -> bool {
    &&& v.allocated() <= w.allocated()
    &&& !answered ==> w.allocated() == v.allocated()
    &&& w.allocated() - v.allocated() == tree_model::total(v.os.grants) - tree_model::total(
        w.os.grants,
    )
}

/// Requests raise what is mapped if they are answered, and never lower it.
pub proof fn law_allocated_request(v: OrisnikView, count: int, size: int, al: int)
    requires
        v.ok(),
        0 <= count,
        0 <= size,
        orisnik_model::valid_alignment(al),
    ensures
        raised(v, v.alloc_bytes(size).0, v.alloc_bytes(size).1 is Some),
        raised(v, v.alloc_aligned(size, al).0, v.alloc_aligned(size, al).1 is Some),
        raised(v, v.calloc(count, size).0, v.calloc(count, size).1 is Some),
{
    orisnik_laws::law_alloc(v, size);
    orisnik_laws::law_alloc_aligned(v, size, al);
    orisnik_laws::law_calloc(v, count, size);
    law_allocated(v);
    law_allocated(v.alloc_bytes(size).0);
    law_allocated(v.alloc_aligned(size, al).0);
    law_allocated(v.calloc(count, size).0);
}

/// Reallocations raise what is mapped if they are answered, and never lower it.
pub proof fn law_allocated_realloc(v: OrisnikView, ptr: u64, size: int, al: int)
    requires
        v.ok(),
        v.live(ptr as int),
        0 <= size,
        orisnik_model::valid_alignment(al),
    ensures
        raised(v, v.realloc(Some(ptr), size).0, v.realloc(Some(ptr), size).1 is Some),
        raised(
            v,
            v.realloc_aligned(Some(ptr), size, al).0,
            v.realloc_aligned(Some(ptr), size, al).1 is Some,
        ),
{
    orisnik_laws::law_free(v, ptr as int);
    orisnik_laws::law_realloc(v, ptr, size);
    orisnik_laws::law_realloc_aligned(v, ptr, size, al);
    law_allocated(v);
    law_allocated(v.realloc(Some(ptr), size).0);
    law_allocated(v.realloc_aligned(Some(ptr), size, al).0);
}

/// A purge lists what it gives up for the caller to return: behind what is listed already,
/// each mapping that was held and is held no longer, once. They have as many bytes as the
/// count falls by, and none of them is of a payload in use.
pub proof fn law_purge_lists(v: OrisnikView)
    requires
        v.ok(),
    ensures
        ({
            let w = v.purged();
            let gone = w.os.released.skip(v.os.released.len() as int);
            &&& w.os.released == v.os.released + gone
            &&& gone.no_duplicates()
            &&& forall|m: Mapping| #[trigger]
                gone.contains(m) <==> v.os.held.contains(m) && !w.os.held.contains(m)
            &&& forall|m: Mapping| #[trigger] w.os.held.contains(m) ==> v.os.held.contains(m)
            &&& w.os.grants == v.os.grants
            &&& w.os.wanted == v.os.wanted
            &&& tree_model::total(gone) == v.allocated() - w.allocated()
            &&& tree_model::total(w.os.released) - tree_model::total(v.os.released) == v.allocated()
                - w.allocated()
            &&& forall|m: Mapping, q: int|
                #![trigger gone.contains(m), v.live(q)]
                gone.contains(m) && v.live(q) ==> q + v.usable(q) <= m.base || m.base + m.len <= q
        }),
{
    let w = v.purged();
    let n = v.os.released.len() as int;
    let gone = w.os.released.skip(n);
    orisnik_laws::law_purge(v);
    reveal(os::lists_gone);
    assert(w.os.released =~= v.os.released + gone) by {
        assert(w.os.released =~= w.os.released.take(n) + gone);
    }
    assert(v.os.ok() && w.os.ok()) by {
        reveal(OrisnikView::ok);
        reveal(tree_model::agree);
    }
    lemma_held_once(v.os);
    lemma_held_once(w.os);
    let all = w.os.held + gone;
    assert forall|m: Mapping| #[trigger] all.contains(m) <==> v.os.held.contains(m) by {
        if w.os.held.contains(m) {
            assert(all[w.os.held.index_of(m)] == m);
        }
        if gone.contains(m) {
            assert(all[w.os.held.len() + gone.index_of(m)] == m);
        }
    }
    assert(all.no_duplicates()) by {
        assert forall|i: int, j: int| 0 <= i < j < all.len() implies all[i] != all[j] by {
            let l = w.os.held.len() as int;
            if j >= l && i < l {
                assert(w.os.held.contains(w.os.held[i]));
                assert(gone.contains(gone[j - l]));
            }
        }
    }
    lemma_total_among(all, v.os.held);
    lemma_total_among(v.os.held, all);
    lemma_total_concat(w.os.held, gone);
    lemma_total_concat(v.os.released, gone);
    law_allocated(v);
    law_allocated(w);
    assert forall|m: Mapping, q: int|
        #![trigger gone.contains(m), v.live(q)]
        gone.contains(m) && v.live(q) implies q + v.usable(q) <= m.base || m.base + m.len <= q by {
        assert(w.live(q));
        assert(w.usable(q) == v.usable(q));
        orisnik_laws::law_live(w, q);
        let h = choose|h: Mapping| #[trigger]
            w.os.held.contains(h) && !w.os.grants.contains(h) && h.base <= q && q + w.usable(q)
                <= h.end();
        assert(v.os.held.contains(h));
        v.os.lemma_held_apart(m, h);
    }
}

/// Giving a payload back and changing its size in place leave what is mapped as it is, and so
/// does a mapping that is handed over. Only a purge can lower it.
pub proof fn law_allocated_other(v: OrisnikView, ptr: u64, size: int, m: Mapping)
    requires
        v.ok(),
        0 <= size,
    ensures
        v.live(ptr as int) ==> v.freed(ptr as int).allocated() == v.allocated(),
        v.live(ptr as int) ==> v.resized(Some(ptr), size).allocated() == v.allocated(),
        v.os.accepts(m) ==> (OrisnikView { os: v.os.granted(m), ..v }).allocated() == v.allocated(),
        v.purged().allocated() <= v.allocated(),
{
    if v.live(ptr as int) {
        orisnik_laws::law_free(v, ptr as int);
        orisnik_laws::law_resize(v, ptr, size);
    }
    orisnik_laws::law_purge(v);
}

} // verus!
