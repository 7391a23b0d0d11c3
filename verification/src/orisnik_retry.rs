//! What a request that lacks memory tells, and that it is answered once it has it.

use crate::block::DEFAULT_ALIGNMENT;
use crate::orisnik_calls;
use crate::orisnik_laws;
use crate::orisnik_model;
use crate::orisnik_model::OrisnikView;
use crate::os;
use crate::os::{Mapping, OsView, PAGE_SIZE};
use crate::page::MAX_SMALL_ALLOCATION;
use crate::tree_laws;
use crate::tree_model;
use crate::tree_model::MAX_ALLOCATION;
use vstd::prelude::*;

verus! {

/// How many bytes the system has to serve for a request of `size` bytes that neither path
/// can answer from what it has.
pub open spec fn lacking(size: int) -> int {
    if size <= MAX_SMALL_ALLOCATION {
        PAGE_SIZE as int
    } else {
        tree_model::arena_len(tree_model::normalized(size)->0)
    }
}

/// The same for a request at a multiple of `alignment`.
pub open spec fn lacking_aligned(size: int, alignment: int) -> int {
    if alignment <= DEFAULT_ALIGNMENT {
        lacking(size)
    } else if size <= MAX_SMALL_ALLOCATION && alignment <= MAX_SMALL_ALLOCATION {
        PAGE_SIZE as int
    } else {
        tree_model::arena_len(tree_model::normalized(size)->0 + alignment)
    }
}

/// Whether a request of `size` bytes at a multiple of `alignment` is within the limit.
pub open spec fn within(size: int, alignment: int) -> bool {
    &&& 0 < size <= MAX_ALLOCATION
    &&& alignment > DEFAULT_ALIGNMENT && (size > MAX_SMALL_ALLOCATION || alignment
        > MAX_SMALL_ALLOCATION) ==> tree_model::normalized(size)->0 + alignment <= MAX_ALLOCATION
}

/// The state `v` after a request that lacks `len` bytes.
pub open spec fn wanting(v: OrisnikView, len: int) -> OrisnikView {
    OrisnikView { os: OsView { wanted: Some(len), ..v.os }, ..v }
}

/// The state `v` with the mapping `m` handed over.
pub open spec fn granted(v: OrisnikView, m: Mapping) -> OrisnikView {
    OrisnikView { os: v.os.granted(m), ..v }
}

/// A mapping that is handed over can be served.
proof fn lemma_granted(v: OrisnikView, m: Mapping, len: int)
    requires
        v.ok(),
        v.os.accepts(m),
        len == m.len,
    ensures
        granted(wanting(v, len), m).ok(),
        granted(wanting(v, len), m).os.can_map(len),
{
    let w = wanting(v, len);
    assert(w.os.ok()) by {
        reveal(OrisnikView::ok);
        reveal(tree_model::agree);
        reveal(OsView::ok);
    }
    orisnik_model::lemma_notes(v, w.os);
    orisnik_model::lemma_granted(w, m);
    let g = w.os.granted(m).grants;
    os::lemma_first_of_len(g, len);
    assert(g[g.len() - 1] == m);
}

/// A request that is not answered for want of memory tells how much it lacks and changes
/// nothing else, and once the caller has handed that much over, it is answered.
pub proof fn law_retry(v: OrisnikView, size: int, m: Mapping)
    requires
        v.ok(),
        0 < size <= MAX_ALLOCATION,
        v.alloc_bytes(size).1 is None,
        v.os.accepts(m),
        m.len == lacking(size),
    ensures
        ({
            let w = v.alloc_bytes(size).0;
            &&& w == wanting(v, lacking(size))
            &&& granted(w, m).ok()
            &&& granted(w, m).alloc_bytes(size).1 is Some
        }),
{
    lemma_granted(v, m, lacking(size));
}

/// The same for an aligned request.
pub proof fn law_retry_aligned(v: OrisnikView, size: int, al: int, m: Mapping)
    requires
        v.ok(),
        orisnik_model::valid_alignment(al),
        within(size, al),
        v.alloc_aligned(size, al).1 is None,
        v.os.accepts(m),
        m.len == lacking_aligned(size, al),
    ensures
        ({
            let w = v.alloc_aligned(size, al).0;
            &&& w == wanting(v, lacking_aligned(size, al))
            &&& granted(w, m).ok()
            &&& granted(w, m).alloc_aligned(size, al).1 is Some
        }),
{
    lemma_granted(v, m, lacking_aligned(size, al));
}

/// How many bytes the system has to serve for the payload at `ptr` to hold `size` bytes.
pub open spec fn lacking_move(v: OrisnikView, ptr: int, size: int) -> int {
    if v.buckets.owns(ptr) {
        lacking(size)
    } else {
        tree_model::arena_len(tree_model::normalized(size)->0)
    }
}

/// The same for a reallocation.
pub proof fn law_retry_realloc(v: OrisnikView, ptr: u64, size: int, m: Mapping)
    requires
        v.ok(),
        v.live(ptr as int),
        0 < size,
        tree_model::normalized(size) matches Some(n) && n <= MAX_ALLOCATION,
        v.realloc(Some(ptr), size).1 is None,
        v.os.accepts(m),
        m.len == lacking_move(v, ptr as int, size),
    ensures
        ({
            let w = v.realloc(Some(ptr), size).0;
            &&& w == wanting(v, lacking_move(v, ptr as int, size))
            &&& granted(w, m).ok()
            &&& granted(w, m).realloc(Some(ptr), size).1 is Some
        }),
{
    let len = lacking_move(v, ptr as int, size);
    lemma_granted(v, m, len);
    lemma_renormalized(size);
}

/// A served size is served as it is.
pub proof fn lemma_renormalized(size: int)
    requires
        0 <= size,
        tree_model::normalized(size) matches Some(n) && n <= MAX_ALLOCATION,
    ensures
        tree_model::normalized(tree_model::normalized(size)->0) == tree_model::normalized(size),
{
    tree_laws::law_normalized(size);
    let n = tree_model::normalized(size)->0;
    tree_laws::law_normalized(n);
}

/// How many bytes the system has to serve for the payload at `ptr` to hold `size` bytes at a
/// multiple of `alignment`.
pub open spec fn lacking_move_aligned(v: OrisnikView, ptr: int, size: int, alignment: int) -> int {
    if alignment <= DEFAULT_ALIGNMENT {
        lacking_move(v, ptr, size)
    } else if v.buckets.owns(ptr) || ptr % alignment != 0 {
        lacking_aligned(size, alignment)
    } else {
        tree_model::arena_len(tree_model::normalized(size)->0 + alignment)
    }
}

/// The same for an aligned reallocation.
#[verifier::rlimit(40)]
pub proof fn law_retry_realloc_aligned(v: OrisnikView, ptr: u64, size: int, al: int, m: Mapping)
    requires
        v.ok(),
        v.live(ptr as int),
        orisnik_model::valid_alignment(al),
        0 < size,
        tree_model::normalized(size) matches Some(n) && n + al <= MAX_ALLOCATION,
        v.realloc_aligned(Some(ptr), size, al).1 is None,
        v.os.accepts(m),
        m.len == lacking_move_aligned(v, ptr as int, size, al),
    ensures
        ({
            let w = v.realloc_aligned(Some(ptr), size, al).0;
            &&& w == wanting(v, lacking_move_aligned(v, ptr as int, size, al))
            &&& granted(w, m).ok()
            &&& granted(w, m).realloc_aligned(Some(ptr), size, al).1 is Some
        }),
{
    let len = lacking_move_aligned(v, ptr as int, size, al);
    let (w, r) = v.realloc_aligned(Some(ptr), size, al);
    orisnik_calls::law_realloc_aligned_effect(v, ptr, size, al);
    orisnik_laws::law_realloc_aligned(v, ptr, size, al);
    assert(w == wanting(v, len));
    lemma_granted(v, m, len);
    let g = granted(w, m);
    assert(lacking_move_aligned(g, ptr as int, size, al) == len);
    orisnik_laws::law_realloc_aligned(g, ptr, size, al);
    tree_laws::law_normalized(size);
}

} // verus!
