//! What a purge of the large-block heap promises.

use crate::block;
use crate::block::HEADER_SIZE;
use crate::heap;
use crate::os;
use crate::os::{Mapping, OsView, PAGE_SIZE};
use crate::page::MAX_SMALL_ALLOCATION;
use crate::tree_laws;
use crate::tree_model;
use crate::tree_model::{TreeView, MIN_PURGEABLE};
use crate::tree_steps;
use vstd::prelude::*;

verus! {

/// What the system holds besides the arenas stays held.
pub open spec fn spares(v: TreeView, o: OsView, o1: OsView) -> bool {
    &&& o1.grants == o.grants
    &&& forall|h: Mapping| o.held.contains(h) && !v.mapped.contains(h) ==> #[trigger] o1.held.contains(h)
}

/// What is held afterwards was held before, and an arena of it is still an arena: the arenas
/// that have gone are no longer held.
pub open spec fn gives_back(v: TreeView, w: TreeView, o: OsView, o1: OsView) -> bool {
    forall|h: Mapping| #[trigger]
        o1.held.contains(h) ==> o.held.contains(h) && (v.mapped.contains(h) ==> w.mapped.contains(h))
}

/// Nothing but whole arenas without a payload in use has gone.
spec fn thinned(v: TreeView, w: TreeView) -> bool {
    &&& forall|c: int|
        #![trigger w.blocks.contains_key(c)]
        w.blocks.contains_key(c) ==> v.blocks.contains_key(c) && w.blocks[c] == v.blocks[c]
    &&& forall|c: int|
        #![trigger w.blocks.contains_key(c)]
        heap::ordinary(v.blocks, c) && v.blocks[c].used ==> w.blocks.contains_key(c)
    &&& forall|h: Mapping| #[trigger] w.mapped.contains(h) ==> v.mapped.contains(h)
    &&& forall|b: int| #[trigger]
        w.arenas.contains_key(b) ==> v.arenas.contains_key(b) && w.arenas[b] == v.arenas[b]
}

/// What has gone in two steps has gone in both.
proof fn lemma_thinned(v: TreeView, u: TreeView, w: TreeView)
    requires
        thinned(v, u),
        thinned(u, w),
    ensures
        thinned(v, w),
{
    assert forall|c: int|
        #![trigger w.blocks.contains_key(c)]
        w.blocks.contains_key(c) implies v.blocks.contains_key(c) && w.blocks[c] == v.blocks[c] by {
        assert(u.blocks.contains_key(c));
    }
    assert forall|c: int|
        #![trigger w.blocks.contains_key(c)]
        heap::ordinary(v.blocks, c) && v.blocks[c].used implies w.blocks.contains_key(c) by {
        assert(u.blocks.contains_key(c));
    }
    assert forall|h: Mapping| #[trigger] w.mapped.contains(h) implies v.mapped.contains(h) by {
        assert(u.mapped.contains(h));
    }
    assert forall|b: int| #[trigger] w.arenas.contains_key(b) implies v.arenas.contains_key(b)
        && w.arenas[b] == v.arenas[b] by {
        assert(u.arenas.contains_key(b));
    }
}

/// No node up to index `k` fills its arena.
spec fn none_sole(w: TreeView, nodes: Seq<int>, k: int) -> bool {
    forall|i: int|
        0 <= i < k ==> !w.blocks.contains_key(#[trigger] nodes[i] - HEADER_SIZE) || !heap::sole(
            w.blocks,
            nodes[i] - HEADER_SIZE,
        )
}

/// Whether a free block fills its arena does not change as long as it is there.
proof fn lemma_sole_same(u: TreeView, w: TreeView, a: int)
    requires
        heap::heap_ok(u.blocks, u.arenas),
        heap::heap_ok(w.blocks, w.arenas),
        w.blocks.contains_key(a),
        !w.blocks[a].used,
        forall|c: int|
            #![trigger w.blocks.contains_key(c)]
            w.blocks.contains_key(c) ==> u.blocks.contains_key(c) && w.blocks[c] == u.blocks[c],
    ensures
        heap::sole(w.blocks, a) == heap::sole(u.blocks, a),
{
    heap::lemma_free_is_real(w.blocks, w.arenas, a);
    heap::lemma_neighbours(w.blocks, w.arenas, a);
    assert(w.blocks.contains_key(w.blocks[a].prev));
    assert(w.blocks.contains_key(block::next_of(w.blocks, a)));
}

/// One step of the walk keeps what the walk has found so far.
proof fn lemma_step(u: TreeView, o: OsView, kept: Seq<int>, rest: Seq<int>)
    requires
        tree_steps::purging(u, o, kept, rest),
        rest.len() > 0,
    ensures
        ({
            let a = rest[0] - HEADER_SIZE;
            let (w, o1) = u.purged_block(o, a);
            &&& exists|k: Seq<int>| tree_steps::purging(w, o1, k, rest.skip(1))
            &&& thinned(u, w)
            &&& spares(u, o, o1)
            &&& gives_back(u, w, o, o1)
            &&& os::lists_gone(o, o1)
            &&& !w.blocks.contains_key(a) || !heap::sole(w.blocks, a)
        }),
{
    let a = rest[0] - HEADER_SIZE;
    let (w, o1) = u.purged_block(o, a);
    u.index.lemma_members();
    assert(u.index.members()[kept.len() as int] == rest[0]);
    assert(u.index.members().contains(rest[0]));
    tree_steps::lemma_purged_block(u, o, kept, rest);
    let kept1 = if heap::sole(u.blocks, a) {
        kept
    } else {
        kept.push(rest[0])
    };
    assert(tree_steps::purging(w, o1, kept1, rest.skip(1)));
    if heap::sole(u.blocks, a) {
        let arena = u.arena_of(a);
        assert(heap::heap_ok(u.blocks, u.arenas)) by {
            reveal(TreeView::ok);
        }
        heap::lemma_neighbours(u.blocks, u.arenas, a);
        assert(o.ok()) by {
            reveal(tree_model::agree);
        }
        o.lemma_unmapped(arena);
        os::lemma_lists_one(o, arena);
        let j = u.mapped.index_of(arena);
        assert forall|h: Mapping| #[trigger] w.mapped.contains(h) implies u.mapped.contains(h) by {
            let i = w.mapped.index_of(h);
            assert(u.mapped[if i < j { i } else { i + 1 }] == h);
        }
        assert forall|h: Mapping| #[trigger] o1.held.contains(h) implies o.held.contains(h) && (
        u.mapped.contains(h) ==> w.mapped.contains(h)) by {
            if u.mapped.contains(h) {
                let i = u.mapped.index_of(h);
                assert(w.mapped[if i < j { i } else { i - 1 }] == h);
            }
        }
        assert forall|c: int|
            #![trigger w.blocks.contains_key(c)]
            heap::ordinary(u.blocks, c) && u.blocks[c].used implies w.blocks.contains_key(c) by {}
        assert forall|c: int|
            #![trigger w.blocks.contains_key(c)]
            w.blocks.contains_key(c) implies u.blocks.contains_key(c) && w.blocks[c] == u.blocks[c] by {}
    } else {
        os::lemma_lists_none(o);
    }
}

/// The walk over the nodes keeps the payloads in use and leaves no node that fills its
/// arena.
proof fn lemma_purged_nodes(v: TreeView, o: OsView, kept0: Seq<int>, nodes: Seq<int>, k: int)
    requires
        tree_steps::purging(v, o, kept0, nodes),
        0 <= k <= nodes.len(),
        forall|i: int| 0 <= i < nodes.len() ==> v.index.keys.contains_key(#[trigger] nodes[i]),
    ensures
        ({
            let (w, o1) = v.purged_nodes(o, nodes.take(k));
            &&& exists|kept: Seq<int>| tree_steps::purging(w, o1, kept, nodes.skip(k))
            &&& thinned(v, w)
            &&& spares(v, o, o1)
            &&& gives_back(v, w, o, o1)
            &&& os::lists_gone(o, o1)
            &&& none_sole(w, nodes, k)
        }),
    decreases k,
{
    if k == 0 {
        assert(nodes.take(0) =~= Seq::empty());
        assert(nodes.skip(0) =~= nodes);
        assert(tree_steps::purging(v, o, kept0, nodes.skip(0)));
        os::lemma_lists_none(o);
    } else {
        lemma_purged_nodes(v, o, kept0, nodes, k - 1);
        let (u, o0) = v.purged_nodes(o, nodes.take(k - 1));
        let rest = nodes.skip(k - 1);
        let kept = choose|kept: Seq<int>| tree_steps::purging(u, o0, kept, rest);
        assert(rest[0] == nodes[k - 1]);
        assert(nodes.take(k).drop_last() =~= nodes.take(k - 1));
        assert(nodes.take(k).last() == nodes[k - 1]);
        let (w, o1) = v.purged_nodes(o, nodes.take(k));
        lemma_step(u, o0, kept, rest);
        os::lemma_lists_both(o, o0, o1);
        assert(rest.skip(1) =~= nodes.skip(k));
        lemma_thinned(v, u, w);
        assert forall|h: Mapping| o.held.contains(h) && !v.mapped.contains(h) implies #[trigger] o1.held.contains(
            h,
        ) by {
            assert(o0.held.contains(h));
        }
        assert forall|h: Mapping| #[trigger] o1.held.contains(h) implies o.held.contains(h) && (
        v.mapped.contains(h) ==> w.mapped.contains(h)) by {
            assert(o0.held.contains(h));
        }
        let kept1 = choose|kept: Seq<int>| tree_steps::purging(w, o1, kept, rest.skip(1));
        assert(tree_steps::purging(w, o1, kept1, nodes.skip(k)));
        reveal(TreeView::ok);
        assert forall|i: int| 0 <= i < k implies !w.blocks.contains_key(#[trigger] nodes[i] - HEADER_SIZE)
            || !heap::sole(w.blocks, nodes[i] - HEADER_SIZE) by {
            let b = nodes[i] - HEADER_SIZE;
            if i < k - 1 && w.blocks.contains_key(b) {
                assert(u.blocks.contains_key(b));
                assert(v.index.keys.contains_key(nodes[i]));
                assert(!v.blocks[b].used);
                lemma_sole_same(u, w, b);
            }
        }
    }
}

/// In an arena without a payload in use one free block lies between the fences.
proof fn lemma_unused_arena(w: TreeView, base: int) -> (a: int)
    requires
        w.ok(),
        w.arenas.contains_key(base),
        base % 64 == 0,
    ensures
        heap::ordinary(w.blocks, a),
        base < a < base + w.arenas[base],
        w.blocks[a].used || (heap::sole(w.blocks, a) && w.blocks[a].size >= w.arenas[base] - 3
            * HEADER_SIZE - 32),
{
    reveal(TreeView::ok);
    reveal(heap::heap_ok);
    let b = w.blocks;
    let ar = w.arenas;
    assert(heap::arena_ok(b, ar, base));
    assert(heap::block_ok(b, base));
    let n0 = block::next_of(b, base);
    assert(b.contains_key(n0) && b[n0].prev == base);
    assert(heap::block_ok(b, n0));
    let home = choose|x: int| heap::home(b, ar, x, n0);
    assert(heap::home(b, ar, home, n0));
    assert(home == base) by {
        assert(ar.contains_key(home) && ar.contains_key(base));
        assert(heap::arena_ok(b, ar, home));
    }
    assert(!heap::closing(b, n0));
    assert(heap::ordinary(b, n0));
    if b[n0].used {
        n0
    } else {
        assert(w.quiet(n0));
        heap::lemma_neighbours(b, ar, n0);
        let n1 = block::next_of(b, n0);
        assert(heap::block_ok(b, n1));
        assert(b.contains_key(n1));
        let home1 = choose|x: int| heap::home(b, ar, x, n1);
        assert(heap::home(b, ar, home1, n1));
        let end = base + ar[base] - HEADER_SIZE;
        assert(n1 <= end) by {
            assert(heap::spaced(b, n0, end));
        }
        if heap::ordinary(b, n1) {
            n1
        } else {
            assert(heap::sole(b, n0));
            heap::lemma_without_arena(b, ar, n0);
            n0
        }
    }
}

/// A purge keeps every payload in use and gives every arena without one back to the
/// system: each arena that remains has a payload in use, with none in use no byte stays
/// mapped, and what has gone is listed for return.
pub proof fn law_purged(v: TreeView, o: OsView)
    requires
        v.ok(),
        tree_model::agree(v, o),
        v.all_mapped(),
    ensures
        ({
            let (w, o1) = v.purged(o);
            &&& w.ok()
            &&& tree_model::agree(w, o1)
            &&& w.all_mapped()
            &&& spares(v, o, o1)
            &&& gives_back(v, w, o, o1)
            &&& os::lists_gone(o, o1)
            &&& forall|h: Mapping| #[trigger] w.mapped.contains(h) ==> v.mapped.contains(h)
            &&& forall|q: int|
                #![trigger w.live(q)]
                #![trigger v.live(q)]
                w.live(q) <==> v.live(q)
            &&& forall|q: int| #![trigger w.usable(q)] v.live(q) ==> w.usable(q) == v.usable(q)
            &&& forall|base: int| #[trigger]
                w.arenas.contains_key(base) ==> exists|q: int| #[trigger]
                    w.live(q) && base < q <= base + w.arenas[base]
            &&& (forall|q: int| !#[trigger] v.live(q)) ==> tree_model::total(w.mapped) == 0
        }),
{
    tree_laws::lemma_index(v);
    let f = v.attached(None);
    let nodes = f.index.members_from(MIN_PURGEABLE as int);
    let (w, o1) = v.purged(o);
    tree_steps::lemma_flushed(v);
    assert(v.sound() && heap::heap_ok(v.blocks, v.arenas)) by {
        reveal(TreeView::ok);
    }
    tree_steps::lemma_attached(v, None);
    tree_model::lemma_agree_same(v, f, o);
    tree_laws::lemma_index(f);
    f.index.lemma_members_from(MIN_PURGEABLE as int);
    f.index.lemma_members();
    let all = f.index.members();
    let kept0 = all.take(all.len() - nodes.len());
    assert(all =~= kept0 + nodes);
    assert(tree_steps::purging(f, o, kept0, nodes));
    assert forall|i: int| 0 <= i < nodes.len() implies f.index.keys.contains_key(#[trigger] nodes[i]) by {
        assert(nodes.contains(nodes[i]));
    }
    let k = nodes.len() as int;
    lemma_purged_nodes(f, o, kept0, nodes, k);
    assert(nodes.take(k) =~= nodes);
    let kept = choose|kept: Seq<int>| tree_steps::purging(w, o1, kept, nodes.skip(k));
    assert(tree_steps::purging(w, o1, kept, nodes.skip(k)));
    assert forall|q: int| #![trigger w.live(q)] #![trigger v.live(q)] w.live(q) <==> v.live(q) by {
        let c = q - HEADER_SIZE;
        assert(w.blocks.contains_key(c) ==> w.blocks[c] == f.blocks[c]);
    }
    assert forall|q: int| #![trigger w.usable(q)] v.live(q) implies w.usable(q) == v.usable(q) by {
        assert(w.live(q));
        assert(w.blocks.contains_key(q - HEADER_SIZE));
    }
    assert forall|base: int| #[trigger] w.arenas.contains_key(base) implies exists|q: int| #[trigger]
        w.live(q) && base < q <= base + w.arenas[base] by {
        assert(base % PAGE_SIZE as int == 0 && w.arenas[base] >= PAGE_SIZE) by {
            reveal(TreeView::all_mapped);
            reveal(TreeView::ok);
            let i = choose|i: int| 0 <= i < w.mapped.len() && (#[trigger] w.mapped[i]).base == base;
            assert(w.mapped[i].ok());
        }
        let a = lemma_unused_arena(w, base);
        if !w.blocks[a].used {
            reveal(TreeView::ok);
            assert(w.blocks.contains_key(a) && f.blocks.contains_key(a));
            assert(f.indexed(a));
            let m = a + HEADER_SIZE;
            if f.small.contains(m) {
                assert(f.blocks[m - HEADER_SIZE].size <= MAX_SMALL_ALLOCATION);
            }
            assert(f.index.keys.contains_key(m));
            assert(f.index.keys[m] == f.blocks[m - HEADER_SIZE].size);
            assert(nodes.contains(m));
            let i = nodes.index_of(m);
            assert(nodes[i] == m);
            assert(w.blocks.contains_key(nodes[i] - HEADER_SIZE));
        }
        assert(w.live(a + HEADER_SIZE)) by {
            reveal(TreeView::ok);
        }
        lemma_in_arena(w, base, a);
    }
    if forall|q: int| !#[trigger] v.live(q) {
        assert(w.mapped.len() == 0) by {
            reveal(TreeView::ok);
            if w.mapped.len() > 0 {
                let base = w.mapped[0].base as int;
                assert(w.arenas.contains_key(base));
                let q = choose|q: int| #[trigger] w.live(q) && base < q <= base + w.arenas[base];
                assert(v.live(q));
            }
        }
    }
}

/// The payload of a block of an arena starts within it.
proof fn lemma_in_arena(w: TreeView, base: int, a: int)
    requires
        w.ok(),
        w.arenas.contains_key(base),
        heap::ordinary(w.blocks, a),
        base < a < base + w.arenas[base],
    ensures
        a + HEADER_SIZE <= base + w.arenas[base],
{
    assert(heap::heap_ok(w.blocks, w.arenas)) by {
        reveal(TreeView::ok);
    }
    heap::lemma_block(w.blocks, w.arenas, a);
    assert(heap::arena_ok(w.blocks, w.arenas, base)) by {
        reveal(heap::heap_ok);
    }
}

} // verus!
