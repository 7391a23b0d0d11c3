//! What the operations on the large-block heap promise.

use crate::align;
use crate::block;
use crate::block::{FREE_NODE_SIZE, HEADER_SIZE};
use crate::heap;
use crate::heap::MIN_PAYLOAD;
use crate::os;
use crate::os::{OsView, ADDRESS_LIMIT, PAGE_SIZE};
use crate::page::MAX_SMALL_ALLOCATION;
use crate::tree_model;
use crate::tree_model::{TreeView, MAX_ALLOCATION, SPLIT_REMAINDER_MIN};
use crate::tree_steps;
use vstd::arithmetic::power2;
use vstd::prelude::*;

verus! {

/// A served size is a multiple of a header, holds an index node, and is at least what was
/// asked for and less than a header above it.
pub proof fn law_normalized(size: int)
    requires
        0 <= size,
    ensures
        tree_model::normalized(size) is None <==> size > MAX_ALLOCATION,
        tree_model::normalized(size) matches Some(n) ==> {
            &&& n % 16 == 0
            &&& n >= MIN_PAYLOAD
            &&& n >= size
            &&& n <= MAX_ALLOCATION + 1
            &&& size >= FREE_NODE_SIZE ==> n < size + HEADER_SIZE
            &&& size < FREE_NODE_SIZE ==> n == MIN_PAYLOAD
        },
{
    if size <= MAX_ALLOCATION {
        let s = if size < FREE_NODE_SIZE { FREE_NODE_SIZE as int } else { size };
        align::lemma_rounded_up(s, HEADER_SIZE as int);
    }
}

/// The index of a heap in order is in order.
pub proof fn lemma_index(v: TreeView)
    requires
        v.ok(),
    ensures
        v.index.ok(),
{
    reveal(TreeView::ok);
    reveal(tree_model::index_ok);
}

/// The block that is chosen is free and large enough; where it is not the most recently
/// freed one, no block of the tree that is large enough is smaller; and where none is
/// chosen, none of the tree is large enough.
pub proof fn law_best_fit(v: TreeView, n: int)
    requires
        v.ok(),
    ensures
        v.fit(n) matches Some(a) ==> {
            &&& v.indexed(a)
            &&& v.blocks[a].size >= n
            &&& v.mr != Some(a) ==> forall|m: int| #[trigger]
                v.index.keys.contains_key(m) && v.index.keys[m] >= n ==> v.blocks[a].size
                    <= v.index.keys[m]
        },
        v.fit(n) is None ==> forall|m: int| #[trigger]
            v.index.keys.contains_key(m) ==> v.index.keys[m] < n,
        v.fit(n) is None ==> (v.mr matches Some(a) ==> v.blocks[a].size < n),
{
    lemma_index(v);
    reveal(TreeView::ok);
    reveal(TreeView::ok_but);
    v.index.lemma_lower_exists(n);
    let p = v.index.lower(n);
    if p < v.index.groups.len() {
        let r = v.index.groups[p][0];
        assert(v.index.groups[p].len() > 0);
        assert(v.index.at(r, p, 0));
        v.index.lemma_locate(r, p, 0);
        let j = crate::rbshape::ring_next(0, v.index.groups[p].len() as int);
        let m = v.index.groups[p][j];
        assert(v.index.at(m, p, j));
        assert(v.index.keys.contains_key(m));
        assert(v.index.keys[m] == v.index.key_of(p));
        assert forall|k: int| #[trigger] v.index.keys.contains_key(k) && v.index.keys[k] >= n implies v.index.key_of(p)
            <= v.index.keys[k] by {
            let (kp, ki) = choose|kp: int, ki: int| v.index.at(k, kp, ki);
            assert(v.index.at(k, kp, ki));
            assert(v.index.keys[k] == v.index.key_of(kp));
            if kp < p {
                assert(v.index.key_of(kp) < n);
            }
        }
    } else {
        assert forall|k: int| #[trigger] v.index.keys.contains_key(k) implies v.index.keys[k] < n by {
            let (kp, ki) = choose|kp: int, ki: int| v.index.at(k, kp, ki);
            assert(v.index.at(k, kp, ki));
            assert(v.index.keys[k] == v.index.key_of(kp));
            assert(v.index.key_of(kp) < n);
        }
    }
}

/// A request keeps every payload in use as it is. Where it is answered, the answer is a
/// payload of at least the size asked for, and of little more, that was not in use before;
/// where it is not, the heap is unchanged.
pub proof fn law_served(v: TreeView, o: OsView, size: int)
    requires
        v.ok(),
        tree_model::agree(v, o),
        0 <= size,
    ensures
        ({
            let (w, o1, r) = v.served(o, size);
            &&& w.ok()
            &&& tree_model::agree(w, o1)
            &&& v.all_mapped() ==> w.all_mapped()
            &&& forall|q: int|
                #![trigger w.live(q)]
                #![trigger v.live(q)]
                v.live(q) ==> w.live(q) && w.usable(q) == v.usable(q)
            &&& r is None ==> w == v
            &&& r matches Some(ptr) ==> {
                &&& w.live(ptr)
                &&& !v.live(ptr)
                &&& ptr % 16 == 0
                &&& w.usable(ptr) >= size
                &&& tree_model::snug(w.usable(ptr), size)
                &&& forall|q: int|
                    #![trigger w.live(q)]
                    w.live(q) ==> v.live(q) || q == ptr
            }
        }),
{
    reveal(tree_model::snug);
    lemma_index(v);
    reveal(TreeView::ok);
    reveal(TreeView::ok_but);
    let (w, o1, r) = v.served(o, size);
    law_normalized(size);
    tree_model::lemma_agree_fresh(v, o, 0);
    if let Some(n) = tree_model::normalized(size) {
        law_best_fit(v, n);
        if let Some(a) = v.fit(n) {
            tree_steps::lemma_detach_ok(v, a);
            let d = v.detached(a);
            lemma_taken_live(d, a, n);
            tree_steps::lemma_taken_arenas(d, a, n);
            tree_model::lemma_agree_same(v, w, o);
            assert forall|q: int| #![trigger w.live(q)] #![trigger v.live(q)] v.live(q) implies w.live(q)
                && w.usable(q) == v.usable(q) by {
                assert(d.live(q));
            }
            assert forall|q: int| #![trigger w.live(q)] w.live(q) implies v.live(q) || Some(q) == r by {
                assert(d.live(q) <==> v.live(q));
            }
        } else {
            let len = tree_model::arena_len(n);
            align::lemma_rounded_up(n + 3 * HEADER_SIZE, PAGE_SIZE as int);
            tree_model::lemma_agree_fresh(v, o, len);
            if o.can_map(len) {
                let m = o.grants[os::first_of_len(o.grants, len)];
                tree_steps::lemma_grown(v, m);
                let d = v.grown(m);
                let a = m.base + HEADER_SIZE;
                lemma_taken_live(d, a, n);
                tree_steps::lemma_agree_grown(v, o, m);
                tree_steps::lemma_taken_arenas(d, a, n);
                tree_model::lemma_agree_same(d, w, o1);
                assert forall|q: int| #![trigger w.live(q)] #![trigger v.live(q)] v.live(q) implies w.live(q)
                    && w.usable(q) == v.usable(q) by {
                    assert(d.blocks.contains_key(q - HEADER_SIZE));
                    assert(d.live(q));
                }
                assert forall|q: int| #![trigger w.live(q)] w.live(q) implies v.live(q) || Some(q) == r by {
                    assert(d.live(q) ==> v.live(q)) by {
                        assert(d.blocks.contains_key(q - HEADER_SIZE) || !d.live(q));
                    }
                }
                heap::lemma_free_is_real(d.blocks, d.arenas, a);
                if v.live(a + HEADER_SIZE) {
                    assert(d.blocks.contains_key(a));
                }
            }
        }
    }
}

/// Whether index `i` of group `p` comes before index `j` of group `q`.
pub open spec fn sooner(p: int, i: int, q: int, j: int) -> bool {
    p < q || (p == q && i < j)
}

/// What a walk for room finds is a member of the tree that has room, and it is the first:
/// no member that the walk passes before has room. Where it finds nothing, no member up to
/// `q` has room.
pub proof fn lemma_first_roomy(v: TreeView, p: int, i: int, q: int, n: int, al: int)
    requires
        v.index.ok(),
        0 <= p,
        0 <= i,
        q <= v.index.groups.len(),
    ensures
        v.first_roomy(p, i, q, n, al) matches Some(m) ==> {
            let (mp, mi) = v.index.locate(m);
            &&& v.index.keys.contains_key(m)
            &&& v.roomy(m, n, al)
            &&& v.index.at(m, mp, mi)
            &&& mp < q
            &&& forall|k: int, kp: int, ki: int| #[trigger]
                v.index.at(k, kp, ki) && !sooner(kp, ki, p, i) && sooner(kp, ki, mp, mi) ==> !v.roomy(
                    k,
                    n,
                    al,
                )
        },
        v.first_roomy(p, i, q, n, al) is None ==> forall|m: int, kp: int, ki: int| #[trigger]
            v.index.at(m, kp, ki) && kp < q && !sooner(kp, ki, p, i) ==> !v.roomy(m, n, al),
    decreases q - p, v.index.groups[p].len() - i,
{
    if p < q {
        if i >= v.index.groups[p].len() {
            lemma_first_roomy(v, p + 1, 0, q, n, al);
        } else {
            let m = v.index.groups[p][i];
            assert(v.index.at(m, p, i));
            v.index.lemma_locate(m, p, i);
            if !v.roomy(m, n, al) {
                lemma_first_roomy(v, p, i + 1, q, n, al);
            }
        }
    }
}

/// The block that is chosen for an aligned request is free and has room; where it is not the
/// most recently freed one, no block of the tree that has room is smaller; and where none is
/// chosen, no block of the tree has room.
pub proof fn law_fit_aligned(v: TreeView, n: int, al: int)
    requires
        v.ok(),
        power2::is_pow2(al),
    ensures
        v.fit_aligned(n, al) matches Some(a) ==> {
            &&& v.indexed(a)
            &&& v.roomy(a + HEADER_SIZE, n, al)
            &&& v.mr != Some(a) ==> forall|m: int| #[trigger]
                v.index.keys.contains_key(m) && v.roomy(m, n, al) ==> v.blocks[a].size
                    <= v.index.keys[m]
        },
        v.fit_aligned(n, al) is None ==> forall|m: int| #[trigger]
            v.index.keys.contains_key(m) ==> !v.roomy(m, n, al),
        v.fit_aligned(n, al) is None ==> (v.mr matches Some(a) ==> !v.roomy(
            a + HEADER_SIZE,
            n,
            al,
        )),
{
    lemma_index(v);
    v.index.lemma_lower_exists(n);
    v.index.lemma_upper_exists(n + al);
    let p = v.index.lower(n);
    let q = v.index.upper(n + al);
    lemma_first_roomy(v, p, 0, q, n, al);
    if q < v.index.groups.len() {
        let r = v.index.groups[q][0];
        assert(v.index.groups[q].len() > 0);
        assert(v.index.at(r, q, 0));
        v.index.lemma_locate(r, q, 0);
        let j = crate::rbshape::ring_next(0, v.index.groups[q].len() as int);
        let m = v.index.groups[q][j];
        assert(v.index.at(m, q, j));
        v.index.lemma_locate(m, q, j);
        assert(v.index.key_of(q) > n + al);
        lemma_member(v, m, n, al);
    }
    assert forall|k: int| #[trigger] v.index.keys.contains_key(k) && v.roomy(k, n, al) implies {
        let found = v.first_roomy(p, 0, q, n, al);
        &&& found matches Some(m) ==> v.index.keys[m] <= v.index.keys[k]
        &&& found is None ==> q < v.index.groups.len() && v.index.key_of(q) <= v.index.keys[k]
    } by {
        let (kp, ki) = choose|kp: int, ki: int| v.index.at(k, kp, ki);
        assert(v.index.at(k, kp, ki));
        v.index.lemma_locate(k, kp, ki);
        lemma_member(v, k, n, al);
        if kp < p {
            assert(v.index.key_of(kp) < n);
        }
        assert(!sooner(kp, ki, p, 0));
        if let Some(m) = v.first_roomy(p, 0, q, n, al) {
            let (mp, mi) = v.index.locate(m);
            v.index.lemma_locate(m, mp, mi);
            assert(!sooner(kp, ki, mp, mi));
            if mp < kp {
                assert(v.index.key_of(mp) < v.index.key_of(kp));
            }
        } else if q < kp {
            assert(v.index.key_of(q) < v.index.key_of(kp));
        }
    }
    if let Some(m) = v.first_roomy(p, 0, q, n, al) {
        lemma_member(v, m, n, al);
    }
}

/// The size of a member of the tree is its key. It has room only if that is at least the size
/// asked for, and in any case if it is more than size and alignment together.
proof fn lemma_member(v: TreeView, m: int, n: int, al: int)
    requires
        v.ok(),
        v.index.keys.contains_key(m),
        power2::is_pow2(al),
    ensures
        v.blocks[m - HEADER_SIZE].size == v.index.keys[m],
        v.indexed(m - HEADER_SIZE),
        v.roomy(m, n, al) ==> v.index.keys[m] >= n,
        v.index.keys[m] > n + al ==> v.roomy(m, n, al),
{
    reveal(TreeView::ok);
    heap::lemma_free_is_real(v.blocks, v.arenas, m - HEADER_SIZE);
    tree_steps::lemma_offset(m, al);
}

/// An aligned request keeps every payload in use where it is; one that it follows directly
/// may gain up to 48 bytes. Where it is answered, the answer is a multiple of the
/// alignment, at least as large as asked for and little larger, and was not in use before;
/// where it is not, the heap is unchanged.
#[verifier::rlimit(40)]
pub proof fn law_served_aligned(v: TreeView, o: OsView, size: int, al: int)
    requires
        v.ok(),
        tree_model::agree(v, o),
        0 <= size,
        power2::is_pow2(al),
    ensures
        ({
            let (w, o1, r) = v.served_aligned(o, size, al);
            &&& w.ok()
            &&& tree_model::agree(w, o1)
            &&& v.all_mapped() ==> w.all_mapped()
            &&& forall|q: int|
                #![trigger w.live(q)]
                #![trigger v.live(q)]
                v.live(q) ==> w.live(q) && v.usable(q) <= w.usable(q) < v.usable(q)
                    + SPLIT_REMAINDER_MIN
            &&& r is None ==> w == v
            &&& r matches Some(ptr) ==> {
                &&& w.live(ptr)
                &&& !v.live(ptr)
                &&& ptr % 16 == 0
                &&& ptr % al == 0
                &&& w.usable(ptr) >= size
                &&& tree_model::snug(w.usable(ptr), size)
                &&& forall|q: int|
                    #![trigger w.live(q)]
                    w.live(q) ==> v.live(q) || q == ptr
            }
        }),
{
    reveal(tree_model::snug);
    lemma_index(v);
    reveal(TreeView::ok);
    reveal(TreeView::ok_but);
    let (w, o1, r) = v.served_aligned(o, size, al);
    law_normalized(size);
    tree_steps::lemma_alignments(al);
    tree_model::lemma_agree_fresh(v, o, 0);
    if let Some(n) = tree_model::normalized(size) {
        if n + al <= MAX_ALLOCATION {
            law_fit_aligned(v, n, al);
            if let Some(a) = v.fit_aligned(n, al) {
                tree_steps::lemma_detach_ok(v, a);
                let d = v.detached(a);
                lemma_placed_live(d, a, n, al);
                tree_steps::lemma_placed_arenas(d, a, n, al);
                tree_model::lemma_agree_same(v, w, o);
                assert forall|q: int| d.live(q) <==> v.live(q) by {}
                assert forall|q: int| #![trigger v.live(q)] v.live(q) implies w.live(q)
                    && v.usable(q) <= w.usable(q) < v.usable(q) + SPLIT_REMAINDER_MIN by {
                    assert(d.live(q));
                }
            } else {
                let len = tree_model::arena_len(n + al);
                align::lemma_rounded_up(n + al + 3 * HEADER_SIZE, PAGE_SIZE as int);
                tree_model::lemma_agree_fresh(v, o, len);
                if o.can_map(len) {
                    let m = o.grants[os::first_of_len(o.grants, len)];
                    tree_steps::lemma_grown(v, m);
                    let d = v.grown(m);
                    let a = m.base + HEADER_SIZE;
                    heap::lemma_free_is_real(d.blocks, d.arenas, a);
                    tree_steps::lemma_offset(a + HEADER_SIZE, al);
                    lemma_placed_live(d, a, n, al);
                    tree_steps::lemma_agree_grown(v, o, m);
                    tree_steps::lemma_placed_arenas(d, a, n, al);
                    tree_model::lemma_agree_same(d, w, o1);
                    assert forall|q: int| d.live(q) <==> v.live(q) by {
                        let c = q - HEADER_SIZE;
                        assert(d.blocks.contains_key(c) || !d.blocks.contains_key(c));
                    }
                    assert forall|q: int| #![trigger v.live(q)] v.live(q) implies w.live(q)
                        && v.usable(q) <= w.usable(q) < v.usable(q) + SPLIT_REMAINDER_MIN by {
                        assert(d.live(q));
                        assert(d.blocks.contains_key(q - HEADER_SIZE));
                    }
                }
            }
        }
    }
}

/// Placing a free block adds its payload to those in use.
pub proof fn lemma_placed_live(d: TreeView, a: int, n: int, al: int)
    requires
        d.ok_but(a),
        power2::is_pow2(al),
        n % 16 == 0,
        n >= MIN_PAYLOAD,
        d.roomy(a + HEADER_SIZE, n, al),
    ensures
        ({
            let (w, x) = d.placed(a, n, al);
            let ptr = x + HEADER_SIZE;
            &&& w.ok()
            &&& w.live(ptr)
            &&& !d.live(ptr)
            &&& ptr % 16 == 0
            &&& ptr % al == 0
            &&& w.usable(ptr) % 16 == 0
            &&& n <= w.usable(ptr) < n + SPLIT_REMAINDER_MIN
            &&& forall|q: int|
                #![trigger w.live(q)]
                #![trigger d.live(q)]
                d.live(q) ==> w.live(q) && d.usable(q) <= w.usable(q) < d.usable(q)
                    + SPLIT_REMAINDER_MIN
            &&& forall|q: int| #![trigger w.live(q)] w.live(q) ==> d.live(q) || q == ptr
        }),
{
    reveal(TreeView::ok);
    reveal(TreeView::ok_but);
    let (w, x) = d.placed(a, n, al);
    tree_steps::lemma_placed(d, a, n, al);
    heap::lemma_block(w.blocks, w.arenas, x);
    assert forall|q: int| #![trigger w.live(q)] #![trigger d.live(q)] d.live(q) implies w.live(q)
        && d.usable(q) <= w.usable(q) < d.usable(q) + SPLIT_REMAINDER_MIN by {
        let c = q - HEADER_SIZE;
        assert(w.blocks.contains_key(c));
        assert(w.blocks[c].prev != 0);
    }
    assert forall|q: int| #![trigger w.live(q)] w.live(q) implies d.live(q) || q == x + HEADER_SIZE by {
        let c = q - HEADER_SIZE;
        if c != x {
            assert(w.blocks.contains_key(c));
            assert(d.blocks.contains_key(c) && d.blocks[c].used);
            assert(w.blocks[c].prev != 0);
            if d.blocks[c].size == 0 {
                heap::lemma_block(d.blocks, d.arenas, c);
                if block::next_of(d.blocks, c) == a {
                    heap::lemma_free_is_real(d.blocks, d.arenas, a);
                    heap::lemma_only_before(d.blocks, d.arenas, a, c);
                    heap::lemma_neighbours(d.blocks, d.arenas, a);
                }
            }
        }
    }
}

/// Taking a free block into use adds its payload to those in use.
pub proof fn lemma_taken_live(d: TreeView, a: int, n: int)
    requires
        d.ok_but(a),
        n % 16 == 0,
        n >= MIN_PAYLOAD,
        d.blocks[a].size >= n,
    ensures
        ({
            let w = d.taken(a, n);
            &&& w.ok()
            &&& w.live(a + HEADER_SIZE)
            &&& !d.live(a + HEADER_SIZE)
            &&& (a + HEADER_SIZE) % 16 == 0
            &&& w.usable(a + HEADER_SIZE) % 16 == 0
            &&& n <= w.usable(a + HEADER_SIZE) < n + SPLIT_REMAINDER_MIN
            &&& forall|q: int|
                #![trigger w.live(q)]
                #![trigger d.live(q)]
                d.live(q) ==> w.live(q) && w.usable(q) == d.usable(q)
            &&& forall|q: int|
                #![trigger w.live(q)]
                w.live(q) ==> d.live(q) || q == a + HEADER_SIZE
        }),
{
    reveal(TreeView::ok);
    reveal(TreeView::ok_but);
    let w = d.taken(a, n);
    tree_steps::lemma_taken(d, a, n);
    tree_steps::lemma_mark_used(d, a);
    heap::lemma_block(d.blocks, d.arenas, a);
    heap::lemma_block(w.blocks, w.arenas, a);
    let m = d.marked(a, true);
    assert forall|q: int| #![trigger w.live(q)] #![trigger d.live(q)] d.live(q) implies w.live(q)
        && w.usable(q) == d.usable(q) by {
        let c = q - HEADER_SIZE;
        assert(w.blocks.contains_key(c));
        assert(w.blocks[c].size == d.blocks[c].size);
        tree_steps::lemma_trimmed_prev(m, a, n, c);
    }
    assert forall|q: int| #![trigger w.live(q)] w.live(q) implies d.live(q) || q == a + HEADER_SIZE by {
        let c = q - HEADER_SIZE;
        if c != a {
            assert(w.blocks.contains_key(c));
            assert(d.blocks.contains_key(c) && d.blocks[c].used);
            tree_steps::lemma_trimmed_prev(m, a, n, c);
            assert(w.blocks[c].size == d.blocks[c].size);
        }
    }
}

/// A block is an opening fence exactly if an arena starts with it.
proof fn lemma_opening(v: TreeView, c: int)
    requires
        heap::heap_ok(v.blocks, v.arenas),
        v.blocks.contains_key(c),
    ensures
        v.blocks[c].prev == 0 <==> v.arenas.contains_key(c),
{
    reveal(heap::heap_ok);
    if v.arenas.contains_key(c) {
        assert(heap::arena_ok(v.blocks, v.arenas, c));
    }
}

/// A block in use of the same size in two states with the same arenas is a payload in both
/// or in neither.
proof fn lemma_same_live(v: TreeView, w: TreeView, q: int)
    requires
        heap::heap_ok(v.blocks, v.arenas),
        heap::heap_ok(w.blocks, w.arenas),
        w.arenas == v.arenas,
        ({
            let c = q - HEADER_SIZE;
            &&& v.blocks.contains_key(c) && v.blocks[c].used <==> w.blocks.contains_key(c)
                && w.blocks[c].used
            &&& v.blocks.contains_key(c) && v.blocks[c].used ==> w.blocks[c].size
                == v.blocks[c].size
        }),
    ensures
        w.live(q) <==> v.live(q),
        v.live(q) ==> w.usable(q) == v.usable(q),
{
    let c = q - HEADER_SIZE;
    if v.blocks.contains_key(c) && v.blocks[c].used {
        lemma_opening(v, c);
        lemma_opening(w, c);
    }
}

/// Free memory is in one piece and can be found: a free block has blocks in use on both sides
/// and is indexed.
pub proof fn law_coalesced(v: TreeView, a: int)
    requires
        v.ok(),
        v.blocks.contains_key(a),
        !v.blocks[a].used,
    ensures
        v.indexed(a),
        v.blocks.contains_key(block::next_of(v.blocks, a)),
        v.blocks[block::next_of(v.blocks, a)].used,
        v.blocks.contains_key(v.blocks[a].prev),
        v.blocks[v.blocks[a].prev].used,
{
    reveal(TreeView::ok);
    heap::lemma_block(v.blocks, v.arenas, a);
    heap::lemma_neighbours(v.blocks, v.arenas, a);
    assert(v.quiet(a));
    assert(v.quiet(v.blocks[a].prev));
}

/// Two payloads in use have no byte in common.
pub proof fn law_live_apart(v: TreeView, x: int, y: int)
    requires
        v.ok(),
        v.live(x),
        v.live(y),
        x != y,
    ensures
        x + v.usable(x) <= y || y + v.usable(y) <= x,
{
    reveal(TreeView::ok);
    reveal(heap::heap_ok);
    assert(heap::spaced(v.blocks, x - HEADER_SIZE, y - HEADER_SIZE));
    assert(heap::spaced(v.blocks, y - HEADER_SIZE, x - HEADER_SIZE));
}

/// A payload in use is a multiple of 16, holds at least the smallest payload and lies in
/// one of the arenas.
#[verifier::rlimit(40)]
pub proof fn law_live(v: TreeView, q: int)
    requires
        v.ok(),
        v.live(q),
    ensures
        q % 16 == 0,
        2 * HEADER_SIZE <= q < ADDRESS_LIMIT,
        v.usable(q) >= MIN_PAYLOAD,
        exists|base: int| #[trigger]
            v.arenas.contains_key(base) && base + 2 * HEADER_SIZE <= q && q + v.usable(q)
                + HEADER_SIZE <= base + v.arenas[base],
{
    reveal(TreeView::ok);
    let c = q - HEADER_SIZE;
    heap::lemma_neighbours(v.blocks, v.arenas, c);
    reveal(heap::heap_ok);
    let n = block::next_of(v.blocks, c);
    let p = v.blocks[c].prev;
    let base = choose|base: int| heap::home(v.blocks, v.arenas, base, c);
    assert(v.blocks.contains_key(c));
    assert(heap::home(v.blocks, v.arenas, base, c));
    assert(v.arenas.contains_key(base));
    assert(heap::arena_ok(v.blocks, v.arenas, base));
    lemma_opening(v, c);
    assert(heap::spaced(v.blocks, base, c));
    assert(heap::block_ok(v.blocks, base));
    let end = base + v.arenas[base] - HEADER_SIZE;
    assert(heap::spaced(v.blocks, c, end));
    assert(heap::block_ok(v.blocks, end));
}

/// Giving a payload back takes exactly that payload out of use and leaves the others as
/// they are.
pub proof fn law_freed(v: TreeView, ptr: int)
    requires
        v.ok(),
        v.live(ptr),
    ensures
        ({
            let w = v.freed(ptr - HEADER_SIZE);
            &&& w.ok()
            &&& w.arenas == v.arenas
            &&& w.mapped == v.mapped
            &&& forall|q: int| #![trigger w.live(q)] w.live(q) <==> v.live(q) && q != ptr
            &&& forall|q: int|
                #![trigger w.usable(q)]
                v.live(q) && q != ptr ==> w.usable(q) == v.usable(q)
        }),
{
    let a = ptr - HEADER_SIZE;
    let w = v.freed(a);
    tree_steps::lemma_freed(v, a);
    reveal(TreeView::ok);
    assert forall|q: int| #![trigger w.live(q)] w.live(q) <==> v.live(q) && q != ptr by {
        let c = q - HEADER_SIZE;
        assert(v.blocks.contains_key(c) && v.blocks[c].used && c != a <==> w.blocks.contains_key(c)
            && w.blocks[c].used);
        if c != a {
            assert(v.blocks.contains_key(c) && v.blocks[c].used ==> w.blocks[c].size
                == v.blocks[c].size);
            lemma_same_live(v, w, q);
        }
    }
    assert forall|q: int| #![trigger w.usable(q)] v.live(q) && q != ptr implies w.usable(q) == v.usable(q) by {
        let c = q - HEADER_SIZE;
        assert(w.blocks[c].size == v.blocks[c].size);
    }
}

/// Memory at hand is used first: as long as a free block above the small limit is large
/// enough, a request is answered and nothing is asked of the system.
pub proof fn law_at_hand(v: TreeView, o: OsView, size: int, a: int)
    requires
        v.ok(),
        0 <= size <= MAX_ALLOCATION,
        v.blocks.contains_key(a),
        !v.blocks[a].used,
        v.blocks[a].size > MAX_SMALL_ALLOCATION,
        v.blocks[a].size >= tree_model::normalized(size)->0,
    ensures
        ({
            let (w, o1, r) = v.served(o, size);
            &&& r is Some
            &&& o1 == o
            &&& w.mapped == v.mapped
        }),
{
    let n = tree_model::normalized(size)->0;
    law_normalized(size);
    law_best_fit(v, n);
    lemma_free_indexed(v, a);
    if let Some(b) = v.fit(n) {
        tree_steps::lemma_detach_ok(v, b);
        tree_steps::lemma_taken_arenas(v.detached(b), b, n);
    }
}

/// The same for an aligned request, of a block that is large enough wherever it starts.
#[verifier::rlimit(40)]
pub proof fn law_at_hand_aligned(v: TreeView, o: OsView, size: int, al: int, a: int)
    requires
        v.ok(),
        power2::is_pow2(al),
        0 <= size <= MAX_ALLOCATION,
        tree_model::normalized(size)->0 + al <= MAX_ALLOCATION,
        v.blocks.contains_key(a),
        !v.blocks[a].used,
        v.blocks[a].size > MAX_SMALL_ALLOCATION,
        v.blocks[a].size >= tree_model::normalized(size)->0 + al,
    ensures
        ({
            let (w, o1, r) = v.served_aligned(o, size, al);
            &&& r is Some
            &&& o1 == o
            &&& w.mapped == v.mapped
        }),
{
    let n = tree_model::normalized(size)->0;
    law_normalized(size);
    law_fit_aligned(v, n, al);
    lemma_free_indexed(v, a);
    assert((a + HEADER_SIZE) % 16 == 0) by {
        reveal(TreeView::ok);
        heap::lemma_free_is_real(v.blocks, v.arenas, a);
        heap::lemma_block(v.blocks, v.arenas, a);
    }
    tree_steps::lemma_offset(a + HEADER_SIZE, al);
    if let Some(b) = v.fit_aligned(n, al) {
        tree_steps::lemma_detach_ok(v, b);
        tree_steps::lemma_placed_arenas(v.detached(b), b, n, al);
    }
}

/// A free block above the small limit is the most recently freed one or in the tree.
proof fn lemma_free_indexed(v: TreeView, a: int)
    requires
        v.ok(),
        v.blocks.contains_key(a),
        !v.blocks[a].used,
        v.blocks[a].size > MAX_SMALL_ALLOCATION,
    ensures
        v.mr == Some(a) || (v.index.keys.contains_key(a + HEADER_SIZE) && v.index.keys[a + HEADER_SIZE]
            == v.blocks[a].size),
{
    reveal(TreeView::ok);
    assert(v.indexed(a));
    let m = a + HEADER_SIZE;
    assert(m - HEADER_SIZE == a);
    if v.small.contains(m) {
        assert(v.blocks[m - HEADER_SIZE].size <= MAX_SMALL_ALLOCATION);
    }
    if v.index.keys.contains_key(m) {
        assert(v.index.keys[m] == v.blocks[m - HEADER_SIZE].size);
    }
}

/// What was freed last is served first: a request that fits into the block that a free left
/// behind is answered with that block, which takes in the payload that was given back.
pub proof fn law_reuse(v: TreeView, ptr: int, o: OsView, size: int)
    requires
        v.ok(),
        v.live(ptr),
        0 <= size <= MAX_ALLOCATION,
    ensures
        ({
            let w = v.freed(ptr - HEADER_SIZE);
            let n = tree_model::normalized(size)->0;
            exists|x: int|
                w.mr == Some(x) && x <= ptr - HEADER_SIZE && w.blocks[x].size >= v.usable(ptr) + (ptr
                    - HEADER_SIZE - x) && (n <= #[trigger] w.blocks[x].size ==> w.served(o, size)
                    == (w.detached(x).taken(x, n), o, Some(x + HEADER_SIZE)))
        }),
{
    let a = ptr - HEADER_SIZE;
    let w = v.freed(a);
    let m = v.marked(a, false);
    let (u, x) = m.coalesce(a);
    law_normalized(size);
    tree_steps::lemma_marked_free(v, a);
    tree_steps::lemma_coalesce(m, a);
    tree_steps::lemma_merged_next(m, a, Some(a));
    assert(w.mr == Some(x));
    assert(w.blocks == u.blocks);
    let u1 = m.merged_next(a);
    let p = u1.blocks[a].prev;
    assert(m.blocks[block::next_of(m.blocks, a)].used || m.blocks[block::next_of(
        m.blocks,
        a,
    )].size >= 0) by {
        reveal(heap::heap_ok);
        heap::lemma_neighbours(m.blocks, m.arenas, a);
    }
    assert(u1.blocks[a].size >= v.blocks[a].size);
    heap::lemma_neighbours(u1.blocks, u1.arenas, a);
    if !u1.blocks[p].used {
        tree_steps::lemma_merged_prev(u1, a, Some(a));
        assert(x == p);
        assert(u.blocks[p].size == u1.blocks[a].size + u1.gain(p));
    }
    assert(w.blocks[x].size >= v.usable(ptr) + (a - x));
}

/// A payload whose size changes in place stays where it is, and the others stay as they
/// are. It holds the size asked for wherever its block, or its block and a free one behind
/// it, has room for that; else nothing changes, nor for a size of zero.
pub proof fn law_resized(v: TreeView, ptr: int, size: int)
    requires
        v.ok(),
        v.live(ptr),
        0 <= size,
    ensures
        ({
            let a = ptr - HEADER_SIZE;
            let w = v.resized(a, size);
            &&& w.ok()
            &&& w.arenas == v.arenas
            &&& w.mapped == v.mapped
            &&& match tree_model::normalized(size) {
                Some(n) if size > 0 && roomy_behind(v, ptr, n) => n <= w.usable(ptr) < n + SPLIT_REMAINDER_MIN,
                _ => w == v,
            }
            &&& forall|q: int| #![trigger w.live(q)] w.live(q) <==> v.live(q)
            &&& forall|q: int|
                #![trigger w.usable(q)]
                v.live(q) && q != ptr ==> w.usable(q) == v.usable(q)
        }),
{
    let a = ptr - HEADER_SIZE;
    let w = v.resized(a, size);
    law_normalized(size);
    tree_steps::lemma_around(v, a);
    if let Some(n) = tree_model::normalized(size) {
        let next = block::next_of(v.blocks, a);
        if size == 0 {
        } else if v.blocks[a].size >= n {
            lemma_shrunk_live(v, a, n);
        } else if v.blocks[a].size + v.gain(next) >= n {
            lemma_forward_live(v, a, n);
        }
    }
}

/// Cutting a payload in place leaves the others as they are.
proof fn lemma_shrunk_live(v: TreeView, a: int, n: int)
    requires
        v.ok(),
        v.live(a + HEADER_SIZE),
        n % 16 == 0,
        n >= MIN_PAYLOAD,
        v.blocks[a].size >= n,
    ensures
        ({
            let w = v.shrunk(a, n);
            &&& w.ok()
            &&& w.arenas == v.arenas
            &&& w.mapped == v.mapped
            &&& n <= w.usable(a + HEADER_SIZE) < n + SPLIT_REMAINDER_MIN
            &&& forall|q: int| #![trigger w.live(q)] w.live(q) <==> v.live(q)
            &&& forall|q: int|
                #![trigger w.usable(q)]
                v.live(q) && q != a + HEADER_SIZE ==> w.usable(q) == v.usable(q)
        }),
{
    let w = v.shrunk(a, n);
    tree_steps::lemma_shrunk(v, a, n);
    reveal(TreeView::ok);
    assert forall|q: int| #![trigger w.live(q)] w.live(q) <==> v.live(q) by {
        let c = q - HEADER_SIZE;
        assert(v.blocks.contains_key(c) && v.blocks[c].used <==> w.blocks.contains_key(c)
            && w.blocks[c].used);
        if c != a {
            assert(v.blocks.contains_key(c) && v.blocks[c].used ==> w.blocks[c].size
                == v.blocks[c].size);
            lemma_same_live(v, w, q);
        }
    }
    assert forall|q: int| #![trigger w.usable(q)] v.live(q) && q != a + HEADER_SIZE implies w.usable(q)
        == v.usable(q) by {
        assert(w.blocks[q - HEADER_SIZE].size == v.blocks[q - HEADER_SIZE].size);
    }
}

/// Growing a payload into the free block behind it leaves the others as they are.
proof fn lemma_forward_live(v: TreeView, a: int, n: int)
    requires
        v.ok(),
        v.live(a + HEADER_SIZE),
        n % 16 == 0,
        n >= MIN_PAYLOAD,
        v.blocks[a].size < n,
        v.blocks[a].size + v.gain(block::next_of(v.blocks, a)) >= n,
    ensures
        ({
            let w = v.merged_next(a).trimmed(a, n);
            &&& w.ok()
            &&& w.arenas == v.arenas
            &&& w.mapped == v.mapped
            &&& n <= w.usable(a + HEADER_SIZE) < n + SPLIT_REMAINDER_MIN
            &&& forall|q: int| #![trigger w.live(q)] w.live(q) <==> v.live(q)
            &&& forall|q: int|
                #![trigger w.usable(q)]
                v.live(q) && q != a + HEADER_SIZE ==> w.usable(q) == v.usable(q)
        }),
{
    let m = v.merged_next(a);
    let w = m.trimmed(a, n);
    lemma_merged_next_ok(v, a);
    tree_steps::lemma_trimmed(m, a, n);
    reveal(TreeView::ok);
    assert forall|q: int| #![trigger w.live(q)] w.live(q) <==> v.live(q) by {
        let c = q - HEADER_SIZE;
        assert(m.blocks.contains_key(c) && m.blocks[c].used <==> w.blocks.contains_key(c)
            && w.blocks[c].used);
        assert(v.blocks.contains_key(c) && v.blocks[c].used <==> m.blocks.contains_key(c)
            && m.blocks[c].used);
        if c != a {
            assert(m.blocks.contains_key(c) && m.blocks[c].used ==> w.blocks[c].size
                == m.blocks[c].size);
            lemma_same_live(v, w, q);
        }
    }
    assert forall|q: int| #![trigger w.usable(q)] v.live(q) && q != a + HEADER_SIZE implies w.usable(q)
        == v.usable(q) by {
        let c = q - HEADER_SIZE;
        assert(m.blocks.contains_key(c) && m.blocks[c].used);
        assert(w.blocks[c].size == m.blocks[c].size);
    }
}

/// Merging the free block behind a payload into it keeps the heap in order.
proof fn lemma_merged_next_ok(v: TreeView, a: int)
    requires
        v.ok(),
        heap::ordinary(v.blocks, a),
        v.blocks[a].used,
    ensures
        ({
            let w = v.merged_next(a);
            let n = block::next_of(v.blocks, a);
            &&& w.ok()
            &&& w.arenas == v.arenas
            &&& w.mapped == v.mapped
            &&& heap::ordinary(w.blocks, a)
            &&& w.blocks[a].used
            &&& w.blocks[a].size == v.blocks[a].size + v.gain(n)
            &&& w.blocks[block::next_of(w.blocks, a)].used
            &&& forall|c: int|
                #![trigger w.blocks.contains_key(c)]
                v.blocks.contains_key(c) && v.blocks[c].used <==> w.blocks.contains_key(c)
                    && w.blocks[c].used
            &&& forall|c: int|
                #![trigger w.blocks[c]]
                w.blocks.contains_key(c) && c != a ==> w.blocks[c].size == v.blocks[c].size
        }),
{
    reveal(TreeView::ok);
    let w = v.merged_next(a);
    let n = block::next_of(v.blocks, a);
    assert(v.coalesced_round(a)) by {
        assert forall|c: int|
            v.blocks.contains_key(c) && c != a && block::next_of(v.blocks, c)
                != a implies #[trigger] v.quiet(c) by {}
    }
    tree_steps::lemma_merged_next(v, a, None);
    assert forall|c: int|
        #![trigger w.blocks.contains_key(c)]
        v.blocks.contains_key(c) && v.blocks[c].used <==> w.blocks.contains_key(c) && w.blocks[c].used by {
        assert(w.blocks.contains_key(c) <==> v.blocks.contains_key(c) && (v.blocks[n].used || c != n));
        if w.blocks.contains_key(c) && c != a {
            assert(w.blocks[c].used == v.blocks[c].used);
        }
    }
}

/// What a reallocation promises: where there is an answer, the payload there is in use and
/// holds the size asked for, `copied` bytes of the old payload, which is all of it, are to
/// be moved there unless it stayed where it was, and apart from the one that moved, the
/// payloads in use are the same. An aligned request may add up to `slack` bytes to one of
/// them. Where there is no answer nothing changes.
pub open spec fn moved_well(
    v: TreeView,
    w: TreeView,
    ptr: int,
    size: int,
    slack: int,
    r: Option<(int, int)>,
) -> bool {
    &&& r is None ==> w == v
    &&& r matches Some((x, copied)) ==> {
        &&& w.live(x)
        &&& x == ptr || !v.live(x)
        &&& w.usable(x) >= size
        &&& x % 16 == 0
        &&& copied == 0 ==> x == ptr
        &&& copied != 0 ==> copied == v.usable(ptr) && copied <= w.usable(x)
        &&& forall|q: int|
            #![trigger w.live(q)]
            w.live(q) <==> (v.live(q) && q != ptr) || q == x
        &&& forall|q: int|
            #![trigger w.usable(q)]
            v.live(q) && q != ptr ==> v.usable(q) <= w.usable(q) <= v.usable(q) + slack
    }
}

/// Whether the payload at `ptr` has room for `n` bytes with a free block behind it, or without.
pub open spec fn roomy_behind(v: TreeView, ptr: int, n: int) -> bool {
    let next = v.blocks[ptr + v.usable(ptr)];
    v.usable(ptr) >= n || (!next.used && v.usable(ptr) + HEADER_SIZE + next.size >= n)
}

/// Whether the payload at `ptr` has room for `n` bytes with a free block before it.
pub open spec fn roomy_before(v: TreeView, ptr: int, n: int) -> bool {
    let prev = v.blocks[v.blocks[ptr - HEADER_SIZE].prev];
    !prev.used && v.usable(ptr) + HEADER_SIZE + prev.size >= n
}

/// A reallocation keeps its promise and changes no payload but the one that it is asked
/// for. The payload holds little more than asked for, stays where it is if there is room
/// behind it, and nothing is asked of the system if there is room on either side.
#[verifier::rlimit(40)]
pub proof fn law_realloc(v: TreeView, o: OsView, ptr: int, size: int)
    requires
        v.ok(),
        tree_model::agree(v, o),
        v.live(ptr),
        0 <= size,
    ensures
        ({
            let (w, o1, r) = v.realloc(o, ptr - HEADER_SIZE, size);
            &&& w.ok()
            &&& tree_model::agree(w, o1)
            &&& v.all_mapped() ==> w.all_mapped()
            &&& moved_well(v, w, ptr, size, 0, r)
            &&& r is None ==> size > MAX_ALLOCATION || !o.can_map(
                tree_model::arena_len(tree_model::normalized(size)->0),
            )
            &&& size <= v.usable(ptr) && size <= MAX_ALLOCATION ==> r == Some((ptr, 0int))
            &&& r matches Some((x, copied)) ==> tree_model::snug(w.usable(x), size)
            &&& size <= MAX_ALLOCATION && roomy_behind(v, ptr, tree_model::normalized(size)->0)
                ==> r == Some((ptr, 0int)) && o1 == o
            &&& size <= MAX_ALLOCATION && roomy_before(v, ptr, tree_model::normalized(size)->0)
                ==> r is Some && o1 == o
        }),
{
    reveal(tree_model::snug);
    lemma_index(v);
    let a = ptr - HEADER_SIZE;
    let (w, o1, r) = v.realloc(o, a, size);
    law_normalized(size);
    tree_steps::lemma_around(v, a);
    law_live(v, ptr);
    let p = v.blocks[a].prev;
    let next = block::next_of(v.blocks, a);
    if let Some(n) = tree_model::normalized(size) {
        align::lemma_rounded_up(
            if size < FREE_NODE_SIZE {
                FREE_NODE_SIZE as int
            } else {
                size
            },
            HEADER_SIZE as int,
        );
        assert(size <= v.usable(ptr) ==> n <= v.usable(ptr)) by {
            lemma_usable_multiple(v, ptr);
        }
        if v.blocks[a].size >= n {
            lemma_shrunk_live(v, a, n);
            tree_model::lemma_agree_same(v, w, o);
        } else if v.blocks[a].size + v.gain(next) >= n {
            lemma_forward_live(v, a, n);
            tree_model::lemma_agree_same(v, w, o);
        } else if v.blocks[a].size + v.gain(p) + v.gain(next) >= n {
            lemma_backward_live(v, a, n);
            tree_model::lemma_agree_same(v, w, o);
        } else {
            lemma_relocated_live(v, o, a, n);
        }
        if let Some((x, copied)) = r {
            lemma_usable_multiple(w, x);
        }
    }
}

/// A payload size is a multiple of a header.
proof fn lemma_usable_multiple(v: TreeView, ptr: int)
    requires
        v.ok(),
        v.live(ptr),
    ensures
        v.usable(ptr) % 16 == 0,
{
    reveal(TreeView::ok);
    heap::lemma_block(v.blocks, v.arenas, ptr - HEADER_SIZE);
}

/// Merging a payload with what is free around it takes exactly that payload out of use.
proof fn lemma_merged_both_live(v: TreeView, a: int)
    requires
        v.ok(),
        v.live(a + HEADER_SIZE),
        !v.blocks[v.blocks[a].prev].used,
    ensures
        ({
            let d = v.merged_both(a);
            &&& d.ok_but(v.blocks[a].prev)
            &&& d.arenas == v.arenas
            &&& d.mapped == v.mapped
            &&& forall|q: int|
                #![trigger d.live(q)]
                #![trigger v.live(q)]
                d.live(q) <==> v.live(q) && q != a + HEADER_SIZE
            &&& forall|q: int|
                #![trigger d.usable(q)]
                v.live(q) && q != a + HEADER_SIZE ==> d.usable(q) == v.usable(q)
        }),
{
    let d = v.merged_both(a);
    tree_steps::lemma_merged_both(v, a);
    reveal(TreeView::ok);
    reveal(TreeView::ok_but);
    assert forall|q: int|
        #![trigger d.live(q)]
        #![trigger v.live(q)]
        d.live(q) <==> v.live(q) && q != a + HEADER_SIZE by {
        let c = q - HEADER_SIZE;
        assert(v.blocks.contains_key(c) && v.blocks[c].used && c != a <==> d.blocks.contains_key(c)
            && d.blocks[c].used);
        if c != a {
            assert(v.blocks.contains_key(c) && v.blocks[c].used ==> d.blocks[c].size
                == v.blocks[c].size);
            lemma_same_live(v, d, q);
        }
    }
    assert forall|q: int| #![trigger d.usable(q)] v.live(q) && q != a + HEADER_SIZE implies d.usable(q)
        == v.usable(q) by {
        assert(d.blocks[q - HEADER_SIZE].size == v.blocks[q - HEADER_SIZE].size);
    }
}

/// Growing a payload into the free blocks around it moves exactly that payload.
proof fn lemma_backward_live(v: TreeView, a: int, n: int)
    requires
        v.ok(),
        v.live(a + HEADER_SIZE),
        n % 16 == 0,
        n >= MIN_PAYLOAD,
        v.blocks[a].size < n,
        !v.blocks[v.blocks[a].prev].used,
        v.blocks[a].size + v.gain(v.blocks[a].prev) + v.gain(block::next_of(v.blocks, a)) >= n,
    ensures
        ({
            let p = v.blocks[a].prev;
            let w = v.merged_both(a).taken(p, n);
            &&& w.ok()
            &&& w.arenas == v.arenas
            &&& w.mapped == v.mapped
            &&& moved_well(
                v,
                w,
                a + HEADER_SIZE,
                n,
                0,
                Some((p + HEADER_SIZE, v.blocks[a].size)),
            )
            &&& w.usable(p + HEADER_SIZE) < n + SPLIT_REMAINDER_MIN
        }),
{
    let p = v.blocks[a].prev;
    let ptr = a + HEADER_SIZE;
    let d = v.merged_both(a);
    let w = d.taken(p, n);
    law_live(v, ptr);
    lemma_merged_both_live(v, a);
    tree_steps::lemma_merged_both(v, a);
    lemma_taken_live(d, p, n);
    tree_steps::lemma_taken_arenas(d, p, n);
    let x = p + HEADER_SIZE;
    assert forall|q: int| #![trigger w.live(q)] w.live(q) <==> (v.live(q) && q != ptr) || q == x by {
        assert(d.live(q) <==> v.live(q) && q != ptr);
    }
    assert forall|q: int| #![trigger w.usable(q)] v.live(q) && q != ptr implies w.usable(q) == v.usable(q) by {
        assert(d.live(q));
        assert(d.usable(q) == v.usable(q));
        assert(w.live(q));
    }
}

/// The same at a multiple of `al`.
proof fn lemma_backward_aligned_live(v: TreeView, a: int, n: int, al: int)
    requires
        v.ok(),
        v.live(a + HEADER_SIZE),
        power2::is_pow2(al),
        n % 16 == 0,
        n >= MIN_PAYLOAD,
        v.blocks[a].size < n,
        !v.blocks[v.blocks[a].prev].used,
        v.blocks[a].size + v.gain(v.blocks[a].prev) + v.gain(block::next_of(v.blocks, a)) >= n
            + tree_model::offset(v.blocks[a].prev + HEADER_SIZE, al),
    ensures
        ({
            let p = v.blocks[a].prev;
            let (w, x) = v.merged_both(a).placed(p, n, al);
            &&& w.ok()
            &&& w.arenas == v.arenas
            &&& w.mapped == v.mapped
            &&& (x + HEADER_SIZE) % al == 0
            &&& moved_well(
                v,
                w,
                a + HEADER_SIZE,
                n,
                SPLIT_REMAINDER_MIN as int,
                Some((x + HEADER_SIZE, v.blocks[a].size)),
            )
            &&& w.usable(x + HEADER_SIZE) < n + SPLIT_REMAINDER_MIN
        }),
{
    let p = v.blocks[a].prev;
    let ptr = a + HEADER_SIZE;
    let d = v.merged_both(a);
    let (w, x0) = d.placed(p, n, al);
    law_live(v, ptr);
    lemma_merged_both_live(v, a);
    tree_steps::lemma_merged_both(v, a);
    lemma_placed_live(d, p, n, al);
    tree_steps::lemma_placed_arenas(d, p, n, al);
    let x = x0 + HEADER_SIZE;
    assert forall|q: int| #![trigger w.live(q)] w.live(q) <==> (v.live(q) && q != ptr) || q == x by {
        assert(d.live(q) <==> v.live(q) && q != ptr);
    }
    assert forall|q: int| #![trigger w.usable(q)] v.live(q) && q != ptr implies v.usable(q) <= w.usable(q)
        <= v.usable(q) + SPLIT_REMAINDER_MIN by {
        assert(d.live(q));
        assert(d.usable(q) == v.usable(q));
        assert(w.live(q));
    }
}

/// Moving a payload to a block of its own moves exactly that payload.
proof fn lemma_relocated_live(v: TreeView, o: OsView, a: int, n: int)
    requires
        v.ok(),
        tree_model::agree(v, o),
        v.live(a + HEADER_SIZE),
        n % 16 == 0,
        MIN_PAYLOAD <= n <= MAX_ALLOCATION + 1,
        v.blocks[a].size < n,
    ensures
        ({
            let (w, o1, r) = v.relocated(o, a, n);
            &&& w.ok()
            &&& tree_model::agree(w, o1)
            &&& v.all_mapped() ==> w.all_mapped()
            &&& moved_well(v, w, a + HEADER_SIZE, n, 0, r)
            &&& r is None ==> !o.can_map(tree_model::arena_len(n))
            &&& r matches Some((x, copied)) ==> w.usable(x) < n + SPLIT_REMAINDER_MIN
        }),
{
    reveal(tree_model::snug);
    lemma_index(v);
    let ptr = a + HEADER_SIZE;
    let (u, o1, r) = v.served(o, n);
    law_served(v, o, n);
    law_live(v, ptr);
    lemma_normalized_again(n);
    if r is None {
        align::lemma_rounded_up(n + 3 * HEADER_SIZE, PAGE_SIZE as int);
        tree_model::lemma_agree_fresh(v, o, tree_model::arena_len(n));
    }
    if let Some(x) = r {
        assert(u.live(ptr));
        law_freed(u, ptr);
        let w = u.freed(a);
        tree_model::lemma_agree_same(u, w, o1);
        assert forall|q: int| #![trigger w.live(q)] w.live(q) <==> (v.live(q) && q != ptr) || q == x by {
            assert(w.live(q) <==> u.live(q) && q != ptr);
            if v.live(q) {
                assert(u.live(q));
            }
        }
        assert(w.usable(x) == u.usable(x));
        assert forall|q: int| #![trigger w.usable(q)] v.live(q) && q != ptr implies w.usable(q) == v.usable(q) by {
            assert(u.live(q));
            assert(w.usable(q) == u.usable(q));
        }
    }
}

/// The same at a multiple of `al`.
proof fn lemma_relocated_aligned_live(v: TreeView, o: OsView, a: int, n: int, al: int)
    requires
        v.ok(),
        tree_model::agree(v, o),
        v.live(a + HEADER_SIZE),
        power2::is_pow2(al),
        n % 16 == 0,
        MIN_PAYLOAD <= n,
        n + al <= MAX_ALLOCATION,
        v.blocks[a].size < n,
    ensures
        ({
            let (w, o1, r) = v.relocated_aligned(o, a, n, al);
            &&& w.ok()
            &&& tree_model::agree(w, o1)
            &&& v.all_mapped() ==> w.all_mapped()
            &&& moved_well(v, w, a + HEADER_SIZE, n, SPLIT_REMAINDER_MIN as int, r)
            &&& r is None ==> !o.can_map(tree_model::arena_len(n + al))
            &&& r matches Some((x, copied)) ==> x % al == 0 && w.usable(x) < n + SPLIT_REMAINDER_MIN
        }),
{
    reveal(tree_model::snug);
    lemma_index(v);
    let ptr = a + HEADER_SIZE;
    let (u, o1, r) = v.served_aligned(o, n, al);
    law_served_aligned(v, o, n, al);
    tree_steps::lemma_alignments(al);
    law_live(v, ptr);
    lemma_normalized_again(n);
    if let Some(x) = r {
        assert(u.live(ptr));
        law_freed(u, ptr);
        let w = u.freed(a);
        tree_model::lemma_agree_same(u, w, o1);
        assert(u.usable(ptr) >= v.usable(ptr));
        assert forall|q: int| #![trigger w.live(q)] w.live(q) <==> (v.live(q) && q != ptr) || q == x by {
            assert(w.live(q) <==> u.live(q) && q != ptr);
            if v.live(q) {
                assert(u.live(q));
            }
        }
        assert(w.usable(x) == u.usable(x));
        assert forall|q: int| #![trigger w.usable(q)] v.live(q) && q != ptr implies v.usable(q) <= w.usable(q)
            <= v.usable(q) + SPLIT_REMAINDER_MIN by {
            assert(u.live(q));
            assert(w.usable(q) == u.usable(q));
        }
    }
}

/// A served size is served with itself, up to the limit.
proof fn lemma_normalized_again(n: int)
    requires
        n % 16 == 0,
        n >= MIN_PAYLOAD,
    ensures
        n <= MAX_ALLOCATION ==> tree_model::normalized(n) == Some(n),
{
    align::lemma_rounded_up(n, HEADER_SIZE as int);
}

/// An aligned reallocation keeps its promise, and the payload stays aligned. Where the
/// block that a payload moves to was shifted up to be aligned, the payload before it may
/// have gained the bytes below.
#[verifier::rlimit(40)]
pub proof fn law_realloc_aligned(v: TreeView, o: OsView, ptr: int, size: int, al: int)
    requires
        v.ok(),
        tree_model::agree(v, o),
        v.live(ptr),
        0 <= size,
        power2::is_pow2(al),
        ptr % al == 0,
    ensures
        ({
            let (w, o1, r) = v.realloc_aligned(o, ptr - HEADER_SIZE, size, al);
            &&& w.ok()
            &&& tree_model::agree(w, o1)
            &&& v.all_mapped() ==> w.all_mapped()
            &&& moved_well(v, w, ptr, size, SPLIT_REMAINDER_MIN as int, r)
            &&& r matches Some((x, copied)) ==> x % al == 0
            &&& r is None ==> size > MAX_ALLOCATION || {
                let n = tree_model::normalized(size)->0;
                n + al > MAX_ALLOCATION || !o.can_map(tree_model::arena_len(n + al))
            }
            &&& r matches Some((x, copied)) ==> tree_model::snug(w.usable(x), size)
        }),
{
    reveal(tree_model::snug);
    lemma_index(v);
    let a = ptr - HEADER_SIZE;
    let (w, o1, r) = v.realloc_aligned(o, a, size, al);
    law_normalized(size);
    tree_steps::lemma_around(v, a);
    tree_steps::lemma_alignments(al);
    law_live(v, ptr);
    let p = v.blocks[a].prev;
    let next = block::next_of(v.blocks, a);
    if let Some(n) = tree_model::normalized(size) {
        if n + al <= MAX_ALLOCATION {
            if v.blocks[a].size >= n {
                lemma_shrunk_live(v, a, n);
                tree_model::lemma_agree_same(v, w, o);
            } else if v.blocks[a].size + v.gain(next) >= n {
                lemma_forward_live(v, a, n);
                tree_model::lemma_agree_same(v, w, o);
            } else if v.blocks[p].used {
                lemma_relocated_aligned_live(v, o, a, n, al);
            } else {
                if v.blocks[a].size + v.gain(p) + v.gain(next) >= n + tree_model::offset(
                    p + HEADER_SIZE,
                    al,
                ) {
                    lemma_backward_aligned_live(v, a, n, al);
                    tree_model::lemma_agree_same(v, w, o);
                } else {
                    lemma_relocated_aligned_live(v, o, a, n, al);
                }
            }
            if let Some((x, copied)) = r {
                lemma_usable_multiple(w, x);
            }
        }
    }
}

/// A payload that an aligned reallocation finds aligned stays where it is if there is room
/// behind it, and nothing is asked of the system if there is room on either side.
#[verifier::rlimit(40)]
pub proof fn law_realloc_aligned_room(v: TreeView, o: OsView, ptr: int, size: int, al: int)
    requires
        v.ok(),
        v.live(ptr),
        0 <= size <= MAX_ALLOCATION,
        power2::is_pow2(al),
        tree_model::normalized(size)->0 + al <= MAX_ALLOCATION,
    ensures
        ({
            let (w, o1, r) = v.realloc_aligned(o, ptr - HEADER_SIZE, size, al);
            let n = tree_model::normalized(size)->0;
            &&& roomy_behind(v, ptr, n) ==> r == Some((ptr, 0int)) && o1 == o
            &&& roomy_before(v, ptr, n + al) ==> r is Some && o1 == o
        }),
{
    let a = ptr - HEADER_SIZE;
    let p = v.blocks[a].prev;
    let next = block::next_of(v.blocks, a);
    law_normalized(size);
    assert(heap::heap_ok(v.blocks, v.arenas)) by {
        reveal(TreeView::ok);
    }
    heap::lemma_neighbours(v.blocks, v.arenas, a);
    assert(v.gain(next) >= 0);
    if !v.blocks[p].used {
        heap::lemma_free_is_real(v.blocks, v.arenas, p);
        tree_steps::lemma_offset(p + HEADER_SIZE, al);
    }
}

} // verus!
