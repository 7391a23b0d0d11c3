//! How the red-black conditions are restored after an insertion or an erasure.

use crate::rbshape;
use crate::rbshape::{Groups, Nodes, Places, Side, HEAD};
use vstd::prelude::*;

verus! {

/// The nodes after `m` got a colour.
pub open spec fn coloured(ns: Nodes, m: int, red: bool) -> Nodes {
    ns.insert(m, ns[m].with_red(red))
}

/// A new colour leaves everything else in order.
pub proof fn lemma_coloured(
    ns: Nodes,
    g: Places,
    groups: Groups,
    keys: Map<int, u64>,
    m: int,
    red: bool,
)
    requires
        rbshape::linked(ns, g, groups, keys),
        ns.contains_key(m),
        m == HEAD ==> !red,
    ensures
        rbshape::linked(coloured(ns, m, red), g, groups, keys),
{
    let n1 = coloured(ns, m, red);
    let n = groups.len() as int;
    assert(rbshape::root_ok(ns, g, n));
    assert(rbshape::root_ok(n1, g, n));
    assert forall|k: int| rbshape::attached(g, k) implies #[trigger] rbshape::node_ok(n1, g, n, k) by {
        assert(rbshape::node_ok(ns, g, n, k));
    }
    assert forall|k: int| g.contains_key(k) implies #[trigger] rbshape::ring_ok(n1, g, groups, k) by {
        assert(rbshape::ring_ok(ns, g, groups, k));
    }
    assert forall|k: int| #[trigger] n1.contains_key(k) implies k == HEAD || g.contains_key(k) by {
        assert(ns.contains_key(k));
    }
}

/// A red parent is never the root while an insertion is being repaired.
pub proof fn lemma_red_parent(ns: Nodes, g: Places, n: int, cur: int)
    requires
        rbshape::tree_ok(ns, g, n),
        rbshape::reds_ok(ns, g, cur),
        rbshape::attached(g, cur),
        ns[ns[cur].parent].red,
    ensures
        ({
            let p = ns[cur].parent;
            let pp = ns[p].parent;
            &&& rbshape::attached(g, p)
            &&& rbshape::attached(g, pp)
            &&& ns[p].child(ns[cur].side) == cur
            &&& ns[pp].child(ns[p].side) == p
            &&& !ns[pp].red
            &&& p != cur
            &&& pp != p
            &&& pp != cur
            &&& g[p].hi - g[p].lo > g[cur].hi - g[cur].lo
            &&& g[pp].hi - g[pp].lo > g[p].hi - g[p].lo
            &&& ns[pp].child(ns[p].side.flip()) == HEAD || rbshape::attached(
                g,
                ns[pp].child(ns[p].side.flip()),
            )
        }),
{
    let p = ns[cur].parent;
    let pp = ns[p].parent;
    assert(rbshape::node_ok(ns, g, n, cur));
    assert(p != HEAD);
    assert(rbshape::attached(g, p) && rbshape::node_ok(ns, g, n, p));
    if pp == HEAD {
        assert(ns[HEAD as int].left == p);
        assert(p != cur);
    } else {
        assert(rbshape::attached(g, pp) && rbshape::node_ok(ns, g, n, pp));
    }
}

/// Parent and uncle are red: both turn black and the violation moves up.
pub proof fn lemma_fix_uncle(ns: Nodes, g: Places, n: int, bh: Map<int, int>, cur: int)
    requires
        rbshape::tree_ok(ns, g, n),
        rbshape::heights_ok(ns, g, bh, HEAD as int, Side::Left),
        rbshape::reds_ok(ns, g, cur),
        rbshape::attached(g, cur),
        ns[ns[cur].parent].red,
        ({
            let p = ns[cur].parent;
            ns[ns[ns[p].parent].child(ns[p].side.flip())].red
        }),
    ensures
        ({
            let p = ns[cur].parent;
            let pp = ns[p].parent;
            let u = ns[pp].child(ns[p].side.flip());
            let n1 = coloured(coloured(coloured(ns, p, false), u, false), pp, true);
            let bh1 = bh.insert(p, bh[p] + 1).insert(u, bh[u] + 1);
            &&& rbshape::heights_ok(n1, g, bh1, HEAD as int, Side::Left)
            &&& rbshape::reds_ok(n1, g, pp)
            &&& n1[pp].red
        }),
{
    let p = ns[cur].parent;
    let s = ns[p].side;
    let pp = ns[p].parent;
    let u = ns[pp].child(s.flip());
    lemma_red_parent(ns, g, n, cur);
    assert(u != HEAD);
    assert(rbshape::attached(g, u));
    assert(rbshape::node_ok(ns, g, n, pp) && rbshape::node_ok(ns, g, n, p) && rbshape::node_ok(ns, g, n, u));
    let n1 = coloured(coloured(coloured(ns, p, false), u, false), pp, true);
    let bh1 = bh.insert(p, bh[p] + 1).insert(u, bh[u] + 1);
    assert forall|m: int| #[trigger] rbshape::attached(g, m) && m != pp && n1[m].red implies !n1[n1[m].parent].red by {
        assert(rbshape::node_ok(ns, g, n, m));
        let q = ns[m].parent;
        if q != HEAD {
            assert(rbshape::node_ok(ns, g, n, q));
        }
    }
    assert forall|m: int| #[trigger] rbshape::attached(g, m) implies {
        &&& bh1[m] >= 0
        &&& rbshape::height(bh1, n1[m].left) == rbshape::wanted(n1, bh1, m)
        &&& rbshape::height(bh1, n1[m].right) == rbshape::wanted(n1, bh1, m)
    } by {
        assert(rbshape::node_ok(ns, g, n, m));
        let l = ns[m].left;
        let r = ns[m].right;
        assert(l != HEAD ==> rbshape::attached(g, l) && rbshape::node_ok(ns, g, n, l));
        assert(r != HEAD ==> rbshape::attached(g, r) && rbshape::node_ok(ns, g, n, r));
    }
}

/// `cur` hangs on the inner side: one rotation brings it to the outer side.
pub proof fn lemma_fix_inner(
    ns: Nodes,
    n1: Nodes,
    g: Places,
    g1: Places,
    n: int,
    bh: Map<int, int>,
    cur: int,
)
    requires
        rbshape::tree_ok(ns, g, n),
        rbshape::heights_ok(ns, g, bh, HEAD as int, Side::Left),
        rbshape::reds_ok(ns, g, cur),
        rbshape::attached(g, cur),
        ns[cur].red,
        ns[ns[cur].parent].red,
        cur == ns[ns[cur].parent].child(ns[ns[cur].parent].side.flip()),
        rbshape::rotation(ns, n1, ns[cur].parent, ns[ns[cur].parent].side),
        forall|m: int| rbshape::attached(g1, m) <==> rbshape::attached(g, m),
    ensures
        ({
            let p = ns[cur].parent;
            let s = ns[p].side;
            &&& rbshape::heights_ok(n1, g1, bh, HEAD as int, Side::Left)
            &&& rbshape::reds_ok(n1, g1, p)
            &&& n1[p].parent == cur
            &&& n1[p].side == s
            &&& n1[cur].parent == ns[p].parent
            &&& n1[cur].side == s
            &&& n1[ns[p].parent].child(s.flip()) == ns[ns[p].parent].child(s.flip())
        }),
{
    let p = ns[cur].parent;
    let s = ns[p].side;
    let o = s.flip();
    let pp = ns[p].parent;
    lemma_red_parent(ns, g, n, cur);
    let c = ns[cur].child(s);
    assert(rbshape::node_ok(ns, g, n, pp) && rbshape::node_ok(ns, g, n, p) && rbshape::node_ok(ns, g, n, cur));
    assert(c != HEAD ==> rbshape::attached(g, c) && rbshape::node_ok(ns, g, n, c));
    assert(n1[p] == n1[p] && n1[cur] == n1[cur] && n1[pp] == n1[pp] && n1[c] == n1[c]);
    assert(n1[HEAD as int] == n1[HEAD as int]);
    let rt = ns[HEAD as int].left;
    assert(n1[rt] == n1[rt]);
    assert forall|m: int| #[trigger] rbshape::attached(g1, m) && m != p && n1[m].red implies !n1[n1[m].parent].red by {
        assert(rbshape::attached(g, m));
        assert(rbshape::node_ok(ns, g, n, m));
        let q = ns[m].parent;
        assert(n1[m] == n1[m] && n1[q] == n1[q]);
    }
    assert forall|m: int| #[trigger] rbshape::attached(g1, m) implies {
        &&& bh[m] >= 0
        &&& rbshape::height(bh, n1[m].left) == rbshape::wanted(n1, bh, m)
        &&& rbshape::height(bh, n1[m].right) == rbshape::wanted(n1, bh, m)
    } by {
        assert(rbshape::attached(g, m));
        assert(n1[m] == n1[m]);
        assert(rbshape::attached(g, p) && rbshape::attached(g, cur) && rbshape::attached(g, pp));
    }
}

/// `cur` hangs on the outer side: colours swap and one rotation ends the repair.
#[verifier::rlimit(30)]
pub proof fn lemma_fix_outer(
    ns: Nodes,
    n1: Nodes,
    g: Places,
    g1: Places,
    n: int,
    bh: Map<int, int>,
    cur: int,
)
    requires
        rbshape::tree_ok(ns, g, n),
        rbshape::heights_ok(ns, g, bh, HEAD as int, Side::Left),
        rbshape::reds_ok(ns, g, cur),
        rbshape::attached(g, cur),
        ns[cur].red,
        ns[ns[cur].parent].red,
        ns[cur].side == ns[ns[cur].parent].side,
        ({
            let p = ns[cur].parent;
            let pp = ns[p].parent;
            let s = ns[p].side;
            &&& !ns[ns[pp].child(s.flip())].red
            &&& rbshape::rotation(coloured(coloured(ns, p, false), pp, true), n1, pp, s.flip())
        }),
        forall|m: int| rbshape::attached(g1, m) <==> rbshape::attached(g, m),
    ensures
        ({
            let p = ns[cur].parent;
            let pp = ns[p].parent;
            let bh1 = bh.insert(pp, bh[p]).insert(p, bh[p] + 1);
            &&& rbshape::heights_ok(n1, g1, bh1, HEAD as int, Side::Left)
            &&& rbshape::reds_ok(n1, g1, cur)
            &&& n1[cur].parent == p
            &&& !n1[p].red
            &&& n1[cur].red
        }),
{
    let p = ns[cur].parent;
    let s = ns[p].side;
    let o = s.flip();
    let pp = ns[p].parent;
    let n0 = coloured(coloured(ns, p, false), pp, true);
    let bh1 = bh.insert(pp, bh[p]).insert(p, bh[p] + 1);
    lemma_red_parent(ns, g, n, cur);
    let c = ns[p].child(o);
    let u = ns[pp].child(o);
    let ppp = ns[pp].parent;
    assert(rbshape::node_ok(ns, g, n, pp) && rbshape::node_ok(ns, g, n, p) && rbshape::node_ok(ns, g, n, cur));
    assert(c != HEAD ==> rbshape::attached(g, c) && rbshape::node_ok(ns, g, n, c));
    assert(u != HEAD ==> rbshape::attached(g, u) && rbshape::node_ok(ns, g, n, u));
    assert(ppp != HEAD ==> rbshape::attached(g, ppp) && rbshape::node_ok(ns, g, n, ppp));
    assert(c != cur);
    assert(n0[pp].child(o.flip()) == p);
    assert(n1[p] == n1[p] && n1[cur] == n1[cur] && n1[pp] == n1[pp] && n1[c] == n1[c]);
    assert(n1[HEAD as int] == n1[HEAD as int] && n1[u] == n1[u] && n1[ppp] == n1[ppp]);
    let rt = ns[HEAD as int].left;
    assert(n1[rt] == n1[rt]);
    assert forall|m: int| #[trigger] rbshape::attached(g1, m) && m != cur && n1[m].red implies !n1[n1[m].parent].red by {
        assert(rbshape::attached(g, m));
        assert(rbshape::node_ok(ns, g, n, m));
        let q = ns[m].parent;
        assert(q != HEAD ==> rbshape::node_ok(ns, g, n, q));
        assert(n1[m] == n1[m] && n1[q] == n1[q]);
    }
    assert forall|m: int| #[trigger] rbshape::attached(g1, m) implies {
        &&& bh1[m] >= 0
        &&& rbshape::height(bh1, n1[m].left) == rbshape::wanted(n1, bh1, m)
        &&& rbshape::height(bh1, n1[m].right) == rbshape::wanted(n1, bh1, m)
    } by {
        assert(rbshape::attached(g, m));
        assert(rbshape::node_ok(ns, g, n, m));
        assert(n1[m] == n1[m]);
        assert(rbshape::attached(g, p) && rbshape::attached(g, cur) && rbshape::attached(g, pp));
        let l = ns[m].left;
        let r = ns[m].right;
        assert(l != HEAD ==> rbshape::attached(g, l) && rbshape::node_ok(ns, g, n, l));
        assert(r != HEAD ==> rbshape::attached(g, r) && rbshape::node_ok(ns, g, n, r));
    }
}

/// The black heights once the root was made black.
pub open spec fn heights_rooted(ns: Nodes, bh: Map<int, int>) -> Map<int, int> {
    let r = ns[HEAD as int].left;
    if ns[r].red {
        bh.insert(r, bh[r] + 1)
    } else {
        bh
    }
}

/// Blackening the root ends the repair of an insertion.
pub proof fn lemma_fix_root(ns: Nodes, g: Places, n: int, bh: Map<int, int>, cur: int)
    requires
        rbshape::tree_ok(ns, g, n),
        rbshape::heights_ok(ns, g, bh, HEAD as int, Side::Left),
        rbshape::reds_ok(ns, g, cur),
        rbshape::attached(g, cur),
        !ns[ns[cur].parent].red,
    ensures
        rbshape::balanced(coloured(ns, ns[HEAD as int].left, false), g, heights_rooted(ns, bh)),
{
    let r = ns[HEAD as int].left;
    let n1 = coloured(ns, r, false);
    let bh1 = heights_rooted(ns, bh);
    assert(rbshape::node_ok(ns, g, n, cur));
    assert(rbshape::root_ok(ns, g, n));
    assert(rbshape::node_ok(ns, g, n, r));
    assert forall|m: int| #[trigger] rbshape::attached(g, m) && n1[m].red implies !n1[n1[m].parent].red by {
        assert(rbshape::node_ok(ns, g, n, m));
    }
    assert forall|m: int| #[trigger] rbshape::attached(g, m) implies {
        &&& bh1[m] >= 0
        &&& rbshape::height(bh1, n1[m].left) == rbshape::wanted(n1, bh1, m)
        &&& rbshape::height(bh1, n1[m].right) == rbshape::wanted(n1, bh1, m)
    } by {
        assert(rbshape::node_ok(ns, g, n, m));
        let l = ns[m].left;
        let q = ns[m].right;
        assert(l != HEAD ==> rbshape::attached(g, l) && rbshape::node_ok(ns, g, n, l));
        assert(q != HEAD ==> rbshape::attached(g, q) && rbshape::node_ok(ns, g, n, q));
    }
}

/// No red member has a red parent where neither of the two is `v`; the root is black
/// unless it is `v`.
pub open spec fn reds_ok_round(ns: Nodes, g: Places, v: int) -> bool {
    &&& forall|m: int| #[trigger]
        rbshape::attached(g, m) && m != v && ns[m].parent != v && ns[m].red ==> !ns[ns[m].parent].red
    &&& ns[HEAD as int].left != v ==> !ns[ns[HEAD as int].left].red
}

/// The subtree at `cur` lacks one black member.
pub open spec fn lacking(ns: Nodes, g: Places, bh: Map<int, int>, cur: int) -> bool {
    let p = ns[cur].parent;
    let s = ns[cur].side;
    &&& cur == HEAD || rbshape::attached(g, cur)
    &&& rbshape::heights_ok(ns, g, bh, p, s)
    &&& reds_ok_round(ns, g, cur)
    &&& (p == HEAD && s == Side::Left && ns[HEAD as int].left == cur) || (rbshape::attached(g, p)
        && ns[p].child(s) == cur)
}

/// A black `cur` below the root has a sibling; where that is red, its children are
/// not empty.
pub proof fn lemma_sibling(ns: Nodes, g: Places, n: int, bh: Map<int, int>, cur: int)
    requires
        rbshape::tree_ok(ns, g, n),
        lacking(ns, g, bh, cur),
        !ns[cur].red,
        cur != ns[HEAD as int].left,
    ensures
        ({
            let p = ns[cur].parent;
            let s = ns[cur].side;
            let w = ns[p].child(s.flip());
            &&& rbshape::attached(g, p)
            &&& p != cur
            &&& rbshape::attached(g, w)
            &&& w != cur
            &&& w != p
            &&& ns[w].parent == p
            &&& ns[w].side == s.flip()
            &&& bh[w] == rbshape::height(bh, cur) + 1
            &&& bh[p] == bh[w] + (if ns[p].red {
                0int
            } else {
                1
            })
            &&& ns[w].red ==> {
                &&& !ns[p].red
                &&& rbshape::attached(g, ns[w].left)
                &&& rbshape::attached(g, ns[w].right)
                &&& !ns[ns[w].left].red
                &&& !ns[ns[w].right].red
            }
            &&& rbshape::reds_ok(ns, g, HEAD as int)
            &&& !ns[ns[HEAD as int].left].red
        }),
{
    let p = ns[cur].parent;
    let s = ns[cur].side;
    let w = ns[p].child(s.flip());
    assert(rbshape::node_ok(ns, g, n, p));
    assert(cur != HEAD ==> rbshape::node_ok(ns, g, n, cur));
    assert(rbshape::height(bh, cur) >= 0);
    assert(w != HEAD);
    assert(rbshape::attached(g, w) && rbshape::node_ok(ns, g, n, w));
    assert forall|m: int| #[trigger] rbshape::attached(g, m) && m != HEAD && ns[m].red implies !ns[ns[m].parent].red by {}
    if ns[w].red {
        let l = ns[w].left;
        let r = ns[w].right;
        assert(l != HEAD && r != HEAD);
        assert(rbshape::attached(g, l) && rbshape::node_ok(ns, g, n, l));
        assert(rbshape::attached(g, r) && rbshape::node_ok(ns, g, n, r));
    }
}

/// The sibling is red: one rotation gives `cur` a black sibling and a red parent.
pub proof fn lemma_red_sibling(
    ns: Nodes,
    n1: Nodes,
    g: Places,
    g1: Places,
    n: int,
    bh: Map<int, int>,
    cur: int,
)
    requires
        rbshape::tree_ok(ns, g, n),
        lacking(ns, g, bh, cur),
        !ns[cur].red,
        cur != ns[HEAD as int].left,
        ({
            let p = ns[cur].parent;
            let s = ns[cur].side;
            let w = ns[p].child(s.flip());
            &&& ns[w].red
            &&& rbshape::rotation(coloured(coloured(ns, w, false), p, true), n1, p, s)
        }),
        forall|m: int| rbshape::attached(g1, m) <==> rbshape::attached(g, m),
    ensures
        ({
            let p = ns[cur].parent;
            let s = ns[cur].side;
            let w = ns[p].child(s.flip());
            let bh1 = bh.insert(p, bh[w]).insert(w, bh[w] + 1);
            &&& lacking(n1, g1, bh1, cur)
            &&& n1[cur].parent == p
            &&& n1[cur].side == s
            &&& !n1[cur].red
            &&& cur != n1[HEAD as int].left
            &&& n1[p].red
            &&& n1[p].child(s.flip()) == ns[w].child(s)
            &&& !n1[ns[w].child(s)].red
        }),
{
    let p = ns[cur].parent;
    let s = ns[cur].side;
    let o = s.flip();
    let w = ns[p].child(o);
    let n0 = coloured(coloured(ns, w, false), p, true);
    let bh1 = bh.insert(p, bh[w]).insert(w, bh[w] + 1);
    lemma_sibling(ns, g, n, bh, cur);
    let c = ns[w].child(s);
    let d = ns[w].child(o);
    let pp = ns[p].parent;
    assert(rbshape::node_ok(ns, g, n, p) && rbshape::node_ok(ns, g, n, w) && rbshape::node_ok(ns, g, n, c) && rbshape::node_ok(ns, g, n, d));
    assert(cur != HEAD ==> rbshape::node_ok(ns, g, n, cur));
    assert(pp != HEAD ==> rbshape::attached(g, pp) && rbshape::node_ok(ns, g, n, pp));
    assert(n0[p].child(o) == w);
    assert(n1[p] == n1[p] && n1[cur] == n1[cur] && n1[w] == n1[w] && n1[c] == n1[c] && n1[d]
        == n1[d] && n1[pp] == n1[pp]);
    assert(n1[HEAD as int] == n1[HEAD as int]);
    let rt = ns[HEAD as int].left;
    assert(n1[rt] == n1[rt]);
    assert(rbshape::attached(g1, p) && rbshape::attached(g1, w));
    assert forall|m: int| #[trigger] rbshape::attached(g1, m) && m != cur && n1[m].parent != cur && n1[m].red implies !n1[n1[m].parent].red by {
        assert(rbshape::attached(g, m));
        assert(rbshape::node_ok(ns, g, n, m));
        let q = ns[m].parent;
        assert(q != HEAD ==> rbshape::node_ok(ns, g, n, q));
        assert(n1[m] == n1[m] && n1[q] == n1[q]);
    }
    assert forall|m: int| #[trigger] rbshape::attached(g1, m) implies {
        &&& bh1[m] >= 0
        &&& rbshape::height(bh1, n1[m].left) + (if m == p && s == Side::Left {
            1int
        } else {
            0
        }) == rbshape::wanted(n1, bh1, m)
        &&& rbshape::height(bh1, n1[m].right) + (if m == p && s == Side::Right {
            1int
        } else {
            0
        }) == rbshape::wanted(n1, bh1, m)
    } by {
        assert(rbshape::attached(g, m));
        assert(rbshape::node_ok(ns, g, n, m));
        assert(n1[m] == n1[m]);
        assert(rbshape::attached(g, p) && rbshape::attached(g, w) && rbshape::attached(g, c) && rbshape::attached(g, d));
        let l = ns[m].left;
        let r = ns[m].right;
        assert(l != HEAD ==> rbshape::attached(g, l) && rbshape::node_ok(ns, g, n, l));
        assert(r != HEAD ==> rbshape::attached(g, r) && rbshape::node_ok(ns, g, n, r));
    }
}

/// The sibling and its children are black: the sibling turns red and the lack moves
/// up.
#[verifier::rlimit(30)]
pub proof fn lemma_black_sibling(ns: Nodes, g: Places, n: int, bh: Map<int, int>, cur: int)
    requires
        rbshape::tree_ok(ns, g, n),
        lacking(ns, g, bh, cur),
        !ns[cur].red,
        cur != ns[HEAD as int].left,
        ({
            let w = ns[ns[cur].parent].child(ns[cur].side.flip());
            &&& !ns[w].red
            &&& !ns[ns[w].left].red
            &&& !ns[ns[w].right].red
        }),
    ensures
        ({
            let p = ns[cur].parent;
            let w = ns[p].child(ns[cur].side.flip());
            lacking(coloured(ns, w, true), g, bh.insert(w, bh[w] - 1).insert(p, bh[p] - 1), p)
        }),
{
    let p = ns[cur].parent;
    let s = ns[cur].side;
    let w = ns[p].child(s.flip());
    let n1 = coloured(ns, w, true);
    let bh1 = bh.insert(w, bh[w] - 1).insert(p, bh[p] - 1);
    lemma_sibling(ns, g, n, bh, cur);
    assert(rbshape::node_ok(ns, g, n, p) && rbshape::node_ok(ns, g, n, w));
    assert(cur != HEAD ==> rbshape::node_ok(ns, g, n, cur));
    let ps = ns[p].side;
    let pp = ns[p].parent;
    assert(pp != HEAD ==> rbshape::attached(g, pp) && rbshape::node_ok(ns, g, n, pp));
    assert forall|m: int| #[trigger] rbshape::attached(g, m) && m != p && n1[m].parent != p && n1[m].red implies !n1[n1[m].parent].red by {
        assert(rbshape::node_ok(ns, g, n, m));
        let q = ns[m].parent;
        assert(q != HEAD ==> rbshape::node_ok(ns, g, n, q));
    }
    assert forall|m: int| #[trigger] rbshape::attached(g, m) implies {
        &&& bh1[m] >= 0
        &&& rbshape::height(bh1, n1[m].left) + (if m == pp && ps == Side::Left {
            1int
        } else {
            0
        }) == rbshape::wanted(n1, bh1, m)
        &&& rbshape::height(bh1, n1[m].right) + (if m == pp && ps == Side::Right {
            1int
        } else {
            0
        }) == rbshape::wanted(n1, bh1, m)
    } by {
        assert(rbshape::node_ok(ns, g, n, m));
        let l = ns[m].left;
        let r = ns[m].right;
        assert(l != HEAD ==> rbshape::attached(g, l) && rbshape::node_ok(ns, g, n, l));
        assert(r != HEAD ==> rbshape::attached(g, r) && rbshape::node_ok(ns, g, n, r));
    }
}

/// One black member is lacking below `p` on side `s`, and nothing else is amiss.
pub open spec fn lacking_below(ns: Nodes, g: Places, bh: Map<int, int>, p: int, s: Side) -> bool {
    &&& rbshape::attached(g, p)
    &&& rbshape::heights_ok(ns, g, bh, p, s)
    &&& rbshape::reds_ok(ns, g, HEAD as int)
    &&& ns[p].child(s) == HEAD || rbshape::attached(g, ns[p].child(s))
    &&& !ns[ns[p].child(s)].red
}

/// The sibling's inner child alone is red: a rotation makes it the sibling, with a
/// red outer child.
#[verifier::rlimit(30)]
pub proof fn lemma_inner_nephew(
    ns: Nodes,
    n1: Nodes,
    g: Places,
    g1: Places,
    n: int,
    bh: Map<int, int>,
    p: int,
    s: Side,
)
    requires
        rbshape::tree_ok(ns, g, n),
        lacking_below(ns, g, bh, p, s),
        ({
            let o = s.flip();
            let w = ns[p].child(o);
            let c = ns[w].child(s);
            &&& rbshape::attached(g, w)
            &&& !ns[w].red
            &&& !ns[ns[w].child(o)].red
            &&& ns[c].red
            &&& rbshape::rotation(coloured(coloured(ns, c, false), w, true), n1, w, o)
        }),
        forall|m: int| rbshape::attached(g1, m) <==> rbshape::attached(g, m),
    ensures
        ({
            let o = s.flip();
            let w = ns[p].child(o);
            let c = ns[w].child(s);
            let bh1 = bh.insert(w, bh[c]).insert(c, bh[c] + 1);
            &&& lacking_below(n1, g1, bh1, p, s)
            &&& n1[p].child(s) == ns[p].child(s)
            &&& n1[p].child(o) == c
            &&& n1[p].red == ns[p].red
            &&& n1[HEAD as int].left == ns[HEAD as int].left
            &&& rbshape::attached(g, c)
            &&& !n1[c].red
            &&& n1[c].child(o) == w
            &&& n1[w].red
        }),
{
    let o = s.flip();
    let w = ns[p].child(o);
    let c = ns[w].child(s);
    let d = ns[w].child(o);
    let e = ns[c].child(o);
    let cur = ns[p].child(s);
    let n0 = coloured(coloured(ns, c, false), w, true);
    let bh1 = bh.insert(w, bh[c]).insert(c, bh[c] + 1);
    assert(rbshape::node_ok(ns, g, n, p) && rbshape::node_ok(ns, g, n, w));
    assert(c != HEAD);
    assert(rbshape::attached(g, c) && rbshape::node_ok(ns, g, n, c));
    assert(d != HEAD ==> rbshape::attached(g, d) && rbshape::node_ok(ns, g, n, d));
    assert(e != HEAD ==> rbshape::attached(g, e) && rbshape::node_ok(ns, g, n, e));
    assert(cur != HEAD ==> rbshape::attached(g, cur) && rbshape::node_ok(ns, g, n, cur));
    assert(n0[w].child(s) == c);
    assert(n1[p] == n1[p] && n1[w] == n1[w] && n1[c] == n1[c] && n1[d] == n1[d] && n1[e] == n1[e]
        && n1[cur] == n1[cur]);
    assert(n1[HEAD as int] == n1[HEAD as int]);
    let rt = ns[HEAD as int].left;
    assert(n1[rt] == n1[rt]);
    assert(rbshape::root_ok(ns, g, n));
    assert(rbshape::node_ok(ns, g, n, rt));
    assert forall|m: int| #[trigger] rbshape::attached(g1, m) && m != HEAD && n1[m].red implies !n1[n1[m].parent].red by {
        assert(rbshape::attached(g, m));
        assert(rbshape::node_ok(ns, g, n, m));
        let q = ns[m].parent;
        assert(q != HEAD ==> rbshape::node_ok(ns, g, n, q));
        assert(n1[m] == n1[m] && n1[q] == n1[q]);
    }
    assert forall|m: int| #[trigger] rbshape::attached(g1, m) implies {
        &&& bh1[m] >= 0
        &&& rbshape::height(bh1, n1[m].left) + (if m == p && s == Side::Left {
            1int
        } else {
            0
        }) == rbshape::wanted(n1, bh1, m)
        &&& rbshape::height(bh1, n1[m].right) + (if m == p && s == Side::Right {
            1int
        } else {
            0
        }) == rbshape::wanted(n1, bh1, m)
    } by {
        assert(rbshape::attached(g, m));
        assert(rbshape::node_ok(ns, g, n, m));
        assert(n1[m] == n1[m]);
        assert(rbshape::attached(g, p) && rbshape::attached(g, w) && rbshape::attached(g, c));
        let l = ns[m].left;
        let r = ns[m].right;
        assert(l != HEAD ==> rbshape::attached(g, l) && rbshape::node_ok(ns, g, n, l));
        assert(r != HEAD ==> rbshape::attached(g, r) && rbshape::node_ok(ns, g, n, r));
    }
}

/// The sibling's outer child is red: one rotation ends the repair.
#[verifier::rlimit(60)]
pub proof fn lemma_outer_nephew(
    ns: Nodes,
    n1: Nodes,
    g: Places,
    g1: Places,
    n: int,
    bh: Map<int, int>,
    p: int,
    s: Side,
)
    requires
        rbshape::tree_ok(ns, g, n),
        lacking_below(ns, g, bh, p, s),
        ({
            let o = s.flip();
            let w = ns[p].child(o);
            let d = ns[w].child(o);
            &&& rbshape::attached(g, w)
            &&& !ns[w].red
            &&& ns[d].red
            &&& rbshape::rotation(
                coloured(coloured(coloured(ns, w, ns[p].red), p, false), d, false),
                n1,
                p,
                s,
            )
        }),
        forall|m: int| rbshape::attached(g1, m) <==> rbshape::attached(g, m),
    ensures
        ({
            let o = s.flip();
            let w = ns[p].child(o);
            let d = ns[w].child(o);
            let bh1 = bh.insert(w, bh[p]).insert(p, bh[d] + 1).insert(d, bh[d] + 1);
            &&& rbshape::balanced(n1, g1, bh1)
            &&& !n1[p].red
            &&& n1[HEAD as int].left == ns[HEAD as int].left || ns[HEAD as int].left == p
        }),
{
    let o = s.flip();
    let w = ns[p].child(o);
    let d = ns[w].child(o);
    let c = ns[w].child(s);
    let cur = ns[p].child(s);
    let pp = ns[p].parent;
    let n0 = coloured(coloured(coloured(ns, w, ns[p].red), p, false), d, false);
    let bh1 = bh.insert(w, bh[p]).insert(p, bh[d] + 1).insert(d, bh[d] + 1);
    assert(rbshape::node_ok(ns, g, n, p) && rbshape::node_ok(ns, g, n, w));
    assert(d != HEAD);
    assert(rbshape::attached(g, d) && rbshape::node_ok(ns, g, n, d));
    assert(c != HEAD ==> rbshape::attached(g, c) && rbshape::node_ok(ns, g, n, c));
    assert(cur != HEAD ==> rbshape::attached(g, cur) && rbshape::node_ok(ns, g, n, cur));
    assert(pp != HEAD ==> rbshape::attached(g, pp) && rbshape::node_ok(ns, g, n, pp));
    assert(n0[p].child(o) == w);
    assert(n1[p] == n1[p] && n1[w] == n1[w] && n1[c] == n1[c] && n1[d] == n1[d] && n1[cur]
        == n1[cur] && n1[pp] == n1[pp]);
    assert(n1[HEAD as int] == n1[HEAD as int]);
    let rt = ns[HEAD as int].left;
    assert(rbshape::root_ok(ns, g, n));
    assert(rbshape::node_ok(ns, g, n, rt));
    assert(n1[rt] == n1[rt]);
    assert(rt == p <==> pp == HEAD);
    assert forall|m: int| #[trigger] rbshape::attached(g1, m) && m != HEAD && n1[m].red implies !n1[n1[m].parent].red by {
        assert(rbshape::attached(g, m));
        assert(rbshape::node_ok(ns, g, n, m));
        let q = ns[m].parent;
        assert(q != HEAD ==> rbshape::node_ok(ns, g, n, q));
        assert(n1[m] == n1[m] && n1[q] == n1[q]);
    }
    assert forall|m: int| #[trigger] rbshape::attached(g1, m) implies {
        &&& bh1[m] >= 0
        &&& rbshape::height(bh1, n1[m].left) == rbshape::wanted(n1, bh1, m)
        &&& rbshape::height(bh1, n1[m].right) == rbshape::wanted(n1, bh1, m)
    } by {
        assert(rbshape::attached(g, m));
        assert(rbshape::node_ok(ns, g, n, m));
        assert(n1[m] == n1[m]);
        assert(rbshape::attached(g, p) && rbshape::attached(g, w) && rbshape::attached(g, d));
        let l = ns[m].left;
        let r = ns[m].right;
        assert(l != HEAD ==> rbshape::attached(g, l) && rbshape::node_ok(ns, g, n, l));
        assert(r != HEAD ==> rbshape::attached(g, r) && rbshape::node_ok(ns, g, n, r));
    }
}

/// Blackening a red or topmost `cur` makes up for the lack.
pub proof fn lemma_lack_ends(ns: Nodes, g: Places, n: int, bh: Map<int, int>, cur: int)
    requires
        rbshape::tree_ok(ns, g, n),
        lacking(ns, g, bh, cur),
        ns[cur].red || cur == ns[HEAD as int].left,
    ensures
        rbshape::balanced(
            coloured(ns, cur, false),
            g,
            if ns[cur].red {
                bh.insert(cur, bh[cur] + 1)
            } else {
                bh
            },
        ),
{
    let n1 = coloured(ns, cur, false);
    let bh1 = if ns[cur].red {
        bh.insert(cur, bh[cur] + 1)
    } else {
        bh
    };
    assert(rbshape::root_ok(ns, g, n));
    if cur == HEAD {
        assert(n == 0);
    } else {
        assert(rbshape::node_ok(ns, g, n, cur));
    }
    assert forall|m: int| #[trigger] rbshape::attached(g, m) && m != HEAD && n1[m].red implies !n1[n1[m].parent].red by {
        assert(rbshape::node_ok(ns, g, n, m));
    }
    let p = ns[cur].parent;
    assert(p != HEAD ==> rbshape::attached(g, p) && rbshape::node_ok(ns, g, n, p));
    assert forall|m: int| #[trigger] rbshape::attached(g, m) implies {
        &&& bh1[m] >= 0
        &&& rbshape::height(bh1, n1[m].left) == rbshape::wanted(n1, bh1, m)
        &&& rbshape::height(bh1, n1[m].right) == rbshape::wanted(n1, bh1, m)
    } by {
        assert(rbshape::node_ok(ns, g, n, m));
        let l = ns[m].left;
        let q = ns[m].right;
        assert(l != HEAD ==> rbshape::attached(g, l) && rbshape::node_ok(ns, g, n, l));
        assert(q != HEAD ==> rbshape::attached(g, q) && rbshape::node_ok(ns, g, n, q));
    }
}

/// A fresh red leaf keeps the black heights.
pub proof fn lemma_leaf(
    ns: Nodes,
    g: Places,
    n: int,
    bh: Map<int, int>,
    node: int,
    last: int,
    s: Side,
)
    requires
        rbshape::tree_ok(ns, g, n),
        rbshape::balanced(ns, g, bh),
        rbshape::spot_ok(ns, g, n, last, s),
        !g.contains_key(node),
        node != HEAD,
    ensures
        ({
            let n1 = rbshape::nodes_with(ns, node, last, s);
            let g1 = rbshape::places_with(g, node, last, s);
            &&& rbshape::heights_ok(n1, g1, bh.insert(node, 0), HEAD as int, Side::Left)
            &&& rbshape::reds_ok(n1, g1, node)
            &&& rbshape::attached(g1, node)
            &&& n1[node].red
        }),
{
    let n1 = rbshape::nodes_with(ns, node, last, s);
    let g1 = rbshape::places_with(g, node, last, s);
    let bh1 = bh.insert(node, 0);
    assert(rbshape::root_ok(ns, g, n));
    assert(last != HEAD ==> rbshape::node_ok(ns, g, n, last));
    assert forall|m: int| #[trigger] rbshape::attached(g1, m) && m != node && n1[m].red implies !n1[n1[m].parent].red by {
        assert(rbshape::attached(g, m) && rbshape::node_ok(ns, g, n, m));
    }
    let rt = ns[HEAD as int].left;
    assert(n != 0 ==> rbshape::attached(g, rt));
    assert forall|m: int| #[trigger] rbshape::attached(g1, m) implies {
        &&& bh1[m] >= 0
        &&& rbshape::height(bh1, n1[m].left) == rbshape::wanted(n1, bh1, m)
        &&& rbshape::height(bh1, n1[m].right) == rbshape::wanted(n1, bh1, m)
    } by {
        if m != node {
            assert(rbshape::attached(g, m) && rbshape::node_ok(ns, g, n, m));
        }
    }
}

/// Changes off the tree leave it balanced.
pub proof fn lemma_off_tree(
    ns: Nodes,
    n1: Nodes,
    g: Places,
    g1: Places,
    n: int,
    bh: Map<int, int>,
)
    requires
        rbshape::tree_ok(ns, g, n),
        rbshape::balanced(ns, g, bh),
        forall|m: int| #[trigger] rbshape::attached(g1, m) <==> rbshape::attached(g, m),
        forall|m: int| #![trigger n1[m]]
            rbshape::attached(g, m) || m == HEAD ==> n1[m].left == ns[m].left && n1[m].right == ns[m].right
                && n1[m].parent == ns[m].parent && n1[m].red == ns[m].red,
    ensures
        rbshape::balanced(n1, g1, bh),
{
    assert(rbshape::root_ok(ns, g, n));
    let rt = ns[HEAD as int].left;
    assert(n1[HEAD as int] == n1[HEAD as int] && n1[rt] == n1[rt]);
    assert forall|m: int| #[trigger] rbshape::attached(g1, m) && m != HEAD && n1[m].red implies !n1[n1[m].parent].red by {
        assert(rbshape::attached(g, m) && rbshape::node_ok(ns, g, n, m));
        assert(n1[m] == n1[m] && n1[ns[m].parent] == n1[ns[m].parent]);
    }
    assert forall|m: int| #[trigger] rbshape::attached(g1, m) implies {
        &&& bh[m] >= 0
        &&& rbshape::height(bh, n1[m].left) == rbshape::wanted(n1, bh, m)
        &&& rbshape::height(bh, n1[m].right) == rbshape::wanted(n1, bh, m)
    } by {
        assert(rbshape::attached(g, m));
        assert(n1[m] == n1[m]);
    }
}

/// A promoted member inherits the colour and the black height.
pub proof fn lemma_promoted_colours(
    ns: Nodes,
    n1: Nodes,
    g: Places,
    g1: Places,
    n: int,
    bh: Map<int, int>,
    x: int,
    z: int,
)
    requires
        rbshape::tree_ok(ns, g, n),
        rbshape::balanced(ns, g, bh),
        rbshape::attached(g, x),
        !rbshape::attached(g, z),
        z != HEAD,
        rbshape::promotion(ns, n1, x, z),
        !n1[HEAD as int].red,
        forall|m: int| #[trigger] rbshape::attached(g1, m) <==> m == z || (rbshape::attached(g, m) && m != x),
    ensures
        rbshape::balanced(n1, g1, bh.insert(z, bh[x])),
{
    let bh1 = bh.insert(z, bh[x]);
    let l = ns[x].left;
    let r = ns[x].right;
    let p = ns[x].parent;
    assert(rbshape::root_ok(ns, g, n));
    assert(rbshape::node_ok(ns, g, n, x));
    assert(l != HEAD ==> rbshape::attached(g, l) && rbshape::node_ok(ns, g, n, l));
    assert(r != HEAD ==> rbshape::attached(g, r) && rbshape::node_ok(ns, g, n, r));
    assert(p != HEAD ==> rbshape::attached(g, p) && rbshape::node_ok(ns, g, n, p));
    let rt = ns[HEAD as int].left;
    assert(rbshape::attached(g, rt) && rbshape::node_ok(ns, g, n, rt));
    assert(n1[HEAD as int] == n1[HEAD as int] && n1[rt] == n1[rt] && n1[p] == n1[p]);
    assert forall|m: int| #[trigger] rbshape::attached(g1, m) && m != HEAD && n1[m].red implies !n1[n1[m].parent].red by {
        assert(n1[m] == n1[m]);
        if m != z {
            assert(rbshape::attached(g, m) && rbshape::node_ok(ns, g, n, m));
            let q = ns[m].parent;
            assert(n1[q] == n1[q]);
            assert(q != HEAD ==> rbshape::attached(g, q) && rbshape::node_ok(ns, g, n, q));
        }
    }
    assert forall|m: int| #[trigger] rbshape::attached(g1, m) implies {
        &&& bh1[m] >= 0
        &&& rbshape::height(bh1, n1[m].left) == rbshape::wanted(n1, bh1, m)
        &&& rbshape::height(bh1, n1[m].right) == rbshape::wanted(n1, bh1, m)
    } by {
        assert(n1[m] == n1[m]);
        if m != z {
            assert(rbshape::attached(g, m) && rbshape::node_ok(ns, g, n, m));
            let ml = ns[m].left;
            let mr = ns[m].right;
            assert(ml != HEAD ==> rbshape::attached(g, ml) && rbshape::node_ok(ns, g, n, ml));
            assert(mr != HEAD ==> rbshape::attached(g, mr) && rbshape::node_ok(ns, g, n, mr));
        }
    }
}

/// Splicing out a red member keeps the balance; a black one leaves a lack.
pub proof fn lemma_spliced_colours(
    ns: Nodes,
    g: Places,
    n: int,
    bh: Map<int, int>,
    x: int,
    t: Side,
)
    requires
        rbshape::tree_ok(ns, g, n),
        rbshape::balanced(ns, g, bh),
        rbshape::attached(g, x),
        ns[x].child(t) == HEAD,
    ensures
        ({
            let c = ns[x].child(t.flip());
            let n1 = rbshape::substituted(ns, x, c).remove(x);
            let g1 = rbshape::places_without(g, x);
            &&& ns[x].red ==> rbshape::balanced(n1, g1, bh)
            &&& !ns[x].red ==> lacking(n1, g1, bh, c)
        }),
{
    let c = ns[x].child(t.flip());
    let n1 = rbshape::substituted(ns, x, c).remove(x);
    let g1 = rbshape::places_without(g, x);
    let p = ns[x].parent;
    let ps = ns[x].side;
    assert(rbshape::root_ok(ns, g, n));
    assert(rbshape::node_ok(ns, g, n, x));
    assert(c != HEAD ==> rbshape::attached(g, c) && rbshape::node_ok(ns, g, n, c));
    assert(p != HEAD ==> rbshape::attached(g, p) && rbshape::node_ok(ns, g, n, p));
    let rt = ns[HEAD as int].left;
    assert(rbshape::attached(g, rt) && rbshape::node_ok(ns, g, n, rt));
    assert forall|m: int| #[trigger] rbshape::attached(g1, m) implies rbshape::attached(g, m) && m != x by {}
    assert(c != HEAD ==> rbshape::attached(g1, c));
    assert(p != HEAD ==> rbshape::attached(g1, p));
    assert forall|m: int| #[trigger] rbshape::attached(g1, m) && m != HEAD && (ns[x].red || m != c) && n1[m].red implies !n1[n1[m].parent].red by {
        assert(rbshape::attached(g, m) && rbshape::node_ok(ns, g, n, m));
        let q = ns[m].parent;
        assert(q != HEAD ==> rbshape::attached(g, q) && rbshape::node_ok(ns, g, n, q));
    }
    let lack = if ns[x].red { 0int } else { 1 };
    assert forall|m: int| #[trigger] rbshape::attached(g1, m) implies {
        &&& bh[m] >= 0
        &&& rbshape::height(bh, n1[m].left) + (if m == p && ps == Side::Left {
            lack
        } else {
            0
        }) == rbshape::wanted(n1, bh, m)
        &&& rbshape::height(bh, n1[m].right) + (if m == p && ps == Side::Right {
            lack
        } else {
            0
        }) == rbshape::wanted(n1, bh, m)
    } by {
        assert(rbshape::attached(g, m) && rbshape::node_ok(ns, g, n, m));
        let ml = ns[m].left;
        let mr = ns[m].right;
        assert(ml != HEAD ==> rbshape::attached(g, ml) && rbshape::node_ok(ns, g, n, ml));
        assert(mr != HEAD ==> rbshape::attached(g, mr) && rbshape::node_ok(ns, g, n, mr));
    }
}

/// Moving a red successor keeps the balance; a black one leaves a lack where it was.
#[verifier::rlimit(60)]
pub proof fn lemma_replaced_colours(
    ns: Nodes,
    n1: Nodes,
    g: Places,
    n: int,
    bh: Map<int, int>,
    x: int,
    z: int,
)
    requires
        rbshape::tree_ok(ns, g, n),
        rbshape::balanced(ns, g, bh),
        rbshape::successor_of(ns, g, x, z),
        rbshape::replacement(ns, n1, x, z),
        ns[z].parent != x ==> rbshape::attached(g, ns[z].parent) && ns[z].parent != z && ns[z].parent
            != ns[x].parent && ns[z].parent != ns[x].left && ns[z].parent != HEAD,
        ns[x].parent != z,
        x != z,
        ns[x].parent != x,
    ensures
        ({
            let c = ns[z].right;
            let g1 = rbshape::places_replaced(g, x, z);
            let bh1 = bh.insert(z, bh[x]);
            &&& ns[z].red ==> rbshape::balanced(n1, g1, bh1)
            &&& !ns[z].red ==> lacking(n1, g1, bh1, c)
        }),
{
    let c = ns[z].right;
    let g1 = rbshape::places_replaced(g, x, z);
    let bh1 = bh.insert(z, bh[x]);
    let zp = ns[z].parent;
    let xp = ns[x].parent;
    let xl = ns[x].left;
    let xr = ns[x].right;
    assert(rbshape::root_ok(ns, g, n));
    assert(rbshape::node_ok(ns, g, n, x) && rbshape::node_ok(ns, g, n, z));
    assert(rbshape::attached(g, xl) && rbshape::node_ok(ns, g, n, xl));
    assert(rbshape::attached(g, xr) && rbshape::node_ok(ns, g, n, xr));
    assert(c != HEAD ==> rbshape::attached(g, c) && rbshape::node_ok(ns, g, n, c));
    assert(xp != HEAD ==> rbshape::attached(g, xp) && rbshape::node_ok(ns, g, n, xp));
    assert(zp != x ==> rbshape::node_ok(ns, g, n, zp));
    let rt = ns[HEAD as int].left;
    assert(rbshape::attached(g, rt) && rbshape::node_ok(ns, g, n, rt));
    assert(n1[HEAD as int] == n1[HEAD as int] && n1[rt] == n1[rt] && n1[c] == n1[c] && n1[xl]
        == n1[xl] && n1[xr] == n1[xr] && n1[xp] == n1[xp] && n1[zp] == n1[zp]);
    assert forall|m: int| #[trigger] rbshape::attached(g1, m) <==> rbshape::attached(g, m) && m != x by {}
    let p = if zp == x { z } else { zp };
    let ps = if zp == x { Side::Right } else { Side::Left };
    assert(n1[c].parent == p && n1[c].side == ps);
    assert(rbshape::attached(g1, p) && n1[p].child(ps) == c);
    assert(c != HEAD ==> rbshape::attached(g1, c));
    assert forall|m: int| #[trigger] rbshape::attached(g1, m) && m != HEAD && (ns[z].red || m != c) && n1[m].red implies !n1[n1[m].parent].red by {
        assert(rbshape::attached(g, m) && rbshape::node_ok(ns, g, n, m));
        let q = ns[m].parent;
        assert(n1[m] == n1[m] && n1[q] == n1[q]);
        assert(q != HEAD ==> rbshape::attached(g, q) && rbshape::node_ok(ns, g, n, q));
    }
    let lack = if ns[z].red { 0int } else { 1 };
    assert forall|m: int| #[trigger] rbshape::attached(g1, m) implies {
        &&& bh1[m] >= 0
        &&& rbshape::height(bh1, n1[m].left) + (if m == p && ps == Side::Left {
            lack
        } else {
            0
        }) == rbshape::wanted(n1, bh1, m)
        &&& rbshape::height(bh1, n1[m].right) + (if m == p && ps == Side::Right {
            lack
        } else {
            0
        }) == rbshape::wanted(n1, bh1, m)
    } by {
        assert(rbshape::attached(g, m) && rbshape::node_ok(ns, g, n, m));
        assert(n1[m] == n1[m]);
        let ml = ns[m].left;
        let mr = ns[m].right;
        assert(ml != HEAD ==> rbshape::attached(g, ml) && rbshape::node_ok(ns, g, n, ml));
        assert(mr != HEAD ==> rbshape::attached(g, mr) && rbshape::node_ok(ns, g, n, mr));
        assert(rbshape::attached(g, x) && rbshape::attached(g, z));
    }
}

} // verus!
