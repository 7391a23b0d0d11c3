//! The shape of the red-black multi-tree, and how each step of an insertion or
//! an erasure changes it.
//!
//! The tree is described by its in-order sequence of equal-key groups. Every
//! member of a group knows its place in that sequence, and the member that is
//! attached to the tree knows which stretch of the sequence its subtree covers.
//! All conditions speak of a node and its direct neighbours only.

use vstd::prelude::*;

verus! {

/// Which of a node's two children or chain neighbours is meant.
#[derive(Clone, Copy, PartialEq, Eq, Structural, Debug)]
pub enum Side {
    Left,
    Right,
}

/// A node's colour.
#[derive(Clone, Copy, PartialEq, Eq, Structural, Debug)]
pub enum Colour {
    Black,
    Red,
}

impl Side {
    /// The other side, in specifications.
    pub open spec fn flip(self) -> Side {
        match self {
            Side::Left => Side::Right,
            Side::Right => Side::Left,
        }
    }

    /// The other side.
    pub fn other(self) -> (o: Side)
        ensures
            o == self.flip(),
    {
        match self {
            Side::Left => Side::Right,
            Side::Right => Side::Left,
        }
    }
}

/// The address of the sentinel, which stands for every empty subtree.
pub const HEAD: u64 = 4;

/// The fields of a node.
pub struct NodeView {
    pub left: int,
    pub right: int,
    pub prev: int,
    pub next: int,
    pub parent: int,
    pub side: Side,
    pub red: bool,
}

impl NodeView {
    pub open spec fn child(self, s: Side) -> int {
        match s {
            Side::Left => self.left,
            Side::Right => self.right,
        }
    }

    pub open spec fn with_child(self, s: Side, c: int) -> NodeView {
        match s {
            Side::Left => NodeView { left: c, ..self },
            Side::Right => NodeView { right: c, ..self },
        }
    }

    pub open spec fn neighbour(self, s: Side) -> int {
        match s {
            Side::Left => self.prev,
            Side::Right => self.next,
        }
    }

    pub open spec fn with_neighbour(self, s: Side, c: int) -> NodeView {
        match s {
            Side::Left => NodeView { prev: c, ..self },
            Side::Right => NodeView { next: c, ..self },
        }
    }

    pub open spec fn with_parent(self, parent: int, side: Side) -> NodeView {
        NodeView { parent, side, ..self }
    }

    pub open spec fn with_red(self, red: bool) -> NodeView {
        NodeView { red, ..self }
    }
}

/// The nodes by address.
pub type Nodes = Map<int, NodeView>;

/// Where a member stands: its group's position, its index in the group and, for
/// the first of a group, the stretch of positions that its subtree covers.
pub struct Place {
    pub pos: int,
    pub idx: int,
    pub lo: int,
    pub hi: int,
}

/// The places by address.
pub type Places = Map<int, Place>;

/// The equal-key groups in ascending order of key, each with its attached member
/// first.
pub type Groups = Seq<Seq<int>>;

/// Whether `m` is attached to the tree.
pub open spec fn attached(g: Places, m: int) -> bool {
    g.contains_key(m) && g[m].idx == 0
}

/// The stretch of positions below `m` on side `s`.
pub open spec fn below(g: Places, m: int, s: Side) -> (int, int) {
    match s {
        Side::Left => (g[m].lo, g[m].pos),
        Side::Right => (g[m].pos + 1, g[m].hi),
    }
}

/// The child of `m` on side `s` covers the stretch that it should.
pub open spec fn child_ok(ns: Nodes, g: Places, m: int, s: Side) -> bool {
    let c = ns[m].child(s);
    let (a, b) = below(g, m, s);
    if a == b {
        c == HEAD
    } else {
        &&& attached(g, c)
        &&& g[c].lo == a
        &&& g[c].hi == b
        &&& ns[c].parent == m
        &&& ns[c].side == s
    }
}

/// The parent of `m` has `m` as its child.
pub open spec fn parent_ok(ns: Nodes, g: Places, m: int) -> bool {
    let p = ns[m].parent;
    let s = ns[m].side;
    ||| p == HEAD && s == Side::Left && ns[HEAD as int].left == m
    ||| attached(g, p) && ns[p].child(s) == m
}

/// The sentinel's own links.
pub open spec fn head_ok(ns: Nodes) -> bool {
    let h = ns[HEAD as int];
    &&& ns.contains_key(HEAD as int)
    &&& h.right == HEAD
    &&& h.prev == HEAD
    &&& h.next == HEAD
    &&& !h.red
}

/// The root covers all positions.
pub open spec fn root_ok(ns: Nodes, g: Places, n: int) -> bool {
    let r = ns[HEAD as int].left;
    if n == 0 {
        r == HEAD
    } else {
        &&& attached(g, r)
        &&& g[r].lo == 0
        &&& g[r].hi == n
        &&& ns[r].parent == HEAD
        &&& ns[r].side == Side::Left
    }
}

/// Everything that ties one attached member to its neighbours in the tree.
pub open spec fn node_ok(ns: Nodes, g: Places, n: int, m: int) -> bool {
    &&& ns.contains_key(m)
    &&& 0 <= g[m].lo <= g[m].pos < g[m].hi <= n
    &&& child_ok(ns, g, m, Side::Left)
    &&& child_ok(ns, g, m, Side::Right)
    &&& parent_ok(ns, g, m)
}

/// The tree links of all attached members.
pub open spec fn tree_ok(ns: Nodes, g: Places, n: int) -> bool {
    &&& head_ok(ns)
    &&& root_ok(ns, g, n)
    &&& !g.contains_key(HEAD as int)
    &&& forall|m: int| attached(g, m) ==> #[trigger] node_ok(ns, g, n, m)
    &&& forall|m: int, k: int|
        #![trigger attached(g, m), attached(g, k)]
        attached(g, m) && attached(g, k) && g[m].pos == g[k].pos ==> m == k
}

/// The places and the groups agree.
pub open spec fn groups_ok(g: Places, groups: Groups) -> bool {
    &&& forall|m: int| #[trigger]
        g.contains_key(m) ==> 0 <= g[m].pos < groups.len() && 0 <= g[m].idx
            < groups[g[m].pos].len() && groups[g[m].pos][g[m].idx] == m
    &&& forall|p: int, i: int|
        #![trigger groups[p][i]]
        0 <= p < groups.len() && 0 <= i < groups[p].len() ==> g.contains_key(groups[p][i])
            && g[groups[p][i]].pos == p && g[groups[p][i]].idx == i
    &&& forall|p: int| 0 <= p < groups.len() ==> #[trigger] groups[p].len() > 0
}

/// The index after `i` on a ring of `n`.
pub open spec fn ring_next(i: int, n: int) -> int {
    if i + 1 == n {
        0
    } else {
        i + 1
    }
}

/// The index before `i` on a ring of `n`.
pub open spec fn ring_prev(i: int, n: int) -> int {
    if i == 0 {
        n - 1
    } else {
        i - 1
    }
}

/// The links of `m` on the ring of its group.
pub open spec fn ring_ok(ns: Nodes, g: Places, groups: Groups, m: int) -> bool {
    let grp = groups[g[m].pos];
    &&& ns.contains_key(m)
    &&& ns[m].next == grp[ring_next(g[m].idx, grp.len() as int)]
    &&& ns[m].prev == grp[ring_prev(g[m].idx, grp.len() as int)]
    &&& g[m].idx > 0 ==> ns[m].parent == 0
}

/// The ring of each group.
pub open spec fn chains_ok(ns: Nodes, g: Places, groups: Groups) -> bool {
    forall|m: int| g.contains_key(m) ==> #[trigger] ring_ok(ns, g, groups, m)
}

/// Addresses that can be tagged and are neither null nor the sentinel.
pub open spec fn addrs_ok(ns: Nodes, g: Places) -> bool {
    &&& forall|m: int| #[trigger] ns.contains_key(m) ==> m == HEAD || g.contains_key(m)
    &&& forall|m: int| #[trigger]
        g.contains_key(m) ==> ns.contains_key(m) && HEAD < m <= u64::MAX && m % 4 == 0
}

/// Keys ascend from group to group and agree within a group.
pub open spec fn keys_ok(keys: Map<int, u64>, g: Places, groups: Groups) -> bool {
    &&& forall|m: int| #[trigger] keys.contains_key(m) <==> g.contains_key(m)
    &&& forall|m: int| #[trigger] g.contains_key(m) ==> keys[m] == keys[groups[g[m].pos][0]]
    &&& forall|p: int, q: int|
        #![trigger groups[p], groups[q]]
        0 <= p < q < groups.len() ==> keys[groups[p][0]] < keys[groups[q][0]]
}

/// The black height of the subtree at `c`.
pub open spec fn height(bh: Map<int, int>, c: int) -> int {
    if c == HEAD {
        0
    } else {
        bh[c]
    }
}

/// The black height that `m` wants of each of its children.
pub open spec fn wanted(ns: Nodes, bh: Map<int, int>, m: int) -> int {
    bh[m] - (if ns[m].red {
        0int
    } else {
        1
    })
}

/// Black heights agree at every attached member, but for one missing below `p` on
/// side `s`.
pub open spec fn heights_ok(ns: Nodes, g: Places, bh: Map<int, int>, p: int, s: Side) -> bool {
    &&& forall|m: int| #[trigger]
        attached(g, m) ==> {
            &&& bh[m] >= 0
            &&& height(bh, ns[m].left) + (if m == p && s == Side::Left {
                1int
            } else {
                0
            }) == wanted(ns, bh, m)
            &&& height(bh, ns[m].right) + (if m == p && s == Side::Right {
                1int
            } else {
                0
            }) == wanted(ns, bh, m)
        }
}

/// No red member has a red parent, but perhaps `v`; the root is black unless it is
/// `v`.
pub open spec fn reds_ok(ns: Nodes, g: Places, v: int) -> bool {
    &&& forall|m: int| #[trigger]
        attached(g, m) && m != v && ns[m].red ==> !ns[ns[m].parent].red
    &&& ns[HEAD as int].left != v ==> !ns[ns[HEAD as int].left].red
}

/// The red-black conditions.
pub open spec fn balanced(ns: Nodes, g: Places, bh: Map<int, int>) -> bool {
    &&& heights_ok(ns, g, bh, HEAD as int, Side::Left)
    &&& reds_ok(ns, g, HEAD as int)
}

/// The nodes after `x` was rotated down to side `s`.
pub open spec fn rotated(ns: Nodes, x: int, s: Side) -> Nodes {
    let o = s.flip();
    let y = ns[x].child(o);
    let c = ns[y].child(s);
    let p = ns[x].parent;
    let ps = ns[x].side;
    let n1 = ns.insert(x, ns[x].with_child(o, c));
    let n2 = n1.insert(c, n1[c].with_parent(x, o));
    let n3 = n2.insert(y, n2[y].with_parent(p, ps));
    let n4 = n3.insert(p, n3[p].with_child(ps, y));
    let n5 = n4.insert(y, n4[y].with_child(s, x));
    n5.insert(x, n5[x].with_parent(y, s))
}

/// The places after `x` was rotated down to side `s`, with `y` going up.
pub open spec fn rotated_places(g: Places, x: int, y: int, s: Side) -> Places {
    let gx = g[x];
    let gy = g[y];
    g.insert(y, Place { lo: gx.lo, hi: gx.hi, ..gy }).insert(
        x,
        match s {
            Side::Left => Place { hi: gy.pos, ..gx },
            Side::Right => Place { lo: gy.pos + 1, ..gx },
        },
    )
}

/// What a rotation does to each field.
pub open spec fn rotation(ns: Nodes, n1: Nodes, x: int, s: Side) -> bool {
    let o = s.flip();
    let y = ns[x].child(o);
    let c = ns[y].child(s);
    let p = ns[x].parent;
    let ps = ns[x].side;
    &&& n1.dom() == ns.dom()
    &&& forall|m: int| #![trigger n1[m]] n1[m].red == ns[m].red && n1[m].prev == ns[m].prev
        && n1[m].next == ns[m].next
    &&& n1[x].child(s) == ns[x].child(s)
    &&& n1[x].child(o) == c
    &&& n1[x].parent == y
    &&& n1[x].side == s
    &&& n1[y].child(s) == x
    &&& n1[y].child(o) == ns[y].child(o)
    &&& n1[y].parent == p
    &&& n1[y].side == ps
    &&& n1[c].parent == x
    &&& n1[c].side == o
    &&& n1[p].child(ps) == y
    &&& n1[p].child(ps.flip()) == ns[p].child(ps.flip())
    &&& forall|m: int|
        #![trigger n1[m]]
        m != x && m != y && m != p ==> n1[m].left == ns[m].left && n1[m].right == ns[m].right
    &&& forall|m: int|
        #![trigger n1[m]]
        m != x && m != y && m != c ==> n1[m].parent == ns[m].parent && n1[m].side == ns[m].side
}

proof fn lemma_rotation(ns: Nodes, x: int, s: Side)
    requires
        ns.contains_key(x),
        ns.contains_key(ns[x].child(s.flip())),
        ns.contains_key(ns[ns[x].child(s.flip())].child(s)),
        ns.contains_key(ns[x].parent),
        ns[x].child(s.flip()) != x,
        ns[ns[x].child(s.flip())].child(s) != x,
        ns[ns[x].child(s.flip())].child(s) != ns[x].child(s.flip()),
        ns[x].parent != x,
        ns[x].parent != ns[x].child(s.flip()),
    ensures
        rotation(ns, rotated(ns, x, s), x, s),
{
    assert(rotated(ns, x, s).dom() =~= ns.dom());
}

/// The nodes round a rotation are distinct.
proof fn lemma_rotation_apart(ns: Nodes, g: Places, n: int, x: int, s: Side)
    requires
        tree_ok(ns, g, n),
        attached(g, x),
        ns[x].child(s.flip()) != HEAD,
    ensures
        ({
            let y = ns[x].child(s.flip());
            let c = ns[y].child(s);
            let p = ns[x].parent;
            &&& attached(g, y)
            &&& x != y
            &&& c != x
            &&& c != y
            &&& c == HEAD || attached(g, c)
            &&& p != x
            &&& p != y
            &&& p == HEAD || (p != c && attached(g, p) && ns[p].child(ns[x].side) == x)
            &&& x != HEAD
            &&& y != HEAD
            &&& ns.contains_key(x)
            &&& ns.contains_key(y)
            &&& ns.contains_key(c)
            &&& ns.contains_key(p)
            &&& ns[y].parent == x
            &&& ns[y].side == s.flip()
        }),
{
    let y = ns[x].child(s.flip());
    let c = ns[y].child(s);
    let p = ns[x].parent;
    assert(node_ok(ns, g, n, x));
    assert(attached(g, y));
    assert(node_ok(ns, g, n, y));
    if c != HEAD {
        assert(attached(g, c));
        assert(node_ok(ns, g, n, c));
    }
    if p != HEAD {
        assert(attached(g, p));
        assert(node_ok(ns, g, n, p));
    }
}

proof fn lemma_rotated_node(ns: Nodes, n1: Nodes, g: Places, n: int, x: int, s: Side, m: int)
    requires
        tree_ok(ns, g, n),
        attached(g, x),
        ns[x].child(s.flip()) != HEAD,
        rotation(ns, n1, x, s),
        attached(g, m),
    ensures
        node_ok(n1, rotated_places(g, x, ns[x].child(s.flip()), s), n, m),
{
    let o = s.flip();
    let y = ns[x].child(o);
    let c = ns[y].child(s);
    let p = ns[x].parent;
    let g1 = rotated_places(g, x, y, s);
    lemma_rotation_apart(ns, g, n, x, s);
    assert(node_ok(ns, g, n, x) && node_ok(ns, g, n, y) && node_ok(ns, g, n, m));
    let l = ns[m].left;
    let r = ns[m].right;
    let q = ns[m].parent;
    if l != HEAD {
        assert(attached(g, l) && node_ok(ns, g, n, l));
    }
    if r != HEAD {
        assert(attached(g, r) && node_ok(ns, g, n, r));
    }
    if q != HEAD {
        assert(attached(g, q) && node_ok(ns, g, n, q));
    }
    if c != HEAD {
        assert(node_ok(ns, g, n, c));
    }
    if p != HEAD {
        assert(node_ok(ns, g, n, p));
    }
    assert(n1[m] == n1[m]);
    assert(n1[l] == n1[l] && n1[r] == n1[r] && n1[q] == n1[q] && n1[HEAD as int] == n1[HEAD as int]);
    assert(attached(g1, x) && attached(g1, y));
    assert(c != HEAD ==> attached(g1, c));
    assert(p != HEAD ==> attached(g1, p));
    assert(l != HEAD ==> attached(g1, l));
    assert(r != HEAD ==> attached(g1, r));
    assert(q != HEAD ==> attached(g1, q));
    if m == x {
    } else if m == y {
    } else {
        assert(child_ok(n1, g1, m, Side::Left));
        assert(child_ok(n1, g1, m, Side::Right));
        assert(parent_ok(n1, g1, m));
    }
}

/// A rotation keeps the tree links in order.
pub proof fn lemma_rotated(ns: Nodes, g: Places, n: int, x: int, s: Side)
    requires
        tree_ok(ns, g, n),
        attached(g, x),
        ns[x].child(s.flip()) != HEAD,
    ensures
        rotation(ns, rotated(ns, x, s), x, s),
        ({
            let y = ns[x].child(s.flip());
            let g1 = rotated_places(g, x, y, s);
            &&& tree_ok(rotated(ns, x, s), g1, n)
            &&& forall|m: int| attached(g1, m) <==> attached(g, m)
        }),
{
    let o = s.flip();
    let y = ns[x].child(o);
    let g1 = rotated_places(g, x, y, s);
    let n1 = rotated(ns, x, s);
    lemma_rotation_apart(ns, g, n, x, s);
    lemma_rotation(ns, x, s);
    assert forall|m: int| attached(g1, m) <==> attached(g, m) by {}
    assert forall|m: int| attached(g1, m) implies #[trigger] node_ok(n1, g1, n, m) by {
        assert(attached(g, m));
        lemma_rotated_node(ns, n1, g, n, x, s, m);
    }
    assert forall|m: int, k: int|
        #![trigger attached(g1, m), attached(g1, k)]
        attached(g1, m) && attached(g1, k) && g1[m].pos == g1[k].pos implies m == k by {
        assert(attached(g, m) && attached(g, k));
    }
    assert(n1[HEAD as int] == n1[HEAD as int]);
    assert(node_ok(ns, g, n, x) && node_ok(ns, g, n, y));
    let r = ns[HEAD as int].left;
    assert(attached(g, r) && node_ok(ns, g, n, r));
    assert(n1[r] == n1[r]);
    assert(root_ok(n1, g1, n));
}

/// Everything but the colours.
pub open spec fn linked(
    ns: Nodes,
    g: Places,
    groups: Groups,
    keys: Map<int, u64>,
) -> bool {
    &&& tree_ok(ns, g, groups.len() as int)
    &&& groups_ok(g, groups)
    &&& chains_ok(ns, g, groups)
    &&& addrs_ok(ns, g)
    &&& keys_ok(keys, g, groups)
}

/// A rotation touches neither groups nor chains nor keys.
pub proof fn lemma_rotated_linked(
    ns: Nodes,
    g: Places,
    groups: Groups,
    keys: Map<int, u64>,
    x: int,
    s: Side,
)
    requires
        linked(ns, g, groups, keys),
        attached(g, x),
        ns[x].child(s.flip()) != HEAD,
    ensures
        rotation(ns, rotated(ns, x, s), x, s),
        ({
            let y = ns[x].child(s.flip());
            let g1 = rotated_places(g, x, y, s);
            &&& linked(rotated(ns, x, s), g1, groups, keys)
            &&& forall|m: int| attached(g1, m) <==> attached(g, m)
        }),
{
    let n = groups.len() as int;
    let y = ns[x].child(s.flip());
    let g1 = rotated_places(g, x, y, s);
    let n1 = rotated(ns, x, s);
    lemma_rotated(ns, g, n, x, s);
    lemma_rotation_apart(ns, g, n, x, s);
    assert forall|m: int| g1.contains_key(m) implies #[trigger] ring_ok(n1, g1, groups, m) by {
        assert(g.contains_key(m) && ring_ok(ns, g, groups, m));
        assert(n1[m].next == ns[m].next);
    }
    assert(addrs_ok(n1, g1)) by {
        assert forall|m: int| #[trigger] n1.contains_key(m) implies m == HEAD || g1.contains_key(
            m,
        ) by {
            assert(ns.contains_key(m));
        }
        assert forall|m: int| #[trigger] g1.contains_key(m) implies n1.contains_key(m) && HEAD < m
            <= u64::MAX && m % 4 == 0 by {
            assert(g.contains_key(m));
        }
    }
    assert(keys_ok(keys, g1, groups)) by {
        assert forall|m: int| #[trigger] keys.contains_key(m) <==> g1.contains_key(m) by {
            assert(keys.contains_key(m) <==> g.contains_key(m));
        }
    }
}

/// The position of a node that comes to hang below `last` on side `s`.
pub open spec fn gap(g: Places, last: int, s: Side) -> int {
    if last == HEAD {
        0
    } else {
        match s {
            Side::Left => g[last].pos,
            Side::Right => g[last].pos + 1,
        }
    }
}

/// The place of an old member once a leaf came in at position `q` on side `s`.
pub open spec fn shifted_in(w: Place, q: int, s: Side) -> Place {
    let up = |v: int| if v > q || (s == Side::Right && v == q) { v + 1 } else { v };
    Place {
        pos: if w.pos >= q {
            w.pos + 1
        } else {
            w.pos
        },
        idx: w.idx,
        lo: up(w.lo),
        hi: up(w.hi),
    }
}

/// The places after `node` was hung below `last`.
pub open spec fn places_with(g: Places, node: int, last: int, s: Side) -> Places {
    let q = gap(g, last, s);
    Map::new(
        |m: int| g.contains_key(m) || m == node,
        |m: int|
            if m == node {
                Place { pos: q, idx: 0, lo: q, hi: q + 1 }
            } else {
                shifted_in(g[m], q, s)
            },
    )
}

/// The nodes after `node` was hung below `last`.
pub open spec fn nodes_with(ns: Nodes, node: int, last: int, s: Side) -> Nodes {
    ns.insert(
        node,
        NodeView {
            left: HEAD as int,
            right: HEAD as int,
            prev: node,
            next: node,
            parent: last,
            side: s,
            red: true,
        },
    ).insert(last, ns[last].with_child(s, node))
}

/// A free spot below `last` on side `s`.
pub open spec fn spot_ok(ns: Nodes, g: Places, n: int, last: int, s: Side) -> bool {
    ||| n == 0 && last == HEAD && s == Side::Left
    ||| attached(g, last) && ns[last].child(s) == HEAD
}

proof fn lemma_hung_tree(ns: Nodes, g: Places, n: int, node: int, last: int, s: Side)
    requires
        tree_ok(ns, g, n),
        spot_ok(ns, g, n, last, s),
        !g.contains_key(node),
        node != HEAD,
        forall|m: int| #[trigger] g.contains_key(m) ==> 0 <= g[m].pos < n,
    ensures
        tree_ok(nodes_with(ns, node, last, s), places_with(g, node, last, s), n + 1),
{
    let g1 = places_with(g, node, last, s);
    let n1 = nodes_with(ns, node, last, s);
    let q = gap(g, last, s);
    if last != HEAD {
        assert(node_ok(ns, g, n, last));
    }
    let r = ns[HEAD as int].left;
    if n != 0 {
        assert(node_ok(ns, g, n, r));
    }
    assert(last != node);
    assert forall|m: int| attached(g1, m) implies #[trigger] node_ok(n1, g1, n + 1, m) by {
        if m != node {
            assert(attached(g, m));
            assert(g.contains_key(m));
            assert(node_ok(ns, g, n, m));
            let l = ns[m].left;
            let rr = ns[m].right;
            let p = ns[m].parent;
            assert(l != HEAD ==> attached(g, l) && node_ok(ns, g, n, l));
            assert(rr != HEAD ==> attached(g, rr) && node_ok(ns, g, n, rr));
            assert(p != HEAD ==> attached(g, p) && node_ok(ns, g, n, p));
            assert(l != HEAD ==> attached(g1, l));
            assert(rr != HEAD ==> attached(g1, rr));
            assert(p != HEAD ==> attached(g1, p));
            if m == last {
                assert(attached(g1, node));
            } else {
                assert(n1[m] == ns[m]);
                assert(g[m].pos != g[last].pos || last == HEAD);
                assert(child_ok(n1, g1, m, Side::Left));
                assert(child_ok(n1, g1, m, Side::Right));
                assert(parent_ok(n1, g1, m));
            }
        } else {
            assert(child_ok(n1, g1, m, Side::Left));
            assert(child_ok(n1, g1, m, Side::Right));
            assert(last != HEAD ==> attached(g1, last));
            assert(parent_ok(n1, g1, m));
        }
    }
    assert forall|m: int, k: int|
        #![trigger attached(g1, m), attached(g1, k)]
        attached(g1, m) && attached(g1, k) && g1[m].pos == g1[k].pos implies m == k by {
        if m != node && k != node {
            assert(attached(g, m) && attached(g, k));
        }
    }
}

/// The groups after `node` came in on its own at position `q`.
pub proof fn lemma_hung(
    ns: Nodes,
    g: Places,
    groups: Groups,
    keys: Map<int, u64>,
    node: int,
    key: u64,
    last: int,
    s: Side,
)
    requires
        linked(ns, g, groups, keys),
        spot_ok(ns, g, groups.len() as int, last, s),
        !g.contains_key(node),
        HEAD < node <= u64::MAX,
        node % 4 == 0,
        forall|p: int|
            0 <= p < gap(g, last, s) && p < groups.len() ==> keys[#[trigger] groups[p][0]] < key,
        forall|p: int|
            gap(g, last, s) <= p < groups.len() ==> keys[#[trigger] groups[p][0]] > key,
    ensures
        0 <= gap(g, last, s) <= groups.len(),
        linked(
            nodes_with(ns, node, last, s),
            places_with(g, node, last, s),
            groups.insert(gap(g, last, s), seq![node]),
            keys.insert(node, key),
        ),
{
    let n = groups.len() as int;
    let q = gap(g, last, s);
    let g1 = places_with(g, node, last, s);
    let n1 = nodes_with(ns, node, last, s);
    if last != HEAD {
        assert(node_ok(ns, g, n, last));
    }
    let gr = groups.insert(q, seq![node]);
    let ks = keys.insert(node, key);
    assert forall|m: int| #[trigger] g.contains_key(m) implies 0 <= g[m].pos < n by {}
    lemma_hung_tree(ns, g, n, node, last, s);
    assert(gr.len() == n + 1);
    assert forall|p: int| 0 <= p <= n implies #[trigger] gr[p] == (if p < q {
        groups[p]
    } else if p == q {
        seq![node]
    } else {
        groups[p - 1]
    }) by {}
    assert(groups_ok(g1, gr)) by {
        assert forall|m: int| #[trigger] g1.contains_key(m) implies 0 <= g1[m].pos < gr.len() && 0
            <= g1[m].idx < gr[g1[m].pos].len() && gr[g1[m].pos][g1[m].idx] == m by {
            if m != node {
                assert(g.contains_key(m));
            }
        }
        assert forall|p: int, i: int|
            #![trigger gr[p][i]]
            0 <= p < gr.len() && 0 <= i < gr[p].len() implies g1.contains_key(gr[p][i])
            && g1[gr[p][i]].pos == p && g1[gr[p][i]].idx == i by {
            if p < q {
                assert(g.contains_key(groups[p][i]));
            } else if p > q {
                assert(g.contains_key(groups[p - 1][i]));
            }
        }
    }
    assert(chains_ok(n1, g1, gr)) by {
        assert forall|m: int| g1.contains_key(m) implies #[trigger] ring_ok(n1, g1, gr, m) by {
            if m != node {
                assert(g.contains_key(m) && ring_ok(ns, g, groups, m));
            }
        }
    }
    assert(addrs_ok(n1, g1)) by {
        assert forall|m: int| #[trigger] n1.contains_key(m) implies m == HEAD || g1.contains_key(
            m,
        ) by {
            if m != node && m != HEAD {
                assert(ns.contains_key(m) || m == last);
            }
        }
        assert forall|m: int| #[trigger] g1.contains_key(m) implies n1.contains_key(m) && HEAD < m
            <= u64::MAX && m % 4 == 0 by {
            if m != node {
                assert(g.contains_key(m));
            }
        }
    }
    assert(keys_ok(ks, g1, gr)) by {
        assert forall|m: int| #[trigger] ks.contains_key(m) <==> g1.contains_key(m) by {
            assert(keys.contains_key(m) <==> g.contains_key(m));
        }
        assert forall|m: int| #[trigger] g1.contains_key(m) implies ks[m] == ks[gr[g1[m].pos][0]] by {
            if m != node {
                assert(g.contains_key(m));
                assert(g.contains_key(groups[g[m].pos][0]));
            }
        }
        assert forall|a: int, b: int|
            #![trigger gr[a], gr[b]]
            0 <= a < b < gr.len() implies ks[gr[a][0]] < ks[gr[b][0]] by {
            let a0 = if a < q { a } else { a - 1 };
            let b0 = if b < q { b } else { b - 1 };
            if a != q {
                assert(g.contains_key(groups[a0][0]));
            }
            if b != q {
                assert(g.contains_key(groups[b0][0]));
            }
        }
    }
}

/// The nodes after `c` took the place of `x` below the parent of `x`.
pub open spec fn substituted(ns: Nodes, x: int, c: int) -> Nodes {
    let p = ns[x].parent;
    let ps = ns[x].side;
    let n1 = ns.insert(c, ns[c].with_parent(p, ps));
    n1.insert(p, n1[p].with_child(ps, c))
}

/// The nodes after `z` took over the parent, the children and the colour of `x`.
pub open spec fn switched(ns: Nodes, z: int, x: int) -> Nodes {
    let l = ns[x].left;
    let r = ns[x].right;
    let p = ns[x].parent;
    let ps = ns[x].side;
    let n1 = ns.insert(z, NodeView { left: l, right: r, parent: p, side: ps, ..ns[z] });
    let n2 = n1.insert(l, n1[l].with_parent(z, Side::Left));
    let n3 = n2.insert(r, n2[r].with_parent(z, Side::Right));
    let n4 = n3.insert(p, n3[p].with_child(ps, z));
    n4.insert(z, n4[z].with_red(ns[x].red))
}

/// The nodes after `x` left its ring.
pub open spec fn unringed(ns: Nodes, x: int) -> Nodes {
    let n = ns[x].next;
    let p = ns[x].prev;
    let n1 = ns.insert(n, ns[n].with_neighbour(Side::Left, p));
    n1.insert(p, n1[p].with_neighbour(Side::Right, n))
}

/// The nodes after `x` joined the ring of `r`, just before it.
pub open spec fn ringed(ns: Nodes, x: int, r: int) -> Nodes {
    let q = ns[r].prev;
    let n1 = ns.insert(
        x,
        NodeView {
            left: 0,
            right: 0,
            prev: q,
            next: r,
            parent: 0,
            side: Side::Left,
            red: true,
        },
    );
    let n2 = n1.insert(r, n1[r].with_neighbour(Side::Left, x));
    n2.insert(q, n2[q].with_neighbour(Side::Right, x))
}

/// The places after `x`, which was alone in its group, left with at most one child.
pub open spec fn places_without(g: Places, x: int) -> Places {
    let p = g[x].pos;
    let down = |v: int| if v > p { v - 1 } else { v };
    Map::new(
        |m: int| g.contains_key(m) && m != x,
        |m: int|
            Place { pos: down(g[m].pos), idx: g[m].idx, lo: down(g[m].lo), hi: down(g[m].hi) },
    )
}

/// The places after `x` left and its successor `z` took over its place.
pub open spec fn places_replaced(g: Places, x: int, z: int) -> Places {
    let p = g[x].pos;
    let down = |v: int| if v > p { v - 1 } else { v };
    Map::new(
        |m: int| g.contains_key(m) && m != x,
        |m: int|
            if m == z {
                Place { pos: p, idx: 0, lo: g[x].lo, hi: g[x].hi - 1 }
            } else {
                Place {
                    pos: down(g[m].pos),
                    idx: g[m].idx,
                    lo: if g[m].lo == p + 1 {
                        p + 1
                    } else {
                        down(g[m].lo)
                    },
                    hi: down(g[m].hi),
                }
            },
    )
}

#[verifier::rlimit(40)]
proof fn lemma_spliced_tree(ns: Nodes, g: Places, n: int, x: int, t: Side)
    requires
        tree_ok(ns, g, n),
        attached(g, x),
        ns[x].child(t) == HEAD,
        forall|m: int| #[trigger] g.contains_key(m) && m != x ==> g[m].pos != g[x].pos,
    ensures
        tree_ok(
            substituted(ns, x, ns[x].child(t.flip())).remove(x),
            places_without(g, x),
            n - 1,
        ),
{
    let c = ns[x].child(t.flip());
    let g1 = places_without(g, x);
    let n1 = substituted(ns, x, c).remove(x);
    let p = ns[x].parent;
    assert(node_ok(ns, g, n, x));
    if c != HEAD {
        assert(attached(g, c) && node_ok(ns, g, n, c));
    }
    if p != HEAD {
        assert(attached(g, p) && node_ok(ns, g, n, p));
    }
    let r = ns[HEAD as int].left;
    assert(node_ok(ns, g, n, r));
    assert forall|m: int| attached(g1, m) implies #[trigger] node_ok(n1, g1, n - 1, m) by {
        assert(attached(g, m));
        assert(node_ok(ns, g, n, m));
        let l = ns[m].left;
        let rr = ns[m].right;
        let q = ns[m].parent;
        assert(l != HEAD ==> attached(g, l) && node_ok(ns, g, n, l));
        assert(rr != HEAD ==> attached(g, rr) && node_ok(ns, g, n, rr));
        assert(q != HEAD ==> attached(g, q) && node_ok(ns, g, n, q));
        assert(l != HEAD && l != x ==> attached(g1, l));
        assert(rr != HEAD && rr != x ==> attached(g1, rr));
        assert(q != HEAD && q != x ==> attached(g1, q));
        assert(c != HEAD ==> attached(g1, c));
        assert(p != HEAD ==> attached(g1, p));
        assert(child_ok(n1, g1, m, Side::Left));
        assert(child_ok(n1, g1, m, Side::Right));
        assert(parent_ok(n1, g1, m));
    }
    assert forall|m: int, k: int|
        #![trigger attached(g1, m), attached(g1, k)]
        attached(g1, m) && attached(g1, k) && g1[m].pos == g1[k].pos implies m == k by {
        assert(attached(g, m) && attached(g, k));
    }
    assert(c != HEAD ==> attached(g1, c));
    assert(r != x ==> attached(g1, r));
    assert(root_ok(n1, g1, n - 1));
}

/// What replacing `x` by its successor `z` does to each field.
pub open spec fn replacement(ns: Nodes, n1: Nodes, x: int, z: int) -> bool {
    let c = ns[z].right;
    let zp = ns[z].parent;
    let xl = ns[x].left;
    let xr = if zp == x {
        c
    } else {
        ns[x].right
    };
    let xp = ns[x].parent;
    let xs = ns[x].side;
    &&& n1.dom() == ns.dom().remove(x)
    &&& n1[z] == NodeView {
        left: xl,
        right: xr,
        parent: xp,
        side: xs,
        red: ns[x].red,
        ..ns[z]
    }
    &&& forall|m: int|
        #![trigger n1[m]]
        m != x && m != z ==> n1[m].red == ns[m].red && n1[m].prev == ns[m].prev && n1[m].next
            == ns[m].next
    &&& forall|m: int|
        #![trigger n1[m]]
        m != x && m != z && m != xp && m != zp ==> n1[m].left == ns[m].left && n1[m].right
            == ns[m].right
    &&& n1[xp].child(xs) == z
    &&& n1[xp].child(xs.flip()) == ns[xp].child(xs.flip())
    &&& zp != x ==> n1[zp].left == c && n1[zp].right == ns[zp].right
    &&& n1[xl].parent == z && n1[xl].side == Side::Left
    &&& n1[xr].parent == z && n1[xr].side == Side::Right
    &&& zp != x ==> n1[c].parent == zp && n1[c].side == Side::Left
    &&& forall|m: int|
        #![trigger n1[m]]
        m != x && m != z && m != xl && m != xr && m != c ==> n1[m].parent == ns[m].parent
            && n1[m].side == ns[m].side
}

/// `z` is the least member of the right subtree of `x`, which has two children.
pub open spec fn successor_of(ns: Nodes, g: Places, x: int, z: int) -> bool {
    &&& attached(g, x)
    &&& attached(g, z)
    &&& ns[x].left != HEAD
    &&& ns[z].left == HEAD
    &&& g[z].pos == g[x].pos + 1
    &&& g[z].hi <= g[x].hi
    &&& ns[z].parent == x || ns[z].side == Side::Left
    &&& ns[z].parent == x ==> ns[z].side == Side::Right
}

pub proof fn lemma_replacement(ns: Nodes, g: Places, n: int, x: int, z: int)
    requires
        tree_ok(ns, g, n),
        successor_of(ns, g, x, z),
    ensures
        replacement(ns, switched(substituted(ns, z, ns[z].right), z, x).remove(x), x, z),
        ns[z].parent != x ==> attached(g, ns[z].parent) && ns[z].parent != z && ns[z].parent
            != ns[x].parent && ns[z].parent != ns[x].left && ns[z].parent != HEAD,
        ns[x].left != z,
        ns[x].parent != z,
        x != z,
        ns[x].parent != x,
        ns[x].right != HEAD,
        ns[z].right != x && ns[z].right != z,
        ns[z].right == HEAD || ns[z].right != ns[x].parent,
        ns[z].right != ns[x].left,
        ns[x].left != x && ns[x].right != x,
        ns[x].right == z <==> ns[z].parent == x,
{
    let c = ns[z].right;
    let zp = ns[z].parent;
    let xp = ns[x].parent;
    let xl = ns[x].left;
    assert(node_ok(ns, g, n, x) && node_ok(ns, g, n, z));
    assert(attached(g, xl) && node_ok(ns, g, n, xl));
    if c != HEAD {
        assert(attached(g, c) && node_ok(ns, g, n, c));
    }
    if xp != HEAD {
        assert(attached(g, xp) && node_ok(ns, g, n, xp));
    }
    if zp == HEAD {
        assert(ns[HEAD as int].left == z);
        assert(root_ok(ns, g, n));
        assert(g[z].lo == 0);
        assert(child_ok(ns, g, z, Side::Left));
        assert(false);
    }
    assert(attached(g, zp) && node_ok(ns, g, n, zp));
    let xr0 = ns[x].right;
    assert(child_ok(ns, g, x, Side::Right));
    assert(attached(g, xr0) && node_ok(ns, g, n, xr0));
    let n0 = substituted(ns, z, c);
    let n1 = switched(n0, z, x).remove(x);
    assert(n1.dom() =~= ns.dom().remove(x));
}

#[verifier::rlimit(100)]
proof fn lemma_replaced_node(ns: Nodes, n1: Nodes, g: Places, n: int, x: int, z: int, m: int)
    requires
        tree_ok(ns, g, n),
        successor_of(ns, g, x, z),
        replacement(ns, n1, x, z),
        attached(g, m),
        m != x,
        forall|m: int| #[trigger] g.contains_key(m) && m != x ==> g[m].pos != g[x].pos,
    ensures
        node_ok(n1, places_replaced(g, x, z), n - 1, m),
{
    let g1 = places_replaced(g, x, z);
    lemma_replacement(ns, g, n, x, z);
    let c = ns[z].right;
    let zp = ns[z].parent;
    let xp = ns[x].parent;
    let xl = ns[x].left;
    let xr = ns[x].right;
    assert(node_ok(ns, g, n, x) && node_ok(ns, g, n, z) && node_ok(ns, g, n, m));
    assert(attached(g, xl) && node_ok(ns, g, n, xl));
    assert(attached(g, xr) && node_ok(ns, g, n, xr));
    assert(c != HEAD ==> attached(g, c) && node_ok(ns, g, n, c));
    assert(xp != HEAD ==> attached(g, xp) && node_ok(ns, g, n, xp));
    assert(zp != x ==> node_ok(ns, g, n, zp));
    let l = ns[m].left;
    let r = ns[m].right;
    let q = ns[m].parent;
    assert(l != HEAD ==> attached(g, l) && node_ok(ns, g, n, l));
    assert(r != HEAD ==> attached(g, r) && node_ok(ns, g, n, r));
    assert(q != HEAD ==> attached(g, q) && node_ok(ns, g, n, q));
    assert(n1[m] == n1[m] && n1[l] == n1[l] && n1[r] == n1[r] && n1[q] == n1[q]);
    assert(n1[HEAD as int] == n1[HEAD as int] && n1[c] == n1[c] && n1[xl] == n1[xl] && n1[xr]
        == n1[xr] && n1[xp] == n1[xp] && n1[zp] == n1[zp]);
    assert(attached(g1, z) && attached(g1, m) && attached(g1, xl));
    assert(c != HEAD ==> attached(g1, c));
    assert(xp != HEAD ==> attached(g1, xp));
    assert(zp != x ==> attached(g1, zp));
    assert(l != HEAD && l != x ==> attached(g1, l));
    assert(r != HEAD && r != x ==> attached(g1, r));
    assert(q != HEAD && q != x ==> attached(g1, q));
    assert(m != z ==> g[m].pos != g[z].pos);
    if m == z {
        assert(child_ok(n1, g1, m, Side::Left));
        assert(child_ok(n1, g1, m, Side::Right));
        assert(parent_ok(n1, g1, m));
    } else if m == zp {
        assert(child_ok(n1, g1, m, Side::Left));
        assert(child_ok(n1, g1, m, Side::Right));
        assert(parent_ok(n1, g1, m));
    } else if m == xp {
        assert(child_ok(n1, g1, m, Side::Left));
        assert(child_ok(n1, g1, m, Side::Right));
        assert(parent_ok(n1, g1, m));
    } else {
        assert(child_ok(n1, g1, m, Side::Left));
        assert(child_ok(n1, g1, m, Side::Right));
        assert(parent_ok(n1, g1, m));
    }
}

proof fn lemma_replaced_tree(ns: Nodes, g: Places, n: int, x: int, z: int)
    requires
        tree_ok(ns, g, n),
        successor_of(ns, g, x, z),
        forall|m: int| #[trigger] g.contains_key(m) && m != x ==> g[m].pos != g[x].pos,
    ensures
        tree_ok(
            switched(substituted(ns, z, ns[z].right), z, x).remove(x),
            places_replaced(g, x, z),
            n - 1,
        ),
{
    let g1 = places_replaced(g, x, z);
    let n1 = switched(substituted(ns, z, ns[z].right), z, x).remove(x);
    lemma_replacement(ns, g, n, x, z);
    assert(node_ok(ns, g, n, x) && node_ok(ns, g, n, z));
    assert forall|m: int| attached(g1, m) implies #[trigger] node_ok(n1, g1, n - 1, m) by {
        assert(attached(g, m));
        lemma_replaced_node(ns, n1, g, n, x, z, m);
    }
    assert forall|m: int, k: int|
        #![trigger attached(g1, m), attached(g1, k)]
        attached(g1, m) && attached(g1, k) && g1[m].pos == g1[k].pos implies m == k by {
        assert(attached(g, m) && attached(g, k));
    }
    let r = ns[HEAD as int].left;
    assert(attached(g, r) && node_ok(ns, g, n, r));
    assert(n1[HEAD as int] == n1[HEAD as int] && n1[r] == n1[r]);
    assert(r != x ==> attached(g1, r));
    assert(attached(g1, z));
    assert(ns[x].parent == HEAD ==> r == x);
    assert(root_ok(n1, g1, n - 1));
}

/// Groups, chains and keys after a member that was alone in its group left.
proof fn lemma_lone_gone(
    ns: Nodes,
    n1: Nodes,
    g: Places,
    g1: Places,
    groups: Groups,
    keys: Map<int, u64>,
    x: int,
)
    requires
        linked(ns, g, groups, keys),
        g.contains_key(x),
        groups[g[x].pos].len() == 1,
        tree_ok(n1, g1, groups.len() - 1),
        forall|m: int| #[trigger] g1.contains_key(m) <==> g.contains_key(m) && m != x,
        forall|m: int| #[trigger]
            g1.contains_key(m) ==> g1[m].idx == g[m].idx && g1[m].pos == (if g[m].pos > g[x].pos {
                g[m].pos - 1
            } else {
                g[m].pos
            }),
        forall|m: int| #[trigger] n1.contains_key(m) <==> ns.contains_key(m) && m != x,
        forall|m: int| #[trigger]
            g1.contains_key(m) ==> n1[m].next == ns[m].next && n1[m].prev == ns[m].prev && (
            g[m].idx > 0 ==> n1[m].parent == ns[m].parent),
    ensures
        linked(n1, g1, groups.remove(g[x].pos), keys.remove(x)),
{
    let p = g[x].pos;
    let gr = groups.remove(p);
    let ks = keys.remove(x);
    assert(gr.len() == groups.len() - 1);
    assert forall|q: int| 0 <= q < gr.len() implies #[trigger] gr[q] == (if q < p {
        groups[q]
    } else {
        groups[q + 1]
    }) by {}
    assert forall|m: int| #[trigger] g1.contains_key(m) implies g[m].pos != p && gr[g1[m].pos]
        == groups[g[m].pos] by {
        assert(g.contains_key(m) && m != x);
        if g[m].pos == p {
            assert(g[m].idx == 0 && g[x].idx == 0);
        }
    }
    assert(groups_ok(g1, gr)) by {
        assert forall|m: int| #[trigger] g1.contains_key(m) implies 0 <= g1[m].pos < gr.len() && 0
            <= g1[m].idx < gr[g1[m].pos].len() && gr[g1[m].pos][g1[m].idx] == m by {
            assert(g.contains_key(m));
        }
        assert forall|q: int, i: int|
            #![trigger gr[q][i]]
            0 <= q < gr.len() && 0 <= i < gr[q].len() implies g1.contains_key(gr[q][i])
            && g1[gr[q][i]].pos == q && g1[gr[q][i]].idx == i by {
            let q0 = if q < p { q } else { q + 1 };
            assert(g.contains_key(groups[q0][i]));
            assert(groups[q0][i] != x);
            assert(g1.contains_key(groups[q0][i]));
        }
    }
    assert forall|m: int| g1.contains_key(m) implies #[trigger] ring_ok(n1, g1, gr, m) by {
        assert(g.contains_key(m) && ring_ok(ns, g, groups, m));
        assert(ns.contains_key(m));
        assert(n1.contains_key(m));
    }
    assert(addrs_ok(n1, g1)) by {
        assert forall|m: int| #[trigger] n1.contains_key(m) implies m == HEAD || g1.contains_key(
            m,
        ) by {
            assert(ns.contains_key(m));
        }
        assert forall|m: int| #[trigger] g1.contains_key(m) implies n1.contains_key(m) && HEAD < m
            <= u64::MAX && m % 4 == 0 by {
            assert(g.contains_key(m));
            assert(ns.contains_key(m));
        }
    }
    assert(keys_ok(ks, g1, gr)) by {
        assert forall|m: int| #[trigger] ks.contains_key(m) <==> g1.contains_key(m) by {
            assert(keys.contains_key(m) <==> g.contains_key(m));
            assert(g1.contains_key(m) <==> g.contains_key(m) && m != x);
        }
        assert forall|m: int| #[trigger] g1.contains_key(m) implies ks[m] == ks[gr[g1[m].pos][0]] by {
            assert(g.contains_key(m));
            assert(g.contains_key(groups[g[m].pos][0]));
            assert(groups[g[m].pos][0] != x);
        }
        assert forall|a: int, b: int|
            #![trigger gr[a], gr[b]]
            0 <= a < b < gr.len() implies ks[gr[a][0]] < ks[gr[b][0]] by {
            let a0 = if a < p { a } else { a + 1 };
            let b0 = if b < p { b } else { b + 1 };
            assert(g.contains_key(groups[a0][0]) && g.contains_key(groups[b0][0]));
            assert(groups[a0][0] != x && groups[b0][0] != x);
        }
    }
}

proof fn lemma_alone(g: Places, groups: Groups, x: int)
    requires
        groups_ok(g, groups),
        g.contains_key(x),
        groups[g[x].pos].len() == 1,
    ensures
        attached(g, x),
        forall|m: int| #[trigger] g.contains_key(m) && m != x ==> g[m].pos != g[x].pos,
{
    assert forall|m: int| #[trigger] g.contains_key(m) && m != x implies g[m].pos != g[x].pos by {
        if g[m].pos == g[x].pos {
            assert(g[m].idx == 0 && g[x].idx == 0);
        }
    }
}

/// `x`, alone in its group and with at most one child, was spliced out.
pub proof fn lemma_spliced(
    ns: Nodes,
    g: Places,
    groups: Groups,
    keys: Map<int, u64>,
    x: int,
    t: Side,
)
    requires
        linked(ns, g, groups, keys),
        g.contains_key(x),
        groups[g[x].pos].len() == 1,
        ns[x].child(t) == HEAD,
    ensures
        linked(
            substituted(ns, x, ns[x].child(t.flip())).remove(x),
            places_without(g, x),
            groups.remove(g[x].pos),
            keys.remove(x),
        ),
{
    let n = groups.len() as int;
    let c = ns[x].child(t.flip());
    let n1 = substituted(ns, x, c).remove(x);
    lemma_alone(g, groups, x);
    lemma_spliced_tree(ns, g, n, x, t);
    assert(node_ok(ns, g, n, x));
    let p = ns[x].parent;
    assert(c != HEAD ==> attached(g, c) && node_ok(ns, g, n, c));
    assert(p != HEAD ==> attached(g, p) && node_ok(ns, g, n, p));
    assert(n1.dom() =~= ns.dom().remove(x));
    lemma_lone_gone(ns, n1, g, places_without(g, x), groups, keys, x);
}

/// `x`, alone in its group and with two children, was replaced by its successor.
pub proof fn lemma_replaced(
    ns: Nodes,
    g: Places,
    groups: Groups,
    keys: Map<int, u64>,
    x: int,
    z: int,
)
    requires
        linked(ns, g, groups, keys),
        g.contains_key(x),
        groups[g[x].pos].len() == 1,
        successor_of(ns, g, x, z),
    ensures
        replacement(ns, switched(substituted(ns, z, ns[z].right), z, x).remove(x), x, z),
        linked(
            switched(substituted(ns, z, ns[z].right), z, x).remove(x),
            places_replaced(g, x, z),
            groups.remove(g[x].pos),
            keys.remove(x),
        ),
{
    let n = groups.len() as int;
    let n1 = switched(substituted(ns, z, ns[z].right), z, x).remove(x);
    let g1 = places_replaced(g, x, z);
    lemma_alone(g, groups, x);
    lemma_replaced_tree(ns, g, n, x, z);
    lemma_replacement(ns, g, n, x, z);
    assert(node_ok(ns, g, n, x) && node_ok(ns, g, n, z));
    let c = ns[z].right;
    assert(c != HEAD ==> attached(g, c));
    assert(attached(g, ns[x].left) && attached(g, ns[x].right));
    assert forall|m: int| #[trigger] g1.contains_key(m) implies n1[m].next == ns[m].next
        && n1[m].prev == ns[m].prev && (g[m].idx > 0 ==> n1[m].parent == ns[m].parent) by {
        assert(n1[m] == n1[m]);
    }
    assert forall|m: int| #[trigger] n1.contains_key(m) <==> ns.contains_key(m) && m != x by {
        assert(n1.dom().contains(m) <==> ns.dom().remove(x).contains(m));
    }
    lemma_lone_gone(ns, n1, g, g1, groups, keys, x);
}

/// The places after `node` joined the group of `r` at its end.
pub open spec fn places_chained(g: Places, groups: Groups, node: int, r: int) -> Places {
    g.insert(
        node,
        Place { pos: g[r].pos, idx: groups[g[r].pos].len() as int, lo: 0, hi: 0 },
    )
}

/// `node` joined the group of the attached member `r`.
pub proof fn lemma_chained(
    ns: Nodes,
    g: Places,
    groups: Groups,
    keys: Map<int, u64>,
    node: int,
    r: int,
)
    requires
        linked(ns, g, groups, keys),
        attached(g, r),
        !g.contains_key(node),
        HEAD < node <= u64::MAX,
        node % 4 == 0,
    ensures
        linked(
            ringed(ns, node, r),
            places_chained(g, groups, node, r),
            groups.update(g[r].pos, groups[g[r].pos].push(node)),
            keys.insert(node, keys[r]),
        ),
        forall|m: int|
            attached(places_chained(g, groups, node, r), m) <==> attached(g, m),
        forall|m: int| #![trigger ringed(ns, node, r)[m]]
            m != node ==> {
                &&& ringed(ns, node, r)[m].left == ns[m].left
                &&& ringed(ns, node, r)[m].right == ns[m].right
                &&& ringed(ns, node, r)[m].parent == ns[m].parent
                &&& ringed(ns, node, r)[m].side == ns[m].side
                &&& ringed(ns, node, r)[m].red == ns[m].red
            },
{
    let n = groups.len() as int;
    let p = g[r].pos;
    let grp = groups[p];
    let q = ns[r].prev;
    let n1 = ringed(ns, node, r);
    let g1 = places_chained(g, groups, node, r);
    let gr = groups.update(p, grp.push(node));
    let ks = keys.insert(node, keys[r]);
    assert(g.contains_key(r) && ring_ok(ns, g, groups, r));
    assert(q == grp[grp.len() - 1]);
    assert(g.contains_key(groups[p][grp.len() - 1]));
    assert(g.contains_key(groups[p][0]) && groups[p][0] == r);
    assert(ring_ok(ns, g, groups, q));
    assert(node_ok(ns, g, n, r));
    assert forall|m: int| attached(g1, m) implies #[trigger] node_ok(n1, g1, n, m) by {
        assert(attached(g, m));
        assert(node_ok(ns, g, n, m));
        let l = ns[m].left;
        let rr = ns[m].right;
        let pp = ns[m].parent;
        assert(l != HEAD ==> attached(g1, l));
        assert(rr != HEAD ==> attached(g1, rr));
        assert(pp != HEAD ==> attached(g1, pp));
    }
    assert forall|m: int, k: int|
        #![trigger attached(g1, m), attached(g1, k)]
        attached(g1, m) && attached(g1, k) && g1[m].pos == g1[k].pos implies m == k by {
        assert(attached(g, m) && attached(g, k));
    }
    assert(root_ok(ns, g, n));
    assert(root_ok(n1, g1, n));
    assert(tree_ok(n1, g1, n));
    assert(groups_ok(g1, gr)) by {
        assert forall|m: int| #[trigger] g1.contains_key(m) implies 0 <= g1[m].pos < gr.len() && 0
            <= g1[m].idx < gr[g1[m].pos].len() && gr[g1[m].pos][g1[m].idx] == m by {
            if m != node {
                assert(g.contains_key(m));
            }
        }
        assert forall|a: int, i: int|
            #![trigger gr[a][i]]
            0 <= a < gr.len() && 0 <= i < gr[a].len() implies g1.contains_key(gr[a][i])
            && g1[gr[a][i]].pos == a && g1[gr[a][i]].idx == i by {
            if a != p || i < grp.len() {
                assert(gr[a][i] == groups[a][i]);
                assert(g.contains_key(groups[a][i]));
            }
        }
    }
    assert forall|m: int| g1.contains_key(m) implies #[trigger] ring_ok(n1, g1, gr, m) by {
        if m != node {
            assert(g.contains_key(m) && ring_ok(ns, g, groups, m));
            if g[m].pos == p {
                assert(m == r <==> g[m].idx == 0);
                assert(m == q <==> g[m].idx == grp.len() - 1);
            } else {
                assert(m != r && m != q);
            }
        }
    }
    assert(addrs_ok(n1, g1)) by {
        assert forall|m: int| #[trigger] n1.contains_key(m) implies m == HEAD || g1.contains_key(
            m,
        ) by {
            assert(ns.contains_key(m) || m == node);
        }
        assert forall|m: int| #[trigger] g1.contains_key(m) implies n1.contains_key(m) && HEAD < m
            <= u64::MAX && m % 4 == 0 by {
            if m != node {
                assert(g.contains_key(m));
                assert(ns.contains_key(m));
            }
        }
    }
    assert(keys_ok(ks, g1, gr)) by {
        assert forall|m: int| #[trigger] ks.contains_key(m) <==> g1.contains_key(m) by {
            assert(keys.contains_key(m) <==> g.contains_key(m));
        }
        assert forall|a: int| 0 <= a < n implies #[trigger] gr[a][0] == groups[a][0] && gr[a][0]
            != node by {
            assert(groups[a].len() > 0);
            assert(g.contains_key(groups[a][0]));
        }
        assert forall|m: int| #[trigger] g1.contains_key(m) implies ks[m] == ks[gr[g1[m].pos][0]] by {
            if m != node {
                assert(g.contains_key(m));
            }
        }
        assert forall|a: int, b: int|
            #![trigger gr[a], gr[b]]
            0 <= a < b < gr.len() implies ks[gr[a][0]] < ks[gr[b][0]] by {
            assert(groups[a] == groups[a] && groups[b] == groups[b]);
        }
    }
}

/// The places after `x` left a group of two or more; where `x` was attached, the next
/// member of the group takes over its stretch.
pub open spec fn places_unchained(g: Places, x: int) -> Places {
    Map::new(
        |m: int| g.contains_key(m) && m != x,
        |m: int|
            if g[m].pos == g[x].pos && g[m].idx > g[x].idx {
                if g[m].idx == 1 {
                    Place { pos: g[m].pos, idx: 0, lo: g[x].lo, hi: g[x].hi }
                } else {
                    Place { idx: g[m].idx - 1, ..g[m] }
                }
            } else {
                g[m]
            },
    )
}

/// Groups, chains and keys after a member left a group of two or more.
proof fn lemma_group_shrunk(
    ns: Nodes,
    n1: Nodes,
    g: Places,
    groups: Groups,
    keys: Map<int, u64>,
    x: int,
)
    requires
        linked(ns, g, groups, keys),
        g.contains_key(x),
        groups[g[x].pos].len() > 1,
        tree_ok(n1, places_unchained(g, x), groups.len() as int),
        forall|m: int| #[trigger] n1.contains_key(m) <==> ns.contains_key(m) && m != x,
        forall|m: int| #![trigger n1[m]]
            g.contains_key(m) && m != x ==> {
                &&& n1[m].next == (if m == ns[x].prev {
                    ns[x].next
                } else {
                    ns[m].next
                })
                &&& n1[m].prev == (if m == ns[x].next {
                    ns[x].prev
                } else {
                    ns[m].prev
                })
                &&& places_unchained(g, x)[m].idx > 0 ==> n1[m].parent == ns[m].parent
            },
    ensures
        linked(
            n1,
            places_unchained(g, x),
            groups.update(g[x].pos, groups[g[x].pos].remove(g[x].idx)),
            keys.remove(x),
        ),
{
    let n = groups.len() as int;
    let p = g[x].pos;
    let i0 = g[x].idx;
    let grp = groups[p];
    let g1 = places_unchained(g, x);
    let gr = groups.update(p, grp.remove(i0));
    let ks = keys.remove(x);
    assert(ring_ok(ns, g, groups, x));
    assert(groups_ok(g1, gr)) by {
        assert forall|m: int| #[trigger] g1.contains_key(m) implies 0 <= g1[m].pos < gr.len() && 0
            <= g1[m].idx < gr[g1[m].pos].len() && gr[g1[m].pos][g1[m].idx] == m by {
            assert(g.contains_key(m));
        }
        assert forall|a: int, i: int|
            #![trigger gr[a][i]]
            0 <= a < gr.len() && 0 <= i < gr[a].len() implies g1.contains_key(gr[a][i])
            && g1[gr[a][i]].pos == a && g1[gr[a][i]].idx == i by {
            let i1 = if a == p && i >= i0 { i + 1 } else { i };
            assert(gr[a][i] == groups[a][i1]);
            assert(g.contains_key(groups[a][i1]));
        }
    }
    assert forall|m: int| g1.contains_key(m) implies #[trigger] ring_ok(n1, g1, gr, m) by {
        assert(g.contains_key(m) && ring_ok(ns, g, groups, m));
        assert(n1[m] == n1[m]);
        assert(ns.contains_key(m));
        assert(n1.contains_key(m));
        let k = grp.len() as int;
        assert(g.contains_key(groups[p][ring_next(i0, k)]));
        assert(g.contains_key(groups[p][ring_prev(i0, k)]));
        if g[m].pos == p {
            assert(m == ns[x].next <==> g[m].idx == ring_next(i0, k));
            assert(m == ns[x].prev <==> g[m].idx == ring_prev(i0, k));
        } else {
            assert(m != ns[x].next && m != ns[x].prev);
        }
    }
    assert(addrs_ok(n1, g1)) by {
        assert forall|m: int| #[trigger] n1.contains_key(m) implies m == HEAD || g1.contains_key(
            m,
        ) by {
            assert(ns.contains_key(m));
        }
        assert forall|m: int| #[trigger] g1.contains_key(m) implies n1.contains_key(m) && HEAD < m
            <= u64::MAX && m % 4 == 0 by {
            assert(g.contains_key(m));
            assert(ns.contains_key(m));
        }
    }
    assert(keys_ok(ks, g1, gr)) by {
        assert forall|m: int| #[trigger] ks.contains_key(m) <==> g1.contains_key(m) by {
            assert(keys.contains_key(m) <==> g.contains_key(m));
        }
        assert forall|a: int| 0 <= a < n implies ks[#[trigger] gr[a][0]] == keys[groups[a][0]] by {
            assert(groups[a].len() > 0);
            let j: int = if a == p && i0 == 0 { 1 } else { 0 };
            assert(gr[a][0] == groups[a][j]);
            assert(g.contains_key(groups[a][j]));
            assert(groups[a][j] != x);
        }
        assert forall|m: int| #[trigger] g1.contains_key(m) implies ks[m] == ks[gr[g1[m].pos][0]] by {
            assert(g.contains_key(m));
        }
        assert forall|a: int, b: int|
            #![trigger gr[a], gr[b]]
            0 <= a < b < gr.len() implies ks[gr[a][0]] < ks[gr[b][0]] by {
            assert(groups[a] == groups[a] && groups[b] == groups[b]);
        }
    }
}

/// `x`, chained but not attached, left its group.
pub proof fn lemma_unchained(
    ns: Nodes,
    g: Places,
    groups: Groups,
    keys: Map<int, u64>,
    x: int,
)
    requires
        linked(ns, g, groups, keys),
        g.contains_key(x),
        g[x].idx > 0,
    ensures
        linked(
            unringed(ns, x).remove(x),
            places_unchained(g, x),
            groups.update(g[x].pos, groups[g[x].pos].remove(g[x].idx)),
            keys.remove(x),
        ),
        forall|m: int| attached(places_unchained(g, x), m) <==> attached(g, m),
        forall|m: int| #![trigger unringed(ns, x)[m]]
            {
                &&& unringed(ns, x)[m].left == ns[m].left
                &&& unringed(ns, x)[m].right == ns[m].right
                &&& unringed(ns, x)[m].parent == ns[m].parent
                &&& unringed(ns, x)[m].side == ns[m].side
                &&& unringed(ns, x)[m].red == ns[m].red
            },
{
    let n = groups.len() as int;
    let p = g[x].pos;
    let grp = groups[p];
    let k = grp.len() as int;
    let g1 = places_unchained(g, x);
    let n1 = unringed(ns, x).remove(x);
    assert(ring_ok(ns, g, groups, x));
    assert(g.contains_key(groups[p][ring_next(g[x].idx, k)]));
    assert(g.contains_key(groups[p][ring_prev(g[x].idx, k)]));
    assert(ring_ok(ns, g, groups, ns[x].next));
    assert(ring_ok(ns, g, groups, ns[x].prev));
    assert(n1.dom() =~= ns.dom().remove(x));
    assert forall|m: int| attached(g1, m) implies #[trigger] node_ok(n1, g1, n, m) by {
        assert(attached(g, m));
        assert(node_ok(ns, g, n, m));
        let l = ns[m].left;
        let rr = ns[m].right;
        let pp = ns[m].parent;
        assert(l != HEAD ==> attached(g1, l));
        assert(rr != HEAD ==> attached(g1, rr));
        assert(pp != HEAD ==> attached(g1, pp));
    }
    assert forall|m: int, k: int|
        #![trigger attached(g1, m), attached(g1, k)]
        attached(g1, m) && attached(g1, k) && g1[m].pos == g1[k].pos implies m == k by {
        assert(attached(g, m) && attached(g, k));
    }
    assert(root_ok(ns, g, n));
    assert(root_ok(n1, g1, n));
    lemma_group_shrunk(ns, n1, g, groups, keys, x);
}

/// What promoting `z` to the place of `x` does to each tree field.
pub open spec fn promotion(ns: Nodes, n1: Nodes, x: int, z: int) -> bool {
    let l = ns[x].left;
    let r = ns[x].right;
    let p = ns[x].parent;
    let ps = ns[x].side;
    &&& n1[z].left == l
    &&& n1[z].right == r
    &&& n1[z].parent == p
    &&& n1[z].side == ps
    &&& n1[z].red == ns[x].red
    &&& n1[p].child(ps) == z
    &&& n1[p].child(ps.flip()) == ns[p].child(ps.flip())
    &&& l != HEAD ==> n1[l].parent == z && n1[l].side == Side::Left
    &&& r != HEAD ==> n1[r].parent == z && n1[r].side == Side::Right
    &&& forall|m: int| #![trigger n1[m]] m != x && m != z ==> n1[m].red == ns[m].red
    &&& forall|m: int|
        #![trigger n1[m]]
        m != x && m != z && m != p ==> n1[m].left == ns[m].left && n1[m].right == ns[m].right
    &&& forall|m: int|
        #![trigger n1[m]]
        m != x && m != z && m != l && m != r && m != HEAD ==> n1[m].parent == ns[m].parent
            && n1[m].side == ns[m].side
}

proof fn lemma_promotion(
    ns: Nodes,
    g: Places,
    groups: Groups,
    keys: Map<int, u64>,
    x: int,
)
    requires
        linked(ns, g, groups, keys),
        attached(g, x),
        groups[g[x].pos].len() > 1,
    ensures
        ({
            let z = ns[x].next;
            let n1 = unringed(switched(ns, z, x), x).remove(x);
            &&& promotion(ns, n1, x, z)
            &&& n1.dom() == ns.dom().remove(x)
            &&& n1[HEAD as int].right == HEAD
            &&& n1[HEAD as int].prev == HEAD
            &&& n1[HEAD as int].next == HEAD
            &&& !n1[HEAD as int].red
            &&& g.contains_key(z)
            &&& g[z].pos == g[x].pos
            &&& g[z].idx == 1
            &&& forall|m: int| #![trigger n1[m]]
                g.contains_key(m) && m != x ==> {
                    &&& n1[m].next == (if m == ns[x].prev {
                        ns[x].next
                    } else {
                        ns[m].next
                    })
                    &&& n1[m].prev == (if m == ns[x].next {
                        ns[x].prev
                    } else {
                        ns[m].prev
                    })
                }
        }),
{
    let n = groups.len() as int;
    let pos = g[x].pos;
    let grp = groups[pos];
    let z = ns[x].next;
    let n0 = switched(ns, z, x);
    let n1 = unringed(n0, x).remove(x);
    let k = grp.len() as int;
    assert(ring_ok(ns, g, groups, x));
    assert(g.contains_key(groups[pos][1]) && z == grp[1]);
    assert(g.contains_key(groups[pos][ring_prev(0, k)]));
    let w = ns[x].prev;
    assert(ring_ok(ns, g, groups, z));
    assert(ring_ok(ns, g, groups, w));
    assert(node_ok(ns, g, n, x));
    let l = ns[x].left;
    let r = ns[x].right;
    let p = ns[x].parent;
    assert(l != HEAD ==> attached(g, l) && node_ok(ns, g, n, l));
    assert(r != HEAD ==> attached(g, r) && node_ok(ns, g, n, r));
    assert(p != HEAD ==> attached(g, p) && node_ok(ns, g, n, p));
    assert(n0[x] == ns[x]);
    assert(n1.dom() =~= ns.dom().remove(x));
}

proof fn lemma_promoted_node(ns: Nodes, n1: Nodes, g: Places, n: int, x: int, z: int, m: int)
    requires
        tree_ok(ns, g, n),
        attached(g, x),
        g.contains_key(z),
        g[z].pos == g[x].pos,
        g[z].idx == 1,
        promotion(ns, n1, x, z),
        n1.dom() == ns.dom().remove(x),
        ns.contains_key(z),
        m == z || (attached(g, m) && m != x),
    ensures
        node_ok(n1, places_unchained(g, x), n, m),
{
    let g1 = places_unchained(g, x);
    let l = ns[x].left;
    let r = ns[x].right;
    let p = ns[x].parent;
    assert(node_ok(ns, g, n, x));
    assert(l != HEAD ==> attached(g, l) && node_ok(ns, g, n, l));
    assert(r != HEAD ==> attached(g, r) && node_ok(ns, g, n, r));
    assert(p != HEAD ==> attached(g, p) && node_ok(ns, g, n, p));
    assert(attached(g1, z));
    assert(l != HEAD ==> attached(g1, l));
    assert(r != HEAD ==> attached(g1, r));
    assert(p != HEAD ==> attached(g1, p));
    assert(n1[m] == n1[m] && n1[HEAD as int] == n1[HEAD as int]);
    if m == z {
        assert(n1.dom().contains(z));
        assert(child_ok(n1, g1, m, Side::Left));
        assert(child_ok(n1, g1, m, Side::Right));
        assert(parent_ok(n1, g1, m));
    } else {
        assert(node_ok(ns, g, n, m));
        assert(n1.dom().contains(m));
        assert(g[m].pos != g[x].pos);
        let ml = ns[m].left;
        let mr = ns[m].right;
        let mp = ns[m].parent;
        assert(ml != HEAD ==> attached(g, ml) && node_ok(ns, g, n, ml));
        assert(mr != HEAD ==> attached(g, mr) && node_ok(ns, g, n, mr));
        assert(mp != HEAD ==> attached(g, mp) && node_ok(ns, g, n, mp));
        assert(n1[ml] == n1[ml] && n1[mr] == n1[mr] && n1[mp] == n1[mp]);
        assert(ml != HEAD && ml != x ==> g[ml].pos != g[x].pos && attached(g1, ml));
        assert(mr != HEAD && mr != x ==> g[mr].pos != g[x].pos && attached(g1, mr));
        assert(mp != HEAD && mp != x ==> g[mp].pos != g[x].pos && attached(g1, mp));
        assert(child_ok(n1, g1, m, Side::Left));
        assert(child_ok(n1, g1, m, Side::Right));
        assert(parent_ok(n1, g1, m));
    }
}

/// `x`, attached and chained, left, and the next member of its group took its place.
pub proof fn lemma_promoted(
    ns: Nodes,
    g: Places,
    groups: Groups,
    keys: Map<int, u64>,
    x: int,
)
    requires
        linked(ns, g, groups, keys),
        attached(g, x),
        groups[g[x].pos].len() > 1,
    ensures
        ({
            let z = ns[x].next;
            let n1 = unringed(switched(ns, z, x), x).remove(x);
            &&& linked(
                n1,
                places_unchained(g, x),
                groups.update(g[x].pos, groups[g[x].pos].remove(g[x].idx)),
                keys.remove(x),
            )
            &&& promotion(ns, n1, x, z)
            &&& g.contains_key(z)
            &&& !attached(g, z)
            &&& forall|m: int| #[trigger]
                attached(places_unchained(g, x), m) <==> m == z || (attached(g, m) && m != x)
        }),
{
    let n = groups.len() as int;
    let z = ns[x].next;
    let g1 = places_unchained(g, x);
    let n1 = unringed(switched(ns, z, x), x).remove(x);
    lemma_promotion(ns, g, groups, keys, x);
    assert(ns.contains_key(z));
    assert forall|m: int| #[trigger] attached(g1, m) <==> m == z || (attached(g, m) && m != x) by {
        if attached(g, m) && m != x {
            assert(g[m].pos != g[x].pos);
        }
        if g.contains_key(m) && g[m].pos == g[x].pos && g[m].idx == 1 {
            assert(m == groups[g[x].pos][1]);
        }
    }
    assert forall|m: int| attached(g1, m) implies #[trigger] node_ok(n1, g1, n, m) by {
        lemma_promoted_node(ns, n1, g, n, x, z, m);
    }
    assert forall|m: int, k: int|
        #![trigger attached(g1, m), attached(g1, k)]
        attached(g1, m) && attached(g1, k) && g1[m].pos == g1[k].pos implies m == k by {
        assert(m == z || attached(g, m));
        assert(k == z || attached(g, k));
    }
    let root = ns[HEAD as int].left;
    assert(attached(g, root) && node_ok(ns, g, n, root) && node_ok(ns, g, n, x));
    assert(n1[HEAD as int] == n1[HEAD as int] && n1[root] == n1[root]);
    assert(attached(g1, z));
    assert(root != x ==> attached(g1, root));
    assert(root_ok(n1, g1, n));
    assert(n1.dom().contains(HEAD as int));
    assert(tree_ok(n1, g1, n));
    assert forall|m: int| #[trigger] n1.contains_key(m) <==> ns.contains_key(m) && m != x by {
        assert(n1.dom().contains(m) <==> ns.dom().remove(x).contains(m));
    }
    assert forall|m: int| #![trigger n1[m]] g.contains_key(m) && m != x && g1[m].idx > 0 implies n1[m].parent
        == ns[m].parent by {
        assert(!attached(g, m) && m != z);
        let l = ns[x].left;
        let r = ns[x].right;
        assert(l != HEAD ==> attached(g, l));
        assert(r != HEAD ==> attached(g, r));
    }
    lemma_group_shrunk(ns, n1, g, groups, keys, x);
}

} // verus!
