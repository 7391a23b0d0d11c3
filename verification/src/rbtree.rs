//! A red-black tree of addresses ordered by a key, in which several addresses may
//! share one key.
//!
//! Of each group of equal keys one member is attached to the tree; the others are
//! chained to it on a ring. The addresses stand for free blocks, and the key of a
//! block is its size.

use crate::rbcolour;
use crate::rbshape;
use crate::rbshape::{Colour, Groups, NodeView, Nodes, Places, Side, HEAD};
use crate::table::Table;
use crate::tag::{TaggedPtr, BIT_COLOUR, BIT_SIDE};
use vstd::prelude::*;

verus! {

/// The links of one node.
#[derive(Clone, Copy)]
pub struct NodeBase {
    left: u64,
    right: u64,
    prev: u64,
    next: u64,
    /// The parent's address, tagged with the node's colour and with the side on which
    /// it hangs. Null for a chained node that is not attached.
    parent: TaggedPtr,
}

impl View for NodeBase {
    type V = NodeView;

    closed spec fn view(&self) -> NodeView {
        NodeView {
            left: self.left as int,
            right: self.right as int,
            prev: self.prev as int,
            next: self.next as int,
            parent: self.parent.addr(),
            side: if self.parent.tag(BIT_SIDE as int) {
                Side::Right
            } else {
                Side::Left
            },
            red: self.parent.tag(BIT_COLOUR as int),
        }
    }
}

/// What the tree holds: its equal-key groups in ascending order of key, each in the
/// order of its ring, and the key of each member.
#[verifier::ext_equal]
pub struct RbView {
    pub groups: Groups,
    pub keys: Map<int, int>,
}

impl RbView {
    /// Whether `m` stands in group `p` at index `i`.
    pub open spec fn at(self, m: int, p: int, i: int) -> bool {
        0 <= p < self.groups.len() && 0 <= i < self.groups[p].len() && self.groups[p][i] == m
    }

    /// Where `m` stands.
    pub open spec fn locate(self, m: int) -> (int, int) {
        choose|p: int, i: int| self.at(m, p, i)
    }

    /// The key of group `p`.
    pub open spec fn key_of(self, p: int) -> int {
        self.keys[self.groups[p][0]]
    }

    /// Groups are not empty and hold each member once; keys agree within a group and
    /// ascend strictly from group to group.
    pub open spec fn ok(self) -> bool {
        &&& forall|p: int| 0 <= p < self.groups.len() ==> #[trigger] self.groups[p].len() > 0
        &&& forall|m: int| #[trigger] self.keys.contains_key(m) ==> exists|p: int, i: int| self.at(m, p, i)
        &&& forall|m: int, p: int, i: int| #[trigger]
            self.at(m, p, i) ==> self.keys.contains_key(m) && self.keys[m] == self.key_of(p)
        &&& forall|m: int, p: int, i: int, q: int, j: int|
            #![trigger self.at(m, p, i), self.at(m, q, j)]
            self.at(m, p, i) && self.at(m, q, j) ==> p == q && i == j
        &&& forall|p: int, q: int|
            #![trigger self.key_of(p), self.key_of(q)]
            0 <= p < q < self.groups.len() ==> self.key_of(p) < self.key_of(q)
        &&& forall|m: int| #[trigger] self.keys.contains_key(m) ==> HEAD < m <= u64::MAX && m % 4 == 0
    }

    /// The groups before `p` have keys below `key`, the others do not.
    pub open spec fn splits_below(self, key: int, p: int) -> bool {
        &&& 0 <= p <= self.groups.len()
        &&& forall|q: int| 0 <= q < p ==> #[trigger] self.key_of(q) < key
        &&& forall|q: int| p <= q < self.groups.len() ==> #[trigger] self.key_of(q) >= key
    }

    /// The groups before `p` have keys up to `key`, the others are above.
    pub open spec fn splits_above(self, key: int, p: int) -> bool {
        &&& 0 <= p <= self.groups.len()
        &&& forall|q: int| 0 <= q < p ==> #[trigger] self.key_of(q) <= key
        &&& forall|q: int| p <= q < self.groups.len() ==> #[trigger] self.key_of(q) > key
    }

    /// The first group whose key is not below `key`.
    pub open spec fn lower(self, key: int) -> int {
        choose|p: int| self.splits_below(key, p)
    }

    /// The first group whose key is above `key`.
    pub open spec fn upper(self, key: int) -> int {
        choose|p: int| self.splits_above(key, p)
    }

    /// The attached member of group `p`, if there is such a group.
    pub open spec fn rep(self, p: int) -> Option<int> {
        if 0 <= p < self.groups.len() {
            Some(self.groups[p][0])
        } else {
            None
        }
    }

    /// With `node` added: at the end of the group of its key, or in a group of its own.
    pub open spec fn inserted(self, node: int, key: int) -> RbView {
        let p = self.lower(key);
        RbView {
            groups: if p < self.groups.len() && self.key_of(p) == key {
                self.groups.update(p, self.groups[p].push(node))
            } else {
                self.groups.insert(p, seq![node])
            },
            keys: self.keys.insert(node, key),
        }
    }

    /// With `node` taken out, and its group too where it was the last of it.
    pub open spec fn erased(self, node: int) -> RbView {
        let (p, i) = self.locate(node);
        RbView {
            groups: if self.groups[p].len() == 1 {
                self.groups.remove(p)
            } else {
                self.groups.update(p, self.groups[p].remove(i))
            },
            keys: self.keys.remove(node),
        }
    }

    /// The member one step along the ring of `node`, or, where that step leads to the
    /// attached member, the attached member of the group one step along the order.
    pub open spec fn beside(self, node: int, s: Side) -> Option<int> {
        let (p, i) = self.locate(node);
        let n = self.groups[p].len() as int;
        let j = match s {
            Side::Left => rbshape::ring_prev(i, n),
            Side::Right => rbshape::ring_next(i, n),
        };
        if j != 0 {
            Some(self.groups[p][j])
        } else {
            match s {
                Side::Left => self.rep(p - 1),
                Side::Right => self.rep(p + 1),
            }
        }
    }

    /// The next member of the same group, the first after the last.
    pub open spec fn ring_after(self, node: int) -> int {
        let (p, i) = self.locate(node);
        self.groups[p][rbshape::ring_next(i, self.groups[p].len() as int)]
    }

    /// `p` is the only split point below `key`.
    pub proof fn lemma_lower(self, key: int, p: int)
        requires
            self.splits_below(key, p),
        ensures
            self.lower(key) == p,
    {
        let q = self.lower(key);
        if q < p {
            assert(self.key_of(q) < key);
        }
        if p < q {
            assert(self.key_of(p) < key);
        }
    }

    /// `p` is the only split point above `key`.
    pub proof fn lemma_upper(self, key: int, p: int)
        requires
            self.splits_above(key, p),
        ensures
            self.upper(key) == p,
    {
        let q = self.upper(key);
        if q < p {
            assert(self.key_of(q) <= key);
        }
        if p < q {
            assert(self.key_of(p) <= key);
        }
    }

    /// Ascending keys have a split point below every key.
    pub proof fn lemma_lower_exists(self, key: int)
        requires
            self.ok(),
        ensures
            self.splits_below(key, self.lower(key)),
    {
        self.lemma_lower_from(key, 0);
    }

    proof fn lemma_lower_from(self, key: int, p: int)
        requires
            self.ok(),
            0 <= p <= self.groups.len(),
            forall|q: int| 0 <= q < p ==> #[trigger] self.key_of(q) < key,
        ensures
            exists|r: int| self.splits_below(key, r),
        decreases self.groups.len() - p,
    {
        if p < self.groups.len() && self.key_of(p) < key {
            self.lemma_lower_from(key, p + 1);
        } else {
            assert forall|q: int| p <= q < self.groups.len() implies #[trigger] self.key_of(q) >= key by {
                assert(self.key_of(p) >= key);
            }
            assert(self.splits_below(key, p));
        }
    }

    /// Ascending keys have a split point above every key.
    pub proof fn lemma_upper_exists(self, key: int)
        requires
            self.ok(),
        ensures
            self.splits_above(key, self.upper(key)),
    {
        self.lemma_lower_exists(key + 1);
        let p = self.lower(key + 1);
        assert forall|q: int| 0 <= q < p implies #[trigger] self.key_of(q) <= key by {
            assert(self.key_of(q) < key + 1);
        }
        assert forall|q: int| p <= q < self.groups.len() implies #[trigger] self.key_of(q) > key by {
            assert(self.key_of(q) >= key + 1);
        }
        assert(self.splits_above(key, p));
    }

    /// A member stands in one place only.
    pub proof fn lemma_locate(self, m: int, p: int, i: int)
        requires
            self.ok(),
            self.at(m, p, i),
        ensures
            self.locate(m) == (p, i),
            self.keys.contains_key(m),
            self.keys[m] == self.key_of(p),
    {
        let (q, j) = self.locate(m);
        assert(self.at(m, q, j));
    }
}

/// The members of the groups from `p` on, in order.
pub open spec fn flat(groups: Groups, p: int) -> Seq<int>
    decreases groups.len() - p,
{
    if p < 0 || p >= groups.len() {
        Seq::empty()
    } else {
        groups[p] + flat(groups, p + 1)
    }
}

/// How many members the groups from `p` up to `q` have.
pub open spec fn span(groups: Groups, p: int, q: int) -> int
    decreases q - p,
{
    if p >= q {
        0
    } else {
        groups[p].len() + span(groups, p + 1, q)
    }
}

proof fn lemma_flat_at(groups: Groups, p: int, q: int, i: int)
    requires
        0 <= p <= q < groups.len(),
        0 <= i < groups[q].len(),
    ensures
        0 <= span(groups, p, q),
        span(groups, p, q) + groups[q].len() <= flat(groups, p).len(),
        flat(groups, p)[span(groups, p, q) + i] == groups[q][i],
        q + 1 == groups.len() ==> flat(groups, p).len() == span(groups, p, q) + groups[q].len(),
        q + 1 < groups.len() && groups[q + 1].len() > 0 ==> flat(groups, p).len() > span(groups, p, q)
            + groups[q].len() && flat(groups, p)[span(groups, p, q) + groups[q].len()] == groups[q + 1][0],
    decreases q - p,
{
    if p < q {
        lemma_flat_at(groups, p + 1, q, i);
        assert(flat(groups, p) == groups[p] + flat(groups, p + 1));
    } else {
        assert(flat(groups, p) == groups[p] + flat(groups, p + 1));
        if q + 1 < groups.len() {
            assert(flat(groups, q + 1) == groups[q + 1] + flat(groups, q + 2));
        }
    }
}

proof fn lemma_flat_contains(groups: Groups, p: int, t: int)
    requires
        0 <= p,
        0 <= t < flat(groups, p).len(),
    ensures
        exists|q: int, i: int|
            p <= q < groups.len() && 0 <= i < groups[q].len() && #[trigger] groups[q][i] == flat(groups, p)[t]
                && t == span(groups, p, q) + i,
    decreases groups.len() - p,
{
    if p < groups.len() {
        let n = groups[p].len() as int;
        if t < n {
            assert(groups[p][t] == flat(groups, p)[t]);
            assert(span(groups, p, p) == 0);
        } else {
            lemma_flat_contains(groups, p + 1, t - n);
            let (q, i) = choose|q: int, i: int|
                p + 1 <= q < groups.len() && 0 <= i < groups[q].len() && #[trigger] groups[q][i]
                    == flat(groups, p + 1)[t - n] && t - n == span(groups, p + 1, q) + i;
            assert(groups[q][i] == flat(groups, p)[t]);
            assert(t == span(groups, p, q) + i);
        }
    }
}

proof fn lemma_flat_removed(groups: Groups, p0: int, q: int)
    requires
        0 <= p0 < groups.len(),
        p0 <= q,
    ensures
        flat(groups.remove(p0), q) == flat(groups, q + 1),
    decreases groups.len() - q,
{
    if q + 1 < groups.len() {
        lemma_flat_removed(groups, p0, q + 1);
        assert(groups.remove(p0)[q] == groups[q + 1]);
    }
}

proof fn lemma_flat_updated(groups: Groups, p0: int, g: Seq<int>, q: int)
    requires
        0 <= p0 < groups.len(),
        p0 < q,
    ensures
        flat(groups.update(p0, g), q) == flat(groups, q),
    decreases groups.len() - q,
{
    if q < groups.len() {
        lemma_flat_updated(groups, p0, g, q + 1);
    }
}

proof fn lemma_flat_erased(groups: Groups, p0: int, i: int, p: int)
    requires
        0 <= p <= p0 < groups.len(),
        0 <= i < groups[p0].len(),
    ensures
        ({
            let g1 = if groups[p0].len() == 1 {
                groups.remove(p0)
            } else {
                groups.update(p0, groups[p0].remove(i))
            };
            flat(g1, p) == flat(groups, p).remove(span(groups, p, p0) + i)
        }),
    decreases p0 - p,
{
    let one = groups[p0].len() == 1;
    let g1 = if one {
        groups.remove(p0)
    } else {
        groups.update(p0, groups[p0].remove(i))
    };
    let whole = flat(groups, p);
    assert(whole == groups[p] + flat(groups, p + 1));
    lemma_flat_at(groups, p, p0, i);
    if p < p0 {
        lemma_flat_erased(groups, p0, i, p + 1);
        lemma_flat_at(groups, p + 1, p0, i);
        assert(g1[p] == groups[p]);
        assert(flat(g1, p) == g1[p] + flat(g1, p + 1));
        assert(flat(g1, p) =~= whole.remove(span(groups, p, p0) + i));
    } else if one {
        lemma_flat_removed(groups, p0, p0);
        assert(flat(g1, p) =~= whole.remove(i));
    } else {
        lemma_flat_updated(groups, p0, groups[p0].remove(i), p0 + 1);
        assert(flat(g1, p) == g1[p] + flat(g1, p + 1));
        assert(flat(g1, p) =~= whole.remove(i));
    }
}

impl RbView {
    /// Taking a member out leaves the groups in order.
    pub proof fn lemma_erased_ok(self, m: int)
        requires
            self.ok(),
            self.keys.contains_key(m),
        ensures
            self.erased(m).ok(),
    {
        let (p, i) = self.locate(m);
        assert(self.at(m, p, i));
        let w = self.erased(m);
        let n = self.groups[p].len() as int;
        // The place in `self` of what stands at `(q, j)` in `w`.
        let op = |q: int| if n == 1 && q >= p { q + 1 } else { q };
        let oi = |q: int, j: int| if n > 1 && q == p && j >= i { j + 1 } else { j };
        assert forall|q: int| 0 <= q < w.groups.len() implies #[trigger] w.groups[q].len() > 0 by {
            assert(self.groups[op(q)].len() > 0);
        }
        assert forall|x: int, q: int, j: int| #[trigger] w.at(x, q, j) implies self.at(x, op(q), oi(q, j))
            && x != m by {
            assert(self.at(x, op(q), oi(q, j)));
            if x == m {
                assert(op(q) == p && oi(q, j) == i);
            }
        }
        assert forall|x: int| #[trigger] w.keys.contains_key(x) implies exists|q: int, j: int| w.at(x, q, j) by {
            let (q, j) = self.locate(x);
            assert(self.at(x, q, j));
            if q == p && j == i {
                assert(x == m);
            }
            let q1 = if n == 1 && q > p { q - 1 } else { q };
            let j1 = if n > 1 && q == p && j > i { j - 1 } else { j };
            assert(w.at(x, q1, j1));
        }
        assert forall|q: int| 0 <= q < w.groups.len() implies #[trigger] w.key_of(q) == self.key_of(op(q)) by {
            assert(w.groups[q].len() > 0);
            assert(w.at(w.groups[q][0], q, 0));
            assert(self.at(w.groups[q][0], op(q), oi(q, 0)));
        }
        assert forall|x: int, q: int, j: int| #[trigger] w.at(x, q, j) implies w.keys.contains_key(x)
            && w.keys[x] == w.key_of(q) by {
            assert(self.at(x, op(q), oi(q, j)));
            assert(w.key_of(q) == self.key_of(op(q)));
        }
        assert forall|x: int, q: int, j: int, r: int, k: int|
            #![trigger w.at(x, q, j), w.at(x, r, k)]
            w.at(x, q, j) && w.at(x, r, k) implies q == r && j == k by {
            assert(self.at(x, op(q), oi(q, j)) && self.at(x, op(r), oi(r, k)));
        }
        assert forall|q: int, r: int|
            #![trigger w.key_of(q), w.key_of(r)]
            0 <= q < r < w.groups.len() implies w.key_of(q) < w.key_of(r) by {
            assert(self.key_of(op(q)) < self.key_of(op(r)));
        }
    }

    /// Adding a member leaves the groups in order.
    pub proof fn lemma_inserted_ok(self, m: int, key: int)
        requires
            self.ok(),
            !self.keys.contains_key(m),
            HEAD < m <= u64::MAX,
            m % 4 == 0,
        ensures
            self.inserted(m, key).ok(),
    {
        self.lemma_lower_exists(key);
        let p = self.lower(key);
        let w = self.inserted(m, key);
        let joins = p < self.groups.len() && self.key_of(p) == key;
        let n = self.groups[p].len() as int;
        // The place in `self` of what stands at `(q, j)` in `w`, for all but `m`.
        let op = |q: int| if !joins && q > p { q - 1 } else { q };
        let new = |q: int, j: int| q == p && (!joins || j == n);
        assert forall|q: int| 0 <= q < w.groups.len() implies #[trigger] w.groups[q].len() > 0 by {
            if joins || q != p {
                assert(self.groups[op(q)].len() > 0);
            }
        }
        assert forall|x: int, q: int, j: int| #[trigger] w.at(x, q, j) implies (if new(q, j) {
            x == m
        } else {
            self.at(x, op(q), j) && x != m
        }) by {
            if !new(q, j) {
                assert(self.at(x, op(q), j));
            }
        }
        assert forall|x: int| #[trigger] w.keys.contains_key(x) implies exists|q: int, j: int| w.at(x, q, j) by {
            if x == m {
                assert(w.at(m, p, if joins { n } else { 0 }));
            } else {
                let (q, j) = self.locate(x);
                assert(self.at(x, q, j));
                assert(w.at(x, if !joins && q >= p { q + 1 } else { q }, j));
            }
        }
        assert forall|q: int| 0 <= q < w.groups.len() implies #[trigger] w.key_of(q) == (if q == p {
            key
        } else {
            self.key_of(op(q))
        }) by {
            if q != p || joins {
                assert(self.groups[op(q)].len() > 0);
                assert(w.groups[q][0] == self.groups[op(q)][0]);
                assert(self.at(w.groups[q][0], op(q), 0));
            }
        }
        assert forall|x: int, q: int, j: int| #[trigger] w.at(x, q, j) implies w.keys.contains_key(x)
            && w.keys[x] == w.key_of(q) by {
            assert(w.key_of(q) == if q == p { key } else { self.key_of(op(q)) });
            if !new(q, j) {
                assert(self.at(x, op(q), j));
            }
        }
        assert forall|x: int, q: int, j: int, r: int, k: int|
            #![trigger w.at(x, q, j), w.at(x, r, k)]
            w.at(x, q, j) && w.at(x, r, k) implies q == r && j == k by {
            if !new(q, j) && !new(r, k) {
                assert(self.at(x, op(q), j) && self.at(x, op(r), k));
            }
        }
        assert forall|q: int, r: int|
            #![trigger w.key_of(q), w.key_of(r)]
            0 <= q < r < w.groups.len() implies w.key_of(q) < w.key_of(r) by {
            assert(w.key_of(q) == if q == p { key } else { self.key_of(op(q)) });
            assert(w.key_of(r) == if r == p { key } else { self.key_of(op(r)) });
            if q != p && r != p {
                assert(self.key_of(op(q)) < self.key_of(op(r)));
            } else if q == p {
                assert(self.key_of(op(r)) >= key);
                if joins {
                    assert(self.key_of(p) < self.key_of(op(r)));
                } else if op(r) == p {
                    assert(self.key_of(p) != key);
                } else {
                    assert(self.key_of(p) < self.key_of(op(r)));
                    assert(self.key_of(p) >= key);
                }
            } else {
                assert(self.key_of(op(q)) < key);
            }
        }
    }

    /// The key of a member is the key of its group.
    proof fn lemma_member(self, m: int) -> (p: int)
        requires
            self.ok(),
            self.keys.contains_key(m),
        ensures
            0 <= p < self.groups.len(),
            self.keys[m] == self.key_of(p),
            self.locate(m).0 == p,
            self.at(m, p, self.locate(m).1),
    {
        let (p, i) = self.locate(m);
        assert(self.at(m, p, i));
        p
    }

    /// The attached member of a group is a member with the key of the group.
    proof fn lemma_rep(self, p: int)
        requires
            self.ok(),
            0 <= p < self.groups.len(),
        ensures
            self.keys.contains_key(self.groups[p][0]),
            self.keys[self.groups[p][0]] == self.key_of(p),
    {
        assert(self.groups[p].len() > 0);
        assert(self.at(self.groups[p][0], p, 0));
    }

    /// The lower bound of a key is a member with the smallest key that is not below it, and
    /// there is none if and only if all keys are below.
    pub proof fn law_lower_bound(self, key: int)
        requires
            self.ok(),
        ensures
            self.rep(self.lower(key)) matches Some(m) ==> {
                &&& self.keys.contains_key(m)
                &&& self.keys[m] >= key
                &&& forall|k: int| #[trigger]
                    self.keys.contains_key(k) && self.keys[k] >= key ==> self.keys[m] <= self.keys[k]
            },
            self.rep(self.lower(key)) is None <==> forall|k: int| #[trigger]
                self.keys.contains_key(k) ==> self.keys[k] < key,
    {
        self.lemma_lower_exists(key);
        let p = self.lower(key);
        assert forall|k: int| #[trigger] self.keys.contains_key(k) && self.keys[k] >= key implies p
            < self.groups.len() && self.key_of(p) <= self.keys[k] by {
            let q = self.lemma_member(k);
            if q < p {
                assert(self.key_of(q) < key);
            }
        }
        if p < self.groups.len() {
            self.lemma_rep(p);
            assert(self.key_of(p) >= key);
        }
    }

    /// The upper bound of a key is a member with the smallest key above it, and there is none if
    /// and only if no key is above.
    pub proof fn law_upper_bound(self, key: int)
        requires
            self.ok(),
        ensures
            self.rep(self.upper(key)) matches Some(m) ==> {
                &&& self.keys.contains_key(m)
                &&& self.keys[m] > key
                &&& forall|k: int| #[trigger]
                    self.keys.contains_key(k) && self.keys[k] > key ==> self.keys[m] <= self.keys[k]
            },
            self.rep(self.upper(key)) is None <==> forall|k: int| #[trigger]
                self.keys.contains_key(k) ==> self.keys[k] <= key,
    {
        self.lemma_upper_exists(key);
        let p = self.upper(key);
        assert forall|k: int| #[trigger] self.keys.contains_key(k) && self.keys[k] > key implies p
            < self.groups.len() && self.key_of(p) <= self.keys[k] by {
            let q = self.lemma_member(k);
            if q < p {
                assert(self.key_of(q) <= key);
            }
        }
        if p < self.groups.len() {
            self.lemma_rep(p);
            assert(self.key_of(p) > key);
        }
    }

    /// The minimum is a member with the smallest key, and there is none if and only if the tree
    /// holds nothing.
    pub proof fn law_minimum(self)
        requires
            self.ok(),
        ensures
            self.rep(0) matches Some(m) ==> self.keys.contains_key(m) && forall|k: int| #[trigger]
                self.keys.contains_key(k) ==> self.keys[m] <= self.keys[k],
            self.rep(0) is None <==> forall|k: int| !#[trigger] self.keys.contains_key(k),
            self.groups.len() == 0 <==> forall|k: int| !#[trigger] self.keys.contains_key(k),
    {
        assert forall|k: int| #[trigger] self.keys.contains_key(k) implies self.groups.len() > 0
            && self.key_of(0) <= self.keys[k] by {
            let q = self.lemma_member(k);
            if q > 0 {
                assert(self.key_of(0) < self.key_of(q));
            }
        }
        if self.groups.len() > 0 {
            self.lemma_rep(0);
        }
    }

    /// The member after `m` is another one whose key is not below that of `m`, and no key lies
    /// between the two; and there is none only if no key is above that of `m`.
    pub proof fn law_succ(self, m: int)
        requires
            self.ok(),
            self.keys.contains_key(m),
        ensures
            self.beside(m, Side::Right) matches Some(x) ==> {
                &&& self.keys.contains_key(x)
                &&& x != m
                &&& self.keys[x] >= self.keys[m]
                &&& forall|k: int| #[trigger]
                    self.keys.contains_key(k) && self.keys[k] > self.keys[m] ==> self.keys[x]
                        <= self.keys[k]
            },
            self.beside(m, Side::Right) is None ==> forall|k: int| #[trigger]
                self.keys.contains_key(k) ==> self.keys[k] <= self.keys[m],
    {
        let p = self.lemma_member(m);
        let i = self.locate(m).1;
        let n = self.groups[p].len() as int;
        let j = rbshape::ring_next(i, n);
        assert(self.at(m, p, i));
        assert(self.at(self.groups[p][j], p, j));
        if p + 1 < self.groups.len() {
            self.lemma_rep(p + 1);
            assert(self.key_of(p) < self.key_of(p + 1));
        }
        assert forall|k: int| #[trigger] self.keys.contains_key(k) && self.keys[k] > self.keys[m] implies p + 1
            < self.groups.len() && self.key_of(p + 1) <= self.keys[k] by {
            let q = self.lemma_member(k);
            if q < p {
                assert(self.key_of(q) < self.key_of(p));
            } else if q > p + 1 {
                assert(self.key_of(p + 1) < self.key_of(q));
            }
        }
    }

    /// The steps along a ring lead through members of one key, to each of them from one other
    /// only, and back to the same one at once only if there is no other of that key.
    pub proof fn law_ring(self, m: int, k: int)
        requires
            self.ok(),
            self.keys.contains_key(m),
            self.keys.contains_key(k),
            m != k,
        ensures
            self.keys.contains_key(self.ring_after(m)),
            self.keys[self.ring_after(m)] == self.keys[m],
            self.keys[k] == self.keys[m] ==> self.ring_after(m) != m,
            self.ring_after(m) != self.ring_after(k),
    {
        let p = self.lemma_member(m);
        let q = self.lemma_member(k);
        let i = self.locate(m).1;
        let l = self.locate(k).1;
        let j = rbshape::ring_next(i, self.groups[p].len() as int);
        let n = rbshape::ring_next(l, self.groups[q].len() as int);
        assert(self.at(m, p, i) && self.at(k, q, l));
        assert(self.at(self.ring_after(m), p, j));
        assert(self.at(self.ring_after(k), q, n));
        if self.keys[k] == self.keys[m] {
            if p < q {
                assert(self.key_of(p) < self.key_of(q));
            } else if q < p {
                assert(self.key_of(q) < self.key_of(p));
            }
        }
    }

    /// Adding a member gives it its key and leaves the others theirs.
    pub proof fn law_insert(self, m: int, key: int)
        requires
            self.ok(),
            !self.keys.contains_key(m),
            HEAD < m <= u64::MAX,
            m % 4 == 0,
        ensures
            ({
                let w = self.inserted(m, key);
                &&& w.ok()
                &&& w.keys.contains_key(m)
                &&& w.keys[m] == key
                &&& forall|k: int| #[trigger]
                    w.keys.contains_key(k) && k != m <==> self.keys.contains_key(k)
                &&& forall|k: int| #[trigger]
                    self.keys.contains_key(k) ==> w.keys[k] == self.keys[k]
            }),
    {
        self.lemma_inserted_ok(m, key);
    }

    /// Taking a member out takes out no other and leaves them their keys.
    pub proof fn law_erase(self, m: int)
        requires
            self.ok(),
            self.keys.contains_key(m),
        ensures
            ({
                let w = self.erased(m);
                &&& w.ok()
                &&& forall|k: int| #[trigger]
                    w.keys.contains_key(k) <==> self.keys.contains_key(k) && k != m
                &&& forall|k: int| #[trigger] w.keys.contains_key(k) ==> w.keys[k] == self.keys[k]
            }),
    {
        self.lemma_erased_ok(m);
    }

    /// Taking out the member that was added last gives the tree before it.
    pub proof fn law_insert_erase(self, m: int, key: int)
        requires
            self.ok(),
            !self.keys.contains_key(m),
            HEAD < m <= u64::MAX,
            m % 4 == 0,
        ensures
            self.inserted(m, key).erased(m) == self,
    {
        self.lemma_lower_exists(key);
        self.lemma_inserted_ok(m, key);
        let p = self.lower(key);
        let w = self.inserted(m, key);
        let joins = p < self.groups.len() && self.key_of(p) == key;
        let n = self.groups[p].len() as int;
        let i = if joins { n } else { 0 };
        assert(w.at(m, p, i));
        w.lemma_locate(m, p, i);
        let e = w.erased(m);
        assert(e.keys =~= self.keys);
        if joins {
            assert(self.groups[p].len() > 0);
            assert(self.groups[p].push(m).remove(n) =~= self.groups[p]);
        }
        assert(e.groups =~= self.groups);
    }

    /// All members in order.
    pub open spec fn members(self) -> Seq<int> {
        flat(self.groups, 0)
    }

    /// The members of the groups whose keys are not below `key`, in order.
    pub open spec fn members_from(self, key: int) -> Seq<int> {
        flat(self.groups, self.lower(key))
    }

    /// Every member occurs once in the order.
    pub proof fn lemma_members(self)
        requires
            self.ok(),
        ensures
            self.members().no_duplicates(),
            forall|m: int| self.members().contains(m) <==> #[trigger] self.keys.contains_key(m),
    {
        let all = self.members();
        assert forall|m: int| all.contains(m) <==> #[trigger] self.keys.contains_key(m) by {
            if self.keys.contains_key(m) {
                let (p, i) = self.locate(m);
                assert(self.at(m, p, i));
                lemma_flat_at(self.groups, 0, p, i);
                assert(all[span(self.groups, 0, p) + i] == m);
            }
            if all.contains(m) {
                let t = all.index_of(m);
                lemma_flat_contains(self.groups, 0, t);
                let (q, i) = choose|q: int, i: int|
                    0 <= q < self.groups.len() && 0 <= i < self.groups[q].len()
                        && #[trigger] self.groups[q][i] == all[t] && t == span(self.groups, 0, q) + i;
                assert(self.at(m, q, i));
            }
        }
        assert forall|t: int, u: int| 0 <= t < all.len() && 0 <= u < all.len() && t != u implies all[t] != all[u] by {
            lemma_flat_contains(self.groups, 0, t);
            lemma_flat_contains(self.groups, 0, u);
            let (q, i) = choose|q: int, i: int|
                0 <= q < self.groups.len() && 0 <= i < self.groups[q].len()
                    && #[trigger] self.groups[q][i] == all[t] && t == span(self.groups, 0, q) + i;
            let (r, j) = choose|r: int, j: int|
                0 <= r < self.groups.len() && 0 <= j < self.groups[r].len()
                    && #[trigger] self.groups[r][j] == all[u] && u == span(self.groups, 0, r) + j;
            assert(self.at(all[t], q, i));
            assert(self.at(all[u], r, j));
        }
    }

    /// The step to the right leads to the next member in order.
    pub proof fn lemma_beside(self, m: int)
        requires
            self.ok(),
            self.keys.contains_key(m),
        ensures
            self.members().contains(m),
            ({
                let t = self.members().index_of(m) + 1;
                self.beside(m, Side::Right) == if t < self.members().len() {
                    Some(self.members()[t])
                } else {
                    None
                }
            }),
    {
        self.lemma_members();
        let (p, i) = self.locate(m);
        assert(self.at(m, p, i));
        lemma_flat_at(self.groups, 0, p, i);
        let all = self.members();
        let t = span(self.groups, 0, p) + i;
        assert(all[t] == m);
        assert(all.contains(m));
        assert(all.index_of(m) == t);
        if i + 1 < self.groups[p].len() {
            lemma_flat_at(self.groups, 0, p, i + 1);
        } else if p + 1 < self.groups.len() {
            assert(self.groups[p + 1].len() > 0);
        }
    }

    /// Taking a member out takes it out of the order.
    pub proof fn lemma_erased_members(self, m: int)
        requires
            self.ok(),
            self.keys.contains_key(m),
        ensures
            self.members().contains(m),
            self.erased(m).members() == self.members().remove(self.members().index_of(m)),
    {
        self.lemma_members();
        let (p, i) = self.locate(m);
        assert(self.at(m, p, i));
        lemma_flat_at(self.groups, 0, p, i);
        let all = self.members();
        let t = span(self.groups, 0, p) + i;
        assert(all[t] == m);
        assert(all.index_of(m) == t);
        lemma_flat_erased(self.groups, p, i, 0);
    }

    /// The members from a key on are the end of the order, and they are those whose keys
    /// are not below it.
    pub proof fn lemma_members_from(self, key: int)
        requires
            self.ok(),
        ensures
            self.members_from(key).len() <= self.members().len(),
            self.members_from(key) == self.members().skip(
                self.members().len() - self.members_from(key).len(),
            ),
            forall|m: int| #[trigger]
                self.keys.contains_key(m) && self.keys[m] >= key <==> self.members_from(key).contains(m),
            self.members_from(key).len() > 0 <==> self.rep(self.lower(key)) is Some,
            self.members_from(key).len() > 0 ==> self.rep(self.lower(key)) == Some(
                self.members_from(key)[0],
            ),
    {
        self.lemma_lower_exists(key);
        let p = self.lower(key);
        lemma_flat_split(self.groups, 0, p);
        self.lemma_members();
        let part = self.members_from(key);
        assert forall|m: int| #[trigger] self.keys.contains_key(m) && self.keys[m] >= key <==> part.contains(m) by {
            if self.keys.contains_key(m) && self.keys[m] >= key {
                let (q, i) = self.locate(m);
                assert(self.at(m, q, i));
                assert(self.keys[m] == self.key_of(q));
                if q < p {
                    assert(self.key_of(q) < key);
                }
                lemma_flat_at(self.groups, p, q, i);
                assert(part[span(self.groups, p, q) + i] == m);
            }
            if part.contains(m) {
                let t = part.index_of(m);
                lemma_flat_contains(self.groups, p, t);
                let (q, i) = choose|q: int, i: int|
                    p <= q < self.groups.len() && 0 <= i < self.groups[q].len()
                        && #[trigger] self.groups[q][i] == part[t] && t == span(self.groups, p, q) + i;
                assert(self.at(m, q, i));
                assert(self.key_of(q) >= key);
            }
        }
        if p < self.groups.len() {
            assert(self.groups[p].len() > 0);
            assert(part == self.groups[p] + flat(self.groups, p + 1));
        }
    }
}

proof fn lemma_flat_split(groups: Groups, p: int, q: int)
    requires
        0 <= p <= q <= groups.len(),
    ensures
        flat(groups, q).len() <= flat(groups, p).len(),
        flat(groups, q) == flat(groups, p).skip(flat(groups, p).len() - flat(groups, q).len()),
    decreases q - p,
{
    if p < q {
        lemma_flat_split(groups, p + 1, q);
        let a = flat(groups, p);
        let b = flat(groups, p + 1);
        let c = flat(groups, q);
        assert(a == groups[p] + b);
        assert(c =~= a.skip(a.len() - c.len()));
    } else {
        assert(flat(groups, q) =~= flat(groups, p).skip(0));
    }
}

/// The ghost description of a tree.
pub struct Shape {
    pub groups: Groups,
    pub places: Places,
    pub heights: Map<int, int>,
}

/// A tree of addresses that are multiples of four, each with a key.
pub struct IntrusiveMultiRbTree {
    nodes: Table<NodeBase>,
    keys: Table<u64>,
    shape: Ghost<Shape>,
}

impl View for IntrusiveMultiRbTree {
    type V = RbView;

    closed spec fn view(&self) -> RbView {
        RbView { groups: self.shape@.groups, keys: self.keys@.map_values(|k: u64| k as int) }
    }
}

/// Whether an address can stand in a tree.
pub open spec fn tree_addr(node: u64) -> bool {
    HEAD < node && node % 4 == 0
}

impl IntrusiveMultiRbTree {
    /// The links of every node and of the sentinel.
    pub closed spec fn ns(&self) -> Nodes {
        self.nodes@.map_values(|b: NodeBase| b@)
    }

    spec fn g(&self) -> Places {
        self.shape@.places
    }

    /// All links are in order.
    pub closed spec fn linked(&self) -> bool {
        rbshape::linked(self.ns(), self.g(), self.shape@.groups, self.keys@)
    }

    spec fn rest_same(&self, other: &Self) -> bool {
        self.keys == other.keys && self.shape == other.shape
    }

    /// All links are in order and the tree is a red-black tree: no red member has a red
    /// parent, the root is black, and every way down passes the same number of black
    /// members.
    pub closed spec fn wf(&self) -> bool {
        &&& self.linked()
        &&& rbshape::balanced(self.ns(), self.g(), self.shape@.heights)
    }

    /// What a well-formed tree says of its view.
    pub proof fn lemma_view(&self)
        requires
            self.wf(),
        ensures
            self@.ok(),
    {
        self.lemma_linked_view();
    }

    /// The tree is a red-black tree over the groups of its view, which the links hold in search
    /// order: the sentinel and the root are black, no red member has a red parent, and the
    /// ways down from a member all pass the same number of black ones.
    pub proof fn law_red_black(&self)
        requires
            self.wf(),
        ensures
            self.linked(),
            !self.ns()[HEAD as int].red,
            !self.ns()[self.ns()[HEAD as int].left].red,
            exists|g: Places, bh: Map<int, int>|
                rbshape::tree_ok(self.ns(), g, self@.groups.len() as int) && rbshape::groups_ok(
                    g,
                    self@.groups,
                ) && #[trigger] rbshape::balanced(self.ns(), g, bh),
    {
        assert(rbshape::groups_ok(self.g(), self@.groups));
        assert(rbshape::tree_ok(self.ns(), self.g(), self@.groups.len() as int));
        assert(rbshape::balanced(self.ns(), self.g(), self.shape@.heights));
        assert(rbshape::root_ok(self.ns(), self.g(), self@.groups.len() as int));
    }

    proof fn lemma_linked_view(&self)
        requires
            self.linked(),
        ensures
            self@.ok(),
            forall|m: int| #[trigger]
                self.g().contains_key(m) ==> self@.at(m, self.g()[m].pos, self.g()[m].idx)
                    && self@.locate(m) == (self.g()[m].pos, self.g()[m].idx),
            forall|m: int| self@.keys.contains_key(m) <==> self.g().contains_key(m),
    {
        let v = self@;
        let g = self.g();
        assert forall|m: int| #[trigger] v.keys.contains_key(m) implies exists|p: int, i: int| v.at(m, p, i) by {
            assert(g.contains_key(m));
            assert(v.at(m, g[m].pos, g[m].idx));
        }
        assert forall|m: int, p: int, i: int| #[trigger] v.at(m, p, i) implies v.keys.contains_key(m)
            && v.keys[m] == v.key_of(p) && g[m].pos == p && g[m].idx == i by {
            assert(v.groups[p][i] == m);
            assert(g.contains_key(m));
            assert(v.keys.contains_key(m));
        }
        assert forall|p: int, q: int|
            #![trigger v.key_of(p), v.key_of(q)]
            0 <= p < q < v.groups.len() implies v.key_of(p) < v.key_of(q) by {
            assert(v.groups[p] == v.groups[p] && v.groups[q] == v.groups[q]);
        }
        assert forall|m: int| #[trigger] g.contains_key(m) implies v.at(m, g[m].pos, g[m].idx)
            && v.locate(m) == (g[m].pos, g[m].idx) by {
            v.lemma_locate(m, g[m].pos, g[m].idx);
        }
    }

    // ---- single fields ----

    fn node(&self, this: u64) -> (b: NodeBase)
        requires
            self.ns().contains_key(this as int),
        ensures
            b@ == self.ns()[this as int],
    {
        self.nodes.get(this)
    }

    fn put(&mut self, this: u64, b: NodeBase)
        ensures
            final(self).ns() == old(self).ns().insert(this as int, b@),
            final(self).rest_same(old(self)),
    {
        self.nodes.set(this, b);
        assert(self.ns() =~= old(self).ns().insert(this as int, b@));
    }

    /// The child of `this` on side `s`: the sentinel where there is none.
    pub fn child(&self, this: u64, s: Side) -> (c: u64)
        requires
            self.ns().contains_key(this as int),
        ensures
            c == self.ns()[this as int].child(s),
    {
        let b = self.node(this);
        match s {
            Side::Left => b.left,
            Side::Right => b.right,
        }
    }

    fn neighbour(&self, this: u64, s: Side) -> (c: u64)
        requires
            self.ns().contains_key(this as int),
        ensures
            c == self.ns()[this as int].neighbour(s),
    {
        let b = self.node(this);
        match s {
            Side::Left => b.prev,
            Side::Right => b.next,
        }
    }

    fn parent(&self, this: u64) -> (p: u64)
        requires
            self.ns().contains_key(this as int),
        ensures
            p == self.ns()[this as int].parent,
            p % 4 == 0,
    {
        self.node(this).parent.ptr()
    }

    fn parent_side(&self, this: u64) -> (s: Side)
        requires
            self.ns().contains_key(this as int),
        ensures
            s == self.ns()[this as int].side,
    {
        if self.node(this).parent.bit(BIT_SIDE) {
            Side::Right
        } else {
            Side::Left
        }
    }

    fn colour(&self, this: u64) -> (c: Colour)
        requires
            self.ns().contains_key(this as int),
        ensures
            (c == Colour::Red) == self.ns()[this as int].red,
    {
        if self.node(this).parent.bit(BIT_COLOUR) {
            Colour::Red
        } else {
            Colour::Black
        }
    }

    /// Whether `this` is red.
    pub fn red(&self, this: u64) -> (r: bool)
        requires
            self.ns().contains_key(this as int),
        ensures
            r == self.ns()[this as int].red,
    {
        match self.colour(this) {
            Colour::Red => true,
            Colour::Black => false,
        }
    }

    fn is_attached(&self, this: u64) -> (r: bool)
        requires
            self.ns().contains_key(this as int),
        ensures
            r == (self.ns()[this as int].parent != 0),
    {
        self.parent(this) != 0
    }

    /// Whether `this` stands for an empty subtree.
    pub fn is_nil(&self, this: u64) -> (r: bool)
        requires
            self.ns().contains_key(this as int),
        ensures
            r == (self.ns()[this as int].right == this),
    {
        self.child(this, Side::Right) == this
    }

    fn chained(&self, this: u64) -> (r: bool)
        requires
            self.ns().contains_key(this as int),
        ensures
            r == (self.ns()[this as int].prev != this),
    {
        self.neighbour(this, Side::Left) != this
    }

    fn set_child(&mut self, this: u64, s: Side, val: u64)
        requires
            old(self).ns().contains_key(this as int),
        ensures
            final(self).ns() == old(self).ns().insert(
                this as int,
                old(self).ns()[this as int].with_child(s, val as int),
            ),
            final(self).rest_same(old(self)),
    {
        let mut b = self.node(this);
        match s {
            Side::Left => {
                b.left = val;
            },
            Side::Right => {
                b.right = val;
            },
        }
        self.put(this, b);
    }

    fn set_neighbour(&mut self, this: u64, s: Side, val: u64)
        requires
            old(self).ns().contains_key(this as int),
        ensures
            final(self).ns() == old(self).ns().insert(
                this as int,
                old(self).ns()[this as int].with_neighbour(s, val as int),
            ),
            final(self).rest_same(old(self)),
    {
        let mut b = self.node(this);
        match s {
            Side::Left => {
                b.prev = val;
            },
            Side::Right => {
                b.next = val;
            },
        }
        self.put(this, b);
    }

    /// Makes `val` the parent of `this`, on side `s`.
    fn set_parent(&mut self, this: u64, val: u64, s: Side)
        requires
            old(self).ns().contains_key(this as int),
            val % 4 == 0,
        ensures
            final(self).ns() == old(self).ns().insert(
                this as int,
                old(self).ns()[this as int].with_parent(val as int, s),
            ),
            final(self).rest_same(old(self)),
    {
        let mut b = self.node(this);
        let mut tagged = b.parent;
        tagged.set_ptr(val);
        match s {
            Side::Left => {
                tagged.clear_bit(BIT_SIDE);
            },
            Side::Right => {
                tagged.set_bit(BIT_SIDE);
            },
        }
        b.parent = tagged;
        self.put(this, b);
    }

    fn set_colour(&mut self, this: u64, c: Colour)
        requires
            old(self).ns().contains_key(this as int),
        ensures
            final(self).ns() == rbcolour::coloured(old(self).ns(), this as int, c == Colour::Red),
            final(self).rest_same(old(self)),
    {
        let mut b = self.node(this);
        let mut tagged = b.parent;
        match c {
            Colour::Black => {
                tagged.clear_bit(BIT_COLOUR);
            },
            Colour::Red => {
                tagged.set_bit(BIT_COLOUR);
            },
        }
        b.parent = tagged;
        self.put(this, b);
    }

    fn make_red(&mut self, this: u64)
        requires
            old(self).ns().contains_key(this as int),
        ensures
            final(self).ns() == rbcolour::coloured(old(self).ns(), this as int, true),
            final(self).rest_same(old(self)),
    {
        self.set_colour(this, Colour::Red);
    }

    fn make_black(&mut self, this: u64)
        requires
            old(self).ns().contains_key(this as int),
        ensures
            final(self).ns() == rbcolour::coloured(old(self).ns(), this as int, false),
            final(self).rest_same(old(self)),
    {
        self.set_colour(this, Colour::Black);
    }

    // ---- steps on the links ----

    /// Rotates `this` down to side `s`, and its other child up into its place.
    fn rotate(&mut self, this: u64, s: Side)
        requires
            old(self).linked(),
            rbshape::attached(old(self).g(), this as int),
            old(self).ns()[this as int].child(s.flip()) != HEAD,
        ensures
            final(self).linked(),
            final(self).ns() == rbshape::rotated(old(self).ns(), this as int, s),
            rbshape::rotation(old(self).ns(), final(self).ns(), this as int, s),
            final(self).g() == rbshape::rotated_places(
                old(self).g(),
                this as int,
                old(self).ns()[this as int].child(s.flip()),
                s,
            ),
            forall|m: int| rbshape::attached(final(self).g(), m) <==> rbshape::attached(old(self).g(), m),
            final(self)@ == old(self)@,
            final(self).shape@.heights == old(self).shape@.heights,
    {
        let ghost ns = self.ns();
        let ghost g = self.g();
        let ghost n = self.shape@.groups.len() as int;
        proof {
            rbshape::lemma_rotated_linked(ns, g, self.shape@.groups, self.keys@, this as int, s);
            assert(rbshape::node_ok(ns, g, n, this as int));
            let y = ns[this as int].child(s.flip());
            assert(rbshape::attached(g, y) && rbshape::node_ok(ns, g, n, y));
            assert(g.contains_key(this as int) && g.contains_key(y));
            let c = ns[y].child(s);
            assert(c == HEAD || rbshape::attached(g, c));
            assert(c != HEAD ==> g.contains_key(c));
            assert(ns.contains_key(c));
            let p = ns[this as int].parent;
            assert(p == HEAD || rbshape::attached(g, p));
            assert(p != HEAD ==> g.contains_key(p));
            assert(ns.contains_key(p));
        }
        let o = s.other();
        let ps = self.parent_side(this);
        let this_parent = self.parent(this);
        let top = self.child(this, o);
        let top_s_child = self.child(top, s);
        self.set_child(this, o, top_s_child);
        self.set_parent(top_s_child, this, o);
        self.set_parent(top, this_parent, ps);
        self.set_child(this_parent, ps, top);
        self.set_child(top, s, this);
        self.set_parent(this, top, s);
        proof {
            self.shape@ = Shape {
                places: rbshape::rotated_places(g, this as int, top as int, s),
                ..self.shape@
            };
        }
    }

    /// Hangs a fresh red leaf below `parent` on side `s`.
    fn attach_to(&mut self, this: u64, key: u64, parent: u64, s: Side)
        requires
            old(self).wf(),
            rbshape::spot_ok(old(self).ns(), old(self).g(), old(self).shape@.groups.len() as int, parent as int, s),
            !old(self)@.keys.contains_key(this as int),
            tree_addr(this),
            forall|p: int|
                0 <= p < rbshape::gap(old(self).g(), parent as int, s) && p < old(self)@.groups.len()
                    ==> old(self)@.keys[#[trigger] old(self)@.groups[p][0]] < key,
            forall|p: int|
                rbshape::gap(old(self).g(), parent as int, s) <= p < old(self)@.groups.len()
                    ==> old(self)@.keys[#[trigger] old(self)@.groups[p][0]] > key,
        ensures
            final(self).linked(),
            0 <= rbshape::gap(old(self).g(), parent as int, s) <= old(self)@.groups.len(),
            final(self)@ == (RbView {
                groups: old(self)@.groups.insert(rbshape::gap(old(self).g(), parent as int, s), seq![this as int]),
                keys: old(self)@.keys.insert(this as int, key as int),
            }),
            rbshape::attached(final(self).g(), this as int),
            rbshape::heights_ok(final(self).ns(), final(self).g(), final(self).shape@.heights, HEAD as int, Side::Left),
            rbshape::reds_ok(final(self).ns(), final(self).g(), this as int),
            final(self).ns()[this as int].red,
    {
        let ghost ns = self.ns();
        let ghost g = self.g();
        let ghost groups = self.shape@.groups;
        let ghost n = groups.len() as int;
        let ghost bh = self.shape@.heights;
        let ghost ks = self.keys@;
        proof {
            assert(self.keys@.contains_key(this as int) <==> g.contains_key(this as int));
            assert(self@.groups == groups);
            self.lemma_linked_view();
            let q = rbshape::gap(g, parent as int, s);
            assert forall|p: int| 0 <= p < q && p < groups.len() implies ks[#[trigger] groups[p][0]]
                < key by {
                assert(self@.keys[self@.groups[p][0]] < key);
            }
            assert forall|p: int| q <= p < groups.len() implies ks[#[trigger] groups[p][0]]
                > key by {
                assert(self@.keys[self@.groups[p][0]] > key);
            }
            rbshape::lemma_hung(ns, g, groups, ks, this as int, key, parent as int, s);
            rbcolour::lemma_leaf(ns, g, n, bh, this as int, parent as int, s);
            if parent != HEAD {
                assert(rbshape::node_ok(ns, g, n, parent as int));
                assert(g.contains_key(parent as int));
            }
        }
        self.keys.set(this, key);
        self.put(
            this,
            NodeBase { left: 0, right: 0, prev: 0, next: 0, parent: TaggedPtr::null() },
        );
        self.set_neighbour(this, Side::Left, this);
        self.set_neighbour(this, Side::Right, this);
        let leaf_child = self.child(parent, s);
        self.set_child(this, Side::Left, leaf_child);
        self.set_child(this, Side::Right, leaf_child);
        self.set_parent(this, parent, s);
        self.set_child(parent, s, this);
        self.make_red(this);
        proof {
            assert(leaf_child == HEAD);
            assert(self.ns() =~= rbshape::nodes_with(ns, this as int, parent as int, s));
            self.shape@ = Shape {
                groups: groups.insert(rbshape::gap(g, parent as int, s), seq![this as int]),
                places: rbshape::places_with(g, this as int, parent as int, s),
                heights: bh.insert(this as int, 0),
            };
        }
    }

    /// Puts `child` in the place of `this` below the parent of `this`.
    fn substitute_with(&mut self, this: u64, child: u64)
        requires
            old(self).ns().contains_key(this as int),
            old(self).ns().contains_key(child as int),
            old(self).ns().contains_key(old(self).ns()[this as int].parent),
        ensures
            final(self).ns() == rbshape::substituted(old(self).ns(), this as int, child as int),
            final(self).rest_same(old(self)),
    {
        let ps = self.parent_side(this);
        let this_parent = self.parent(this);
        self.set_parent(child, this_parent, ps);
        self.set_child(this_parent, ps, child);
    }

    /// Lets `this` take over the parent, the children and the colour of `node`.
    fn switch_with(&mut self, this: u64, node: u64)
        requires
            this != node,
            this % 4 == 0,
            old(self).ns().contains_key(this as int),
            old(self).ns().contains_key(node as int),
            old(self).ns().contains_key(old(self).ns()[node as int].left),
            old(self).ns().contains_key(old(self).ns()[node as int].right),
            old(self).ns().contains_key(old(self).ns()[node as int].parent),
            old(self).ns()[node as int].left != node,
            old(self).ns()[node as int].right != node,
            old(self).ns()[node as int].parent != node,
        ensures
            final(self).ns() == rbshape::switched(old(self).ns(), this as int, node as int),
            final(self).rest_same(old(self)),
    {
        let ghost ns = self.ns();
        let nps = self.parent_side(node);
        let node_left = self.child(node, Side::Left);
        let node_right = self.child(node, Side::Right);
        self.set_child(this, Side::Left, node_left);
        self.set_child(this, Side::Right, node_right);
        let node_parent = self.parent(node);
        self.set_parent(this, node_parent, nps);
        assert(self.ns() =~= ns.insert(
            this as int,
            NodeView {
                left: node_left as int,
                right: node_right as int,
                parent: node_parent as int,
                side: nps,
                ..ns[this as int]
            },
        ));
        self.set_parent(node_left, this, Side::Left);
        self.set_parent(node_right, this, Side::Right);
        self.set_child(node_parent, nps, this);
        let node_colour = self.colour(node);
        self.set_colour(this, node_colour);
    }

    /// Takes `this` off its ring.
    fn unlink_from_chain(&mut self, this: u64)
        requires
            old(self).ns().contains_key(this as int),
            old(self).ns().contains_key(old(self).ns()[this as int].next),
            old(self).ns().contains_key(old(self).ns()[this as int].prev),
        ensures
            final(self).ns() == rbshape::unringed(old(self).ns(), this as int),
            final(self).rest_same(old(self)),
    {
        let next = self.neighbour(this, Side::Right);
        let prev = self.neighbour(this, Side::Left);
        self.set_neighbour(next, Side::Left, prev);
        self.set_neighbour(prev, Side::Right, next);
    }

    /// Puts `this` on the ring of `node`, just before it.
    fn link_into_chain(&mut self, this: u64, node: u64)
        requires
            old(self).ns().contains_key(node as int),
            old(self).ns().contains_key(old(self).ns()[node as int].prev),
            this != node,
            old(self).ns()[node as int].prev != this,
        ensures
            final(self).ns() == rbshape::ringed(old(self).ns(), this as int, node as int),
            final(self).rest_same(old(self)),
    {
        let ghost ns = self.ns();
        let node_prev = self.neighbour(node, Side::Left);
        self.put(
            this,
            NodeBase { left: 0, right: 0, prev: 0, next: 0, parent: TaggedPtr::null() },
        );
        self.set_neighbour(this, Side::Left, node_prev);
        self.set_neighbour(this, Side::Right, node);
        self.set_neighbour(node, Side::Left, this);
        self.set_neighbour(node_prev, Side::Right, this);
        self.set_child(this, Side::Left, 0);
        self.set_child(this, Side::Right, 0);
        self.set_parent(this, 0, Side::Left);
        self.make_red(this);
        assert(self.ns() =~= rbshape::ringed(ns, this as int, node as int));
    }

    /// Restores the red-black conditions after `node` came in as a red leaf.
    #[verifier::rlimit(60)]
    fn insert_fixup(&mut self, node: u64)
        requires
            old(self).linked(),
            rbshape::attached(old(self).g(), node as int),
            rbshape::heights_ok(old(self).ns(), old(self).g(), old(self).shape@.heights, HEAD as int, Side::Left),
            rbshape::reds_ok(old(self).ns(), old(self).g(), node as int),
            old(self).ns()[node as int].red,
        ensures
            final(self).wf(),
            final(self)@ == old(self)@,
    {
        let ghost n = self.shape@.groups.len() as int;
        let ghost v0 = self@;
        let mut cur = node;
        proof {
            assert(rbshape::node_ok(self.ns(), self.g(), n, cur as int));
        }
        let mut p = self.parent(cur);
        proof {
            if p != HEAD {
                assert(rbshape::node_ok(self.ns(), self.g(), n, p as int));
            }
        }
        while self.red(p)
            invariant
                self.linked(),
                self@ == v0,
                n == self.shape@.groups.len(),
                rbshape::attached(self.g(), cur as int),
                rbshape::heights_ok(self.ns(), self.g(), self.shape@.heights, HEAD as int, Side::Left),
                rbshape::reds_ok(self.ns(), self.g(), cur as int),
                self.ns()[cur as int].red,
                p == self.ns()[cur as int].parent,
                self.ns().contains_key(p as int),
            decreases
                (if self.ns()[p as int].red {
                    1int
                } else {
                    0
                }),
                n - (self.g()[cur as int].hi - self.g()[cur as int].lo),
        {
            let ghost ns = self.ns();
            let ghost g = self.g();
            let ghost bh = self.shape@.heights;
            let ghost groups = self.shape@.groups;
            let ghost ks = self.keys@;
            proof {
                rbcolour::lemma_red_parent(ns, g, n, cur as int);
                assert(rbshape::node_ok(ns, g, n, cur as int));
                assert(rbshape::node_ok(ns, g, n, p as int));
                let pp = ns[p as int].parent;
                assert(rbshape::node_ok(ns, g, n, pp));
                let u = ns[pp].child(ns[p as int].side.flip());
                assert(u != HEAD ==> rbshape::attached(g, u) && rbshape::node_ok(ns, g, n, u));
                assert(ns.contains_key(u));
            }
            let pp = self.parent(p);
            let s = self.parent_side(p);
            let o = s.other();
            let pp_right = self.child(pp, o);
            if self.red(pp_right) {
                proof {
                    rbcolour::lemma_fix_uncle(ns, g, n, bh, cur as int);
                    rbcolour::lemma_coloured(ns, g, groups, ks, p as int, false);
                    let n1 = rbcolour::coloured(ns, p as int, false);
                    rbcolour::lemma_coloured(n1, g, groups, ks, pp_right as int, false);
                    let n2 = rbcolour::coloured(n1, pp_right as int, false);
                    assert(pp != HEAD);
                    rbcolour::lemma_coloured(n2, g, groups, ks, pp as int, true);
                }
                self.make_black(p);
                self.make_black(pp_right);
                self.make_red(pp);
                proof {
                    self.shape@ = Shape {
                        heights: bh.insert(p as int, bh[p as int] + 1).insert(
                            pp_right as int,
                            bh[pp_right as int] + 1,
                        ),
                        ..self.shape@
                    };
                }
                cur = pp;
                p = self.parent(cur);
                proof {
                    assert(rbshape::node_ok(self.ns(), g, n, cur as int));
                    if p != HEAD {
                        assert(rbshape::node_ok(self.ns(), g, n, p as int));
                    }
                }
            } else {
                let p_o_child = self.child(p, o);
                if cur == p_o_child {
                    let ghost cur0 = cur;
                    cur = p;
                    self.rotate(cur, s);
                    proof {
                        rbcolour::lemma_fix_inner(ns, self.ns(), g, self.g(), n, bh, cur0 as int);
                        assert(self.ns()[pp_right as int].red == ns[pp_right as int].red);
                        assert(self.ns()[cur as int].red && self.ns()[cur0 as int].red);
                    }
                    p = self.parent(cur);
                }
                let ghost ns1 = self.ns();
                let ghost g1 = self.g();
                proof {
                    rbcolour::lemma_red_parent(ns1, g1, n, cur as int);
                    assert(rbshape::node_ok(ns1, g1, n, cur as int));
                    assert(rbshape::node_ok(ns1, g1, n, p as int));
                    assert(rbshape::node_ok(ns1, g1, n, pp as int));
                    assert(ns1[cur as int].side == s) by {
                        if ns1[cur as int].side != s {
                            assert(ns1[p as int].child(o) == cur);
                        }
                    }
                    rbcolour::lemma_coloured(ns1, g1, groups, ks, p as int, false);
                    let n2 = rbcolour::coloured(ns1, p as int, false);
                    rbcolour::lemma_coloured(n2, g1, groups, ks, pp as int, true);
                }
                self.make_black(p);
                self.make_red(pp);
                self.rotate(pp, o);
                proof {
                    rbcolour::lemma_fix_outer(ns1, self.ns(), g1, self.g(), n, bh, cur as int);
                    self.shape@ = Shape {
                        heights: bh.insert(pp as int, bh[p as int]).insert(p as int, bh[p as int] + 1),
                        ..self.shape@
                    };
                }
            }
        }
        let ghost ns = self.ns();
        let ghost g = self.g();
        let ghost bh = self.shape@.heights;
        proof {
            rbcolour::lemma_fix_root(ns, g, n, bh, cur as int);
            let r = ns[HEAD as int].left;
            assert(rbshape::attached(g, r) && rbshape::node_ok(ns, g, n, r)) by {
                assert(rbshape::node_ok(ns, g, n, cur as int));
                assert(rbshape::root_ok(ns, g, n));
            }
            rbcolour::lemma_coloured(ns, g, self.shape@.groups, self.keys@, r, false);
        }
        let root = self.child(HEAD, Side::Left);
        self.make_black(root);
        proof {
            self.shape@ = Shape { heights: rbcolour::heights_rooted(ns, bh), ..self.shape@ };
        }
    }

    /// Gives a black `cur`, whose sibling `w` is red, a black sibling, which is
    /// returned, and a red parent.
    fn lift_sibling(&mut self, cur: u64, p: u64, w: u64, s: Side) -> (r: u64)
        requires
            old(self).linked(),
            rbcolour::lacking(old(self).ns(), old(self).g(), old(self).shape@.heights, cur as int),
            !old(self).ns()[cur as int].red,
            cur != old(self).ns()[HEAD as int].left,
            p == old(self).ns()[cur as int].parent,
            s == old(self).ns()[cur as int].side,
            w == old(self).ns()[p as int].child(s.flip()),
            old(self).ns()[w as int].red,
        ensures
            final(self).linked(),
            final(self)@ == old(self)@,
            rbcolour::lacking(final(self).ns(), final(self).g(), final(self).shape@.heights, cur as int),
            forall|m: int| rbshape::attached(final(self).g(), m) <==> rbshape::attached(old(self).g(), m),
            cur != HEAD ==> final(self).g()[cur as int] == old(self).g()[cur as int],
            ({
                let ns = final(self).ns();
                &&& p == ns[cur as int].parent
                &&& s == ns[cur as int].side
                &&& !ns[cur as int].red
                &&& cur != ns[HEAD as int].left
                &&& ns[p as int].red
                &&& r == ns[p as int].child(s.flip())
                &&& !ns[r as int].red
                &&& ns[HEAD as int].left == old(self).ns()[HEAD as int].left || old(self).ns()[HEAD as int].left == p
            }),
    {
        let ghost ns = self.ns();
        let ghost g = self.g();
        let ghost bh = self.shape@.heights;
        let ghost groups = self.shape@.groups;
        let ghost ks = self.keys@;
        let ghost n = groups.len() as int;
        proof {
            rbcolour::lemma_sibling(ns, g, n, bh, cur as int);
            assert(rbshape::node_ok(ns, g, n, p as int));
            assert(rbshape::node_ok(ns, g, n, w as int));
            rbcolour::lemma_coloured(ns, g, groups, ks, w as int, false);
            rbcolour::lemma_coloured(rbcolour::coloured(ns, w as int, false), g, groups, ks, p as int, true);
        }
        self.make_black(w);
        self.make_red(p);
        let r = self.child(w, s);
        self.rotate(p, s);
        proof {
            rbcolour::lemma_red_sibling(ns, self.ns(), g, self.g(), n, bh, cur as int);
            assert(self.ns()[HEAD as int] == self.ns()[HEAD as int]);
            self.shape@ = Shape {
                heights: bh.insert(p as int, bh[w as int]).insert(w as int, bh[w as int] + 1),
                ..self.shape@
            };
        }
        r
    }

    /// Makes up for the black member lacking below `p` on side `s`, where the sibling
    /// `w` is black and has a red child.
    #[verifier::rlimit(100)]
    fn settle_below(&mut self, p: u64, w: u64, s: Side)
        requires
            old(self).linked(),
            rbcolour::lacking_below(old(self).ns(), old(self).g(), old(self).shape@.heights, p as int, s),
            w == old(self).ns()[p as int].child(s.flip()),
            rbshape::attached(old(self).g(), w as int),
            !old(self).ns()[w as int].red,
            old(self).ns()[old(self).ns()[w as int].left].red || old(self).ns()[old(self).ns()[w as int].right].red,
        ensures
            final(self).wf(),
            final(self)@ == old(self)@,
            forall|m: int| rbshape::attached(final(self).g(), m) <==> rbshape::attached(old(self).g(), m),
            !final(self).ns()[p as int].red,
            final(self).ns()[HEAD as int].left == old(self).ns()[HEAD as int].left || old(self).ns()[HEAD as int].left == p,
    {
        let ghost ns1 = self.ns();
        let ghost g1 = self.g();
        let ghost bh1 = self.shape@.heights;
        let ghost groups = self.shape@.groups;
        let ghost ks = self.keys@;
        let ghost n = groups.len() as int;
        let mut w = w;
        let o = s.other();
        proof {
            assert(rbshape::node_ok(ns1, g1, n, p as int));
            assert(rbshape::node_ok(ns1, g1, n, w as int));
            let l = ns1[w as int].left;
            let r = ns1[w as int].right;
            assert(l != HEAD ==> rbshape::attached(g1, l) && rbshape::node_ok(ns1, g1, n, l));
            assert(r != HEAD ==> rbshape::attached(g1, r) && rbshape::node_ok(ns1, g1, n, r));
        }
        let w_o_child = self.child(w, o);
        if !self.red(w_o_child) {
            let w_s_child = self.child(w, s);
            proof {
                assert(w_s_child != HEAD);
                rbcolour::lemma_coloured(ns1, g1, groups, ks, w_s_child as int, false);
                rbcolour::lemma_coloured(rbcolour::coloured(ns1, w_s_child as int, false), g1, groups, ks, w as int, true);
            }
            self.make_black(w_s_child);
            self.make_red(w);
            let c = w_s_child;
            self.rotate(w, o);
            proof {
                rbcolour::lemma_inner_nephew(ns1, self.ns(), g1, self.g(), n, bh1, p as int, s);
                self.shape@ = Shape {
                    heights: bh1.insert(w as int, bh1[c as int]).insert(c as int, bh1[c as int] + 1),
                    ..self.shape@
                };
            }
            w = c;
        }
        let ghost ns2 = self.ns();
        let ghost g2 = self.g();
        let ghost bh2 = self.shape@.heights;
        proof {
            assert(rbcolour::lacking_below(ns2, g2, bh2, p as int, s));
            assert(rbshape::node_ok(ns2, g2, n, p as int));
            assert(w == ns2[p as int].child(o));
            assert(rbshape::attached(g2, w as int));
            assert(rbshape::node_ok(ns2, g2, n, w as int));
            let d = ns2[w as int].child(o);
            assert(ns2[d].red);
            assert(d != HEAD);
            assert(rbshape::attached(g2, d) && rbshape::node_ok(ns2, g2, n, d));
            rbcolour::lemma_coloured(ns2, g2, groups, ks, w as int, ns2[p as int].red);
            let n3 = rbcolour::coloured(ns2, w as int, ns2[p as int].red);
            rbcolour::lemma_coloured(n3, g2, groups, ks, p as int, false);
            let n4 = rbcolour::coloured(n3, p as int, false);
            rbcolour::lemma_coloured(n4, g2, groups, ks, d, false);
        }
        let p_colour = self.colour(p);
        self.set_colour(w, p_colour);
        self.make_black(p);
        let w_o_child = self.child(w, o);
        self.make_black(w_o_child);
        self.rotate(p, s);
        proof {
            rbcolour::lemma_outer_nephew(ns2, self.ns(), g2, self.g(), n, bh2, p as int, s);
            self.shape@ = Shape {
                heights: bh2.insert(w as int, bh2[p as int]).insert(
                    p as int,
                    bh2[w_o_child as int] + 1,
                ).insert(w_o_child as int, bh2[w_o_child as int] + 1),
                ..self.shape@
            };
        }
    }

    /// Restores the red-black conditions after a black member left above `node`, which
    /// may be the sentinel.
    #[verifier::rlimit(100)]
    fn erase_fixup(&mut self, node: u64)
        requires
            old(self).linked(),
            rbcolour::lacking(old(self).ns(), old(self).g(), old(self).shape@.heights, node as int),
        ensures
            final(self).wf(),
            final(self)@ == old(self)@,
    {
        let ghost n = self.shape@.groups.len() as int;
        let ghost v0 = self@;
        let mut cur = node;
        let root = self.child(HEAD, Side::Left);
        let ghost mut done = false;
        proof {
            if cur != HEAD {
                assert(rbshape::node_ok(self.ns(), self.g(), n, cur as int));
            }
        }
        while !self.red(cur) && cur != root
            invariant
                self.linked(),
                self@ == v0,
                n == self.shape@.groups.len(),
                self.ns().contains_key(cur as int),
                cur == HEAD || rbshape::attached(self.g(), cur as int),
                done ==> cur == root && !self.ns()[cur as int].red && rbshape::balanced(
                    self.ns(),
                    self.g(),
                    self.shape@.heights,
                ),
                !done ==> rbcolour::lacking(self.ns(), self.g(), self.shape@.heights, cur as int),
                !done ==> root == self.ns()[HEAD as int].left || self.ns()[cur as int].red,
            decreases
                (if done {
                    0int
                } else {
                    1
                }),
                n - (if cur == HEAD {
                    0
                } else {
                    self.g()[cur as int].hi - self.g()[cur as int].lo
                }),
        {
            let ghost ns = self.ns();
            let ghost g = self.g();
            let ghost bh = self.shape@.heights;
            let ghost groups = self.shape@.groups;
            let ghost ks = self.keys@;
            proof {
                rbcolour::lemma_sibling(ns, g, n, bh, cur as int);
                let p = ns[cur as int].parent;
                let w = ns[p].child(ns[cur as int].side.flip());
                assert(rbshape::node_ok(ns, g, n, p));
                assert(rbshape::node_ok(ns, g, n, w));
                assert(cur != HEAD ==> rbshape::node_ok(ns, g, n, cur as int));
            }
            let p = self.parent(cur);
            let s = self.parent_side(cur);
            let o = s.other();
            let mut w = self.child(p, o);
            if self.red(w) {
                w = self.lift_sibling(cur, p, w, s);
            }
            let ghost ns1 = self.ns();
            let ghost g1 = self.g();
            let ghost bh1 = self.shape@.heights;
            proof {
                rbcolour::lemma_sibling(ns1, g1, n, bh1, cur as int);
                assert(rbshape::node_ok(ns1, g1, n, p as int));
                assert(rbshape::node_ok(ns1, g1, n, w as int));
                let l = ns1[w as int].left;
                let r = ns1[w as int].right;
                assert(l != HEAD ==> rbshape::attached(g1, l) && rbshape::node_ok(ns1, g1, n, l));
                assert(r != HEAD ==> rbshape::attached(g1, r) && rbshape::node_ok(ns1, g1, n, r));
                assert(ns1.contains_key(l) && ns1.contains_key(r));
                assert(cur != HEAD ==> rbshape::node_ok(ns1, g1, n, cur as int));
            }
            let w_left = self.child(w, Side::Left);
            let w_right = self.child(w, Side::Right);
            let w_left_black = !self.red(w_left);
            let w_right_black = !self.red(w_right);
            if w_left_black && w_right_black {
                proof {
                    rbcolour::lemma_black_sibling(ns1, g1, n, bh1, cur as int);
                    rbcolour::lemma_coloured(ns1, g1, groups, ks, w as int, true);
                }
                self.make_red(w);
                proof {
                    self.shape@ = Shape {
                        heights: bh1.insert(w as int, bh1[w as int] - 1).insert(p as int, bh1[p as int] - 1),
                        ..self.shape@
                    };
                }
                cur = p;
            } else {
                self.settle_below(p, w, s);
                proof {
                    done = true;
                    assert(rbshape::root_ok(self.ns(), self.g(), n));
                }
                cur = root;
                proof {
                    assert(rbshape::attached(self.g(), cur as int));
                    assert(rbshape::node_ok(self.ns(), self.g(), n, cur as int));
                }
            }
        }
        let ghost ns = self.ns();
        let ghost g = self.g();
        let ghost bh = self.shape@.heights;
        proof {
            if !done {
                rbcolour::lemma_lack_ends(ns, g, n, bh, cur as int);
            } else {
                assert(rbcolour::coloured(ns, cur as int, false) =~= ns);
            }
            rbcolour::lemma_coloured(ns, g, self.shape@.groups, self.keys@, cur as int, false);
        }
        self.make_black(cur);
        proof {
            if !done && ns[cur as int].red {
                self.shape@ = Shape {
                    heights: bh.insert(cur as int, bh[cur as int] + 1),
                    ..self.shape@
                };
            }
        }
    }

    // ---- the tree as a whole ----

    /// A tree that holds nothing.
    pub fn new() -> (t: Self)
        ensures
            t.wf(),
            t@ == (RbView { groups: Seq::empty(), keys: Map::empty() }),
    {
        let mut nodes: Table<NodeBase> = Table::new();
        nodes.set(
            HEAD,
            NodeBase { left: HEAD, right: HEAD, prev: HEAD, next: HEAD, parent: TaggedPtr::new(HEAD, 0) },
        );
        let t = IntrusiveMultiRbTree {
            nodes,
            keys: Table::new(),
            shape: Ghost(Shape { groups: Seq::empty(), places: Map::empty(), heights: Map::empty() }),
        };
        proof {
            assert forall|m: int| #[trigger] t.ns().contains_key(m) implies m == HEAD by {}
            assert forall|m: int| !rbshape::attached(t.g(), m) by {}
        }
        t
    }

    /// Whether the tree holds nothing.
    pub fn is_empty(&self) -> (r: bool)
        requires
            self.wf(),
        ensures
            r == (self@.groups.len() == 0),
    {
        proof {
            assert(rbshape::root_ok(self.ns(), self.g(), self@.groups.len() as int));
        }
        self.child(HEAD, Side::Left) == HEAD
    }

    /// The topmost node, or the sentinel where the tree holds nothing.
    pub fn root(&self) -> (r: u64)
        requires
            self.linked(),
        ensures
            r == self.ns()[HEAD as int].left,
    {
        self.child(HEAD, Side::Left)
    }

    /// Adds `node` under `key`: behind the others of that key, or on its own.
    pub fn insert(&mut self, node: u64, key: u64)
        requires
            old(self).wf(),
            tree_addr(node),
            !old(self)@.keys.contains_key(node as int),
        ensures
            final(self).wf(),
            final(self)@ == old(self)@.inserted(node as int, key as int),
    {
        let ghost ns = self.ns();
        let ghost g = self.g();
        let ghost groups = self.shape@.groups;
        let ghost n = groups.len() as int;
        let ghost ks = self.keys@;
        let ghost v = self@;
        let end = HEAD;
        let mut last = HEAD;
        let mut cur = self.root();
        let mut s = Side::Left;
        let ghost mut a: int = 0;
        let ghost mut b: int = n;
        proof {
            assert(rbshape::root_ok(ns, g, n));
            assert(ks.contains_key(node as int) <==> g.contains_key(node as int));
            if n != 0 {
                assert(rbshape::node_ok(ns, g, n, cur as int));
            }
        }
        while cur != end
            invariant
                *self == *old(self),
                self.wf(),
                ns == self.ns(),
                g == self.g(),
                groups == self.shape@.groups,
                n == groups.len(),
                ks == self.keys@,
                v == self@,
                end == HEAD,
                0 <= a <= b <= n,
                !g.contains_key(node as int),
                tree_addr(node),
                cur == ns[last as int].child(s),
                a == b <==> cur == HEAD,
                cur != HEAD ==> rbshape::attached(g, cur as int) && g[cur as int].lo == a && g[cur as int].hi == b,
                last == HEAD ==> s == Side::Left && a == 0 && b == n,
                last != HEAD ==> rbshape::attached(g, last as int) && rbshape::below(g, last as int, s) == (a, b),
                forall|p: int| 0 <= p < a ==> ks[#[trigger] groups[p][0]] < key,
                forall|p: int| b <= p < n ==> ks[#[trigger] groups[p][0]] > key,
            decreases b - a,
        {
            proof {
                assert(rbshape::node_ok(ns, g, n, cur as int));
                assert(g.contains_key(cur as int));
                assert(ks.contains_key(cur as int));
            }
            let ghost pos = g[cur as int].pos;
            last = cur;
            let cur_key = self.keys.get(cur);
            proof {
                assert(groups[pos][0] == cur as int);
            }
            if key < cur_key {
                s = Side::Left;
                proof {
                    b = pos;
                    assert forall|p: int| b <= p < n implies ks[#[trigger] groups[p][0]] > key by {
                        assert(groups[p] == groups[p] && groups[pos] == groups[pos]);
                    }
                }
            } else if key > cur_key {
                s = Side::Right;
                proof {
                    a = pos + 1;
                    assert forall|p: int| 0 <= p < a implies ks[#[trigger] groups[p][0]] < key by {
                        assert(groups[p] == groups[p] && groups[pos] == groups[pos]);
                    }
                }
            } else {
                proof {
                    rbshape::lemma_chained(ns, g, groups, ks, node as int, cur as int);
                    assert(rbshape::ring_ok(ns, g, groups, cur as int));
                    let grp = groups[pos];
                    let q = ns[cur as int].prev;
                    assert(g.contains_key(groups[pos][grp.len() - 1]));
                    assert(rbshape::ring_ok(ns, g, groups, q));
                }
                self.link_into_chain(node, cur);
                self.keys.set(node, key);
                proof {
                    let bh = self.shape@.heights;
                    rbcolour::lemma_off_tree(ns, self.ns(), g, rbshape::places_chained(g, groups, node as int, cur as int), n, bh);
                    self.shape@ = Shape {
                        groups: groups.update(pos, groups[pos].push(node as int)),
                        places: rbshape::places_chained(g, groups, node as int, cur as int),
                        heights: bh,
                    };
                    assert forall|q: int| 0 <= q < pos implies #[trigger] v.key_of(q) < key by {
                        assert(groups[q] == groups[q] && groups[pos] == groups[pos]);
                    }
                    assert forall|q: int| pos <= q < n implies #[trigger] v.key_of(q) >= key by {
                        assert(groups[q] == groups[q] && groups[pos] == groups[pos]);
                    }
                    v.lemma_lower(key as int, pos);
                    assert(self@ =~= v.inserted(node as int, key as int));
                }
                return ;
            }
            cur = self.child(cur, s);
        }
        proof {
            let q = rbshape::gap(g, last as int, s);
            assert(q == a);
            assert forall|p: int| 0 <= p < q implies #[trigger] v.key_of(p) < key by {
                assert(ks[groups[p][0]] < key);
            }
            assert forall|p: int| q <= p < n implies #[trigger] v.key_of(p) >= key by {
                assert(ks[groups[p][0]] > key);
            }
            v.lemma_lower(key as int, q);
            assert(q < n ==> ks[groups[q][0]] > key);
        }
        self.attach_to(node, key, last, s);
        self.insert_fixup(node);
    }

    /// Takes `node` out.
    #[verifier::rlimit(60)]
    pub fn erase(&mut self, node: u64)
        requires
            old(self).wf(),
            old(self)@.keys.contains_key(node as int),
        ensures
            final(self).wf(),
            final(self)@ == old(self)@.erased(node as int),
    {
        let ghost ns = self.ns();
        let ghost g = self.g();
        let ghost groups = self.shape@.groups;
        let ghost n = groups.len() as int;
        let ghost ks = self.keys@;
        let ghost bh = self.shape@.heights;
        let ghost x = node as int;
        let ghost pos = g[x].pos;
        proof {
            self.lemma_linked_view();
            assert(g.contains_key(x));
            assert(rbshape::ring_ok(ns, g, groups, x));
            let k = groups[pos].len() as int;
            assert(g.contains_key(groups[pos][rbshape::ring_next(g[x].idx, k)]));
            assert(g.contains_key(groups[pos][rbshape::ring_prev(g[x].idx, k)]));
            assert(ns[x].prev != x <==> k > 1);
            if g[x].idx == 0 {
                assert(rbshape::attached(g, x));
                assert(rbshape::node_ok(ns, g, n, x));
                assert(rbshape::parent_ok(ns, g, x));
                let p = ns[x].parent;
                assert(p != HEAD ==> rbshape::attached(g, p) && rbshape::node_ok(ns, g, n, p));
                assert(p != HEAD ==> g.contains_key(p));
                assert(ns[x].left != HEAD ==> rbshape::attached(g, ns[x].left) && g.contains_key(ns[x].left));
                assert(ns[x].right != HEAD ==> rbshape::attached(g, ns[x].right) && g.contains_key(ns[x].right));
                assert(rbshape::child_ok(ns, g, x, Side::Left));
                assert(rbshape::child_ok(ns, g, x, Side::Right));
                assert(p != 0);
            }
        }
        if self.chained(node) {
            if !self.is_attached(node) {
                proof {
                    rbshape::lemma_unchained(ns, g, groups, ks, x);
                }
                self.unlink_from_chain(node);
                self.forget(node);
                proof {
                    rbcolour::lemma_off_tree(ns, self.ns(), g, rbshape::places_unchained(g, x), n, bh);
                    self.shape@ = Shape {
                        groups: groups.update(pos, groups[pos].remove(g[x].idx)),
                        places: rbshape::places_unchained(g, x),
                        heights: bh,
                    };
                }
                return ;
            }
            proof {
                rbshape::lemma_promoted(ns, g, groups, ks, x);
                assert(ns[x].next != x);
                let z = ns[x].next;
                let n1 = rbshape::switched(ns, z, x);
                assert(n1[x] == ns[x]);
            }
            let repl = self.neighbour(node, Side::Right);
            self.switch_with(repl, node);
            self.unlink_from_chain(node);
            self.forget(node);
            proof {
                rbcolour::lemma_promoted_colours(ns, self.ns(), g, rbshape::places_unchained(g, x), n, bh, x, repl as int);
                self.shape@ = Shape {
                    groups: groups.update(pos, groups[pos].remove(g[x].idx)),
                    places: rbshape::places_unchained(g, x),
                    heights: bh.insert(repl as int, bh[x]),
                };
            }
            return ;
        }
        let end = HEAD;
        let mut repl = node;
        let mut s = Side::Left;
        let right = self.child(node, Side::Right);
        if right != end {
            let left = self.child(node, Side::Left);
            if left != end {
                repl = right;
                proof {
                    assert(rbshape::node_ok(ns, g, n, right as int));
                }
                let mut repl_left = self.child(repl, Side::Left);
                while repl_left != end
                    invariant
                        self.wf(),
                        ns == self.ns(),
                        g == self.g(),
                        n == self.shape@.groups.len(),
                        end == HEAD,
                        rbshape::attached(g, x),
                        ns.contains_key(x),
                        rbshape::attached(g, repl as int),
                        repl_left == ns[repl as int].left,
                        g[repl as int].lo == g[x].pos + 1,
                        g[repl as int].hi <= g[x].hi,
                        ns[repl as int].parent == x || ns[repl as int].side == Side::Left,
                        ns[repl as int].parent == x ==> ns[repl as int].side == Side::Right,
                    decreases g[repl as int].hi - g[repl as int].lo,
                {
                    proof {
                        assert(rbshape::node_ok(ns, g, n, repl as int));
                        assert(rbshape::node_ok(ns, g, n, repl_left as int));
                        assert(rbshape::node_ok(ns, g, n, x));
                    }
                    repl = repl_left;
                    repl_left = self.child(repl, Side::Left);
                }
                proof {
                    assert(rbshape::node_ok(ns, g, n, repl as int));
                    assert(rbshape::successor_of(ns, g, x, repl as int));
                }
            }
            s = Side::Right;
        }
        proof {
            let r = repl as int;
            assert(rbshape::attached(g, r) && rbshape::node_ok(ns, g, n, r));
            let c = ns[r].child(s);
            assert(c != HEAD ==> rbshape::attached(g, c) && rbshape::node_ok(ns, g, n, c));
            assert(ns.contains_key(c));
            let q = ns[r].parent;
            assert(q != HEAD ==> rbshape::attached(g, q) && rbshape::node_ok(ns, g, n, q));
            assert(ns.contains_key(q));
        }
        let red = self.red(repl);
        let repl_child = self.child(repl, s);
        if repl != node {
            self.erase_inner(node, repl, repl_child);
        } else {
            proof {
                let t = s.flip();
                assert(ns[x].child(t) == HEAD);
                rbshape::lemma_spliced(ns, g, groups, ks, x, t);
                rbcolour::lemma_spliced_colours(ns, g, n, bh, x, t);
            }
            self.substitute_with(repl, repl_child);
            self.forget(node);
            proof {
                self.shape@ = Shape {
                    groups: groups.remove(pos),
                    places: rbshape::places_without(g, x),
                    heights: bh,
                };
            }
        }
        if !red {
            self.erase_fixup(repl_child);
        }
    }

    /// Puts `repl`, the successor of `node`, in the place of `node`, and drops `node`.
    #[verifier::rlimit(60)]
    fn erase_inner(&mut self, node: u64, repl: u64, repl_child: u64)
        requires
            old(self).wf(),
            old(self).g().contains_key(node as int),
            old(self)@.groups[old(self).g()[node as int].pos].len() == 1,
            rbshape::successor_of(old(self).ns(), old(self).g(), node as int, repl as int),
            repl_child == old(self).ns()[repl as int].right,
        ensures
            final(self).linked(),
            final(self)@ == (RbView {
                groups: old(self)@.groups.remove(old(self).g()[node as int].pos),
                keys: old(self)@.keys.remove(node as int),
            }),
            old(self).ns()[repl as int].red ==> final(self).wf(),
            !old(self).ns()[repl as int].red ==> rbcolour::lacking(
                final(self).ns(),
                final(self).g(),
                final(self).shape@.heights,
                repl_child as int,
            ),
    {
        let ghost ns = self.ns();
        let ghost g = self.g();
        let ghost groups = self.shape@.groups;
        let ghost n = groups.len() as int;
        let ghost ks = self.keys@;
        let ghost bh = self.shape@.heights;
        let ghost x = node as int;
        let ghost z = repl as int;
        proof {
            rbshape::lemma_replaced(ns, g, groups, ks, x, z);
            rbshape::lemma_replacement(ns, g, n, x, z);
            assert(rbshape::node_ok(ns, g, n, x) && rbshape::node_ok(ns, g, n, z));
            assert(g.contains_key(z));
            let c = ns[z].right;
            assert(c != HEAD ==> rbshape::attached(g, c) && rbshape::node_ok(ns, g, n, c));
            let q = ns[z].parent;
            assert(q != HEAD ==> rbshape::attached(g, q) && rbshape::node_ok(ns, g, n, q));
            let p = ns[x].parent;
            assert(p != HEAD ==> rbshape::attached(g, p) && rbshape::node_ok(ns, g, n, p));
            let l = ns[x].left;
            let r = ns[x].right;
            assert(rbshape::attached(g, l) && rbshape::node_ok(ns, g, n, l));
            assert(rbshape::attached(g, r) && rbshape::node_ok(ns, g, n, r));
        }
        self.substitute_with(repl, repl_child);
        self.switch_with(repl, node);
        self.forget(node);
        proof {
            rbcolour::lemma_replaced_colours(ns, self.ns(), g, n, bh, x, z);
            self.shape@ = Shape {
                groups: groups.remove(g[x].pos),
                places: rbshape::places_replaced(g, x, z),
                heights: bh.insert(z, bh[x]),
            };
            assert(self@.keys =~= old(self)@.keys.remove(x));
        }
    }

    /// Drops the record and the key of `node`.
    fn forget(&mut self, node: u64)
        ensures
            final(self).ns() == old(self).ns().remove(node as int),
            final(self).keys@ == old(self).keys@.remove(node as int),
            final(self).shape == old(self).shape,
    {
        self.nodes.remove(node);
        self.keys.remove(node);
        assert(self.ns() =~= old(self).ns().remove(node as int));
    }

    /// The attached member of the first group whose key is not below `key`.
    pub fn lower_bound(&self, key: u64) -> (r: Option<u64>)
        requires
            self.wf(),
        ensures
            self@.splits_below(key as int, self@.lower(key as int)),
            (match r {
                Some(m) => Some(m as int),
                None => None,
            }) == self@.rep(self@.lower(key as int)),
    {
        let ghost ns = self.ns();
        let ghost g = self.g();
        let ghost v = self@;
        let ghost n = v.groups.len() as int;
        let end = HEAD;
        let mut best = HEAD;
        let mut cur = self.root();
        let ghost mut a: int = 0;
        let ghost mut b: int = n;
        proof {
            assert(rbshape::root_ok(ns, g, n));
        }
        while cur != end
            invariant
                self.wf(),
                ns == self.ns(),
                g == self.g(),
                v == self@,
                n == v.groups.len(),
                end == HEAD,
                0 <= a <= b <= n,
                a == b <==> cur == HEAD,
                cur != HEAD ==> rbshape::attached(g, cur as int) && g[cur as int].lo == a && g[cur as int].hi == b,
                best == HEAD <==> b == n,
                best != HEAD ==> rbshape::attached(g, best as int) && g[best as int].pos == b,
                forall|p: int| 0 <= p < a ==> #[trigger] v.key_of(p) < key,
                forall|p: int| b <= p < n ==> #[trigger] v.key_of(p) >= key,
            decreases b - a,
        {
            proof {
                self.lemma_linked_view();
                assert(rbshape::node_ok(ns, g, n, cur as int));
                assert(g.contains_key(cur as int));
            }
            let ghost pos = g[cur as int].pos;
            let cur_key = self.keys.get(cur);
            proof {
                assert(v.groups[pos][0] == cur as int);
                assert(cur_key == v.key_of(pos));
            }
            if cur_key < key {
                cur = self.child(cur, Side::Right);
                proof {
                    a = pos + 1;
                }
            } else {
                best = cur;
                cur = self.child(cur, Side::Left);
                proof {
                    b = pos;
                }
            }
        }
        proof {
            v.lemma_lower(key as int, b);
            if best != HEAD {
                assert(g.contains_key(best as int));
            }
        }
        if best == end {
            None
        } else {
            Some(best)
        }
    }

    /// The attached member of the first group whose key is above `key`.
    pub fn upper_bound(&self, key: u64) -> (r: Option<u64>)
        requires
            self.wf(),
        ensures
            self@.splits_above(key as int, self@.upper(key as int)),
            (match r {
                Some(m) => Some(m as int),
                None => None,
            }) == self@.rep(self@.upper(key as int)),
    {
        let ghost ns = self.ns();
        let ghost g = self.g();
        let ghost v = self@;
        let ghost n = v.groups.len() as int;
        let end = HEAD;
        let mut best = HEAD;
        let mut cur = self.root();
        let ghost mut a: int = 0;
        let ghost mut b: int = n;
        proof {
            assert(rbshape::root_ok(ns, g, n));
        }
        while cur != end
            invariant
                self.wf(),
                ns == self.ns(),
                g == self.g(),
                v == self@,
                n == v.groups.len(),
                end == HEAD,
                0 <= a <= b <= n,
                a == b <==> cur == HEAD,
                cur != HEAD ==> rbshape::attached(g, cur as int) && g[cur as int].lo == a && g[cur as int].hi == b,
                best == HEAD <==> b == n,
                best != HEAD ==> rbshape::attached(g, best as int) && g[best as int].pos == b,
                forall|p: int| 0 <= p < a ==> #[trigger] v.key_of(p) <= key,
                forall|p: int| b <= p < n ==> #[trigger] v.key_of(p) > key,
            decreases b - a,
        {
            proof {
                self.lemma_linked_view();
                assert(rbshape::node_ok(ns, g, n, cur as int));
                assert(g.contains_key(cur as int));
            }
            let ghost pos = g[cur as int].pos;
            let cur_key = self.keys.get(cur);
            proof {
                assert(v.groups[pos][0] == cur as int);
                assert(cur_key == v.key_of(pos));
            }
            if cur_key > key {
                best = cur;
                cur = self.child(cur, Side::Left);
                proof {
                    b = pos;
                }
            } else {
                cur = self.child(cur, Side::Right);
                proof {
                    a = pos + 1;
                }
            }
        }
        proof {
            v.lemma_upper(key as int, b);
            if best != HEAD {
                assert(g.contains_key(best as int));
            }
        }
        if best == end {
            None
        } else {
            Some(best)
        }
    }

    /// The extreme member on side `s` of the subtree at `this`, which is returned
    /// itself where it stands for an empty subtree.
    fn min_or_max(&self, this: u64, s: Side) -> (r: u64)
        requires
            self.wf(),
            this == HEAD || rbshape::attached(self.g(), this as int),
        ensures
            this == HEAD ==> r == HEAD,
            this != HEAD ==> rbshape::attached(self.g(), r as int) && self.g()[r as int].pos == (match s {
                Side::Left => self.g()[this as int].lo,
                Side::Right => self.g()[this as int].hi - 1,
            }),
    {
        let ghost ns = self.ns();
        let ghost g = self.g();
        let ghost n = self@.groups.len() as int;
        let mut cur = this;
        let mut minmax = cur;
        proof {
            assert(this != HEAD ==> rbshape::node_ok(ns, g, n, this as int));
        }
        while !self.is_nil(cur)
            invariant
                self.wf(),
                ns == self.ns(),
                g == self.g(),
                n == self@.groups.len(),
                ns.contains_key(cur as int),
                this == HEAD ==> cur == HEAD && minmax == HEAD,
                cur == HEAD || rbshape::attached(g, cur as int),
                this != HEAD ==> rbshape::attached(g, this as int) && rbshape::attached(g, minmax as int),
                cur != HEAD && s == Side::Left ==> g[cur as int].lo == g[this as int].lo,
                cur != HEAD && s == Side::Right ==> g[cur as int].hi == g[this as int].hi,
                cur == HEAD && this != HEAD ==> g[minmax as int].pos == (match s {
                    Side::Left => g[this as int].lo,
                    Side::Right => g[this as int].hi - 1,
                }),
            decreases (if cur == HEAD {
                0
            } else {
                g[cur as int].hi - g[cur as int].lo
            }),
        {
            proof {
                assert(rbshape::node_ok(ns, g, n, cur as int));
            }
            minmax = cur;
            cur = self.child(cur, s);
            proof {
                assert(cur != HEAD ==> rbshape::node_ok(ns, g, n, cur as int));
            }
        }
        proof {
            if cur != HEAD {
                assert(rbshape::node_ok(ns, g, n, cur as int));
            }
        }
        minmax
    }

    /// The attached member of the first group.
    pub fn minimum(&self) -> (r: Option<u64>)
        requires
            self.wf(),
        ensures
            (match r {
                Some(m) => Some(m as int),
                None => None,
            }) == self@.rep(0),
    {
        let ghost g = self.g();
        proof {
            assert(rbshape::root_ok(self.ns(), g, self@.groups.len() as int));
        }
        let root = self.root();
        let min = self.min_or_max(root, Side::Left);
        if min == HEAD {
            None
        } else {
            proof {
                assert(g.contains_key(min as int));
            }
            Some(min)
        }
    }

    /// One step from `this` towards side `s`: along its ring, or from the attached
    /// member to the next group of the tree. The sentinel where no group follows.
    fn pred_or_succ(&self, this: u64, s: Side) -> (r: u64)
        requires
            self.wf(),
            self@.keys.contains_key(this as int),
            s == Side::Left ==> self@.beside(this as int, s) is Some,
        ensures
            r as int == (match self@.beside(this as int, s) {
                Some(m) => m,
                None => HEAD as int,
            }),
    {
        let ghost ns = self.ns();
        let ghost g = self.g();
        let ghost v = self@;
        let ghost n = v.groups.len() as int;
        let ghost x = this as int;
        let ghost p = g[x].pos;
        let ghost k = v.groups[p].len() as int;
        let ghost j = match s {
            Side::Left => rbshape::ring_prev(g[x].idx, k),
            Side::Right => rbshape::ring_next(g[x].idx, k),
        };
        proof {
            self.lemma_linked_view();
            assert(g.contains_key(x));
            assert(rbshape::ring_ok(ns, g, v.groups, x));
            assert(g.contains_key(v.groups[p][j]));
            assert(rbshape::ring_ok(ns, g, v.groups, v.groups[p][j]));
        }
        let cur = self.neighbour(this, s);
        let cur_parent = self.parent(cur);
        proof {
            if j == 0 {
                assert(rbshape::attached(g, cur as int));
                assert(rbshape::node_ok(ns, g, n, cur as int));
                assert(cur_parent != HEAD ==> g.contains_key(cur_parent as int));
            }
        }
        if cur_parent == 0 {
            return cur;
        }
        let first_child = self.child(cur, s);
        proof {
            assert(first_child != HEAD ==> rbshape::node_ok(ns, g, n, first_child as int));
        }
        if self.is_nil(first_child) {
            let mut cur = cur;
            let mut xessor = cur_parent;
            while self.parent_side(cur) == s
                invariant
                    self.wf(),
                    ns == self.ns(),
                    g == self.g(),
                    v == self@,
                    n == v.groups.len(),
                    rbshape::attached(g, cur as int),
                    ns.contains_key(cur as int),
                    0 <= p < n,
                    xessor == ns[cur as int].parent,
                    s == Side::Right ==> g[cur as int].hi == p + 1,
                    s == Side::Left ==> g[cur as int].lo == p && p > 0,
                decreases n - (g[cur as int].hi - g[cur as int].lo),
            {
                proof {
                    assert(rbshape::node_ok(ns, g, n, cur as int));
                    assert(rbshape::root_ok(ns, g, n));
                    assert(xessor != HEAD);
                    assert(rbshape::attached(g, xessor as int) && rbshape::node_ok(ns, g, n, xessor as int));
                }
                cur = xessor;
                xessor = self.parent(xessor);
            }
            proof {
                assert(rbshape::node_ok(ns, g, n, cur as int));
                assert(rbshape::root_ok(ns, g, n));
                if xessor != HEAD {
                    assert(rbshape::attached(g, xessor as int) && rbshape::node_ok(ns, g, n, xessor as int));
                    assert(g.contains_key(xessor as int));
                }
            }
            xessor
        } else {
            let o = s.other();
            let mut xessor = first_child;
            let mut next = self.child(xessor, o);
            proof {
                assert(rbshape::node_ok(ns, g, n, xessor as int));
                assert(next != HEAD ==> rbshape::node_ok(ns, g, n, next as int));
            }
            while !self.is_nil(next)
                invariant
                    self.wf(),
                    ns == self.ns(),
                    g == self.g(),
                    v == self@,
                    n == v.groups.len(),
                    rbshape::attached(g, xessor as int),
                    ns.contains_key(next as int),
                    next == ns[xessor as int].child(o),
                    next == HEAD || rbshape::attached(g, next as int),
                    o == s.flip(),
                    s == Side::Right ==> g[xessor as int].lo == p + 1,
                    s == Side::Left ==> g[xessor as int].hi == p,
                decreases g[xessor as int].hi - g[xessor as int].lo,
            {
                proof {
                    assert(rbshape::node_ok(ns, g, n, xessor as int));
                    assert(rbshape::node_ok(ns, g, n, next as int));
                }
                xessor = next;
                next = self.child(xessor, o);
                proof {
                    assert(next != HEAD ==> rbshape::node_ok(ns, g, n, next as int));
                }
            }
            proof {
                assert(rbshape::node_ok(ns, g, n, xessor as int));
                if next != HEAD {
                    assert(rbshape::node_ok(ns, g, n, next as int));
                }
                assert(g.contains_key(xessor as int));
            }
            xessor
        }
    }

    /// The member after `node` in the order of the groups and, within a group, of its
    /// ring.
    pub fn succ(&self, node: u64) -> (r: Option<u64>)
        requires
            self.wf(),
            self@.keys.contains_key(node as int),
        ensures
            (match r {
                Some(m) => Some(m as int),
                None => None,
            }) == self@.beside(node as int, Side::Right),
    {
        proof {
            self.lemma_linked_view();
            let (p, i) = self@.locate(node as int);
            assert(self@.at(node as int, p, i));
            let j = rbshape::ring_next(i, self@.groups[p].len() as int);
            assert(self@.at(self@.groups[p][j], p, j));
            if p + 1 < self@.groups.len() {
                assert(self@.at(self@.groups[p + 1][0], p + 1, 0));
            }
        }
        let r = self.pred_or_succ(node, Side::Right);
        if r == HEAD {
            None
        } else {
            Some(r)
        }
    }

    /// The next member of the group of `node`, the first after the last.
    pub fn next(&self, node: u64) -> (r: u64)
        requires
            self.wf(),
            self@.keys.contains_key(node as int),
        ensures
            r == self@.ring_after(node as int),
            self@.keys.contains_key(r as int),
            self@.keys[r as int] == self@.keys[node as int],
    {
        proof {
            self.lemma_linked_view();
            let x = node as int;
            assert(self.g().contains_key(x));
            assert(rbshape::ring_ok(self.ns(), self.g(), self@.groups, x));
            let (p, i) = self@.locate(x);
            let j = rbshape::ring_next(i, self@.groups[p].len() as int);
            assert(self@.at(self@.groups[p][j], p, j));
        }
        self.neighbour(node, Side::Right)
    }
}

} // verus!
