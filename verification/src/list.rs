//! A circular, doubly linked list of addresses with a sentinel.

use crate::table::Table;
use vstd::prelude::*;

verus! {

/// The address that stands for the sentinel of a list.
pub const SENTINEL: u64 = 0;

/// The two neighbours of a node on the ring.
#[derive(Clone, Copy)]
pub struct ListLink {
    prev: u64,
    next: u64,
}

/// The address at position `i`, the sentinel before the first and after the last.
pub open spec fn ring_at(order: Seq<int>, i: int) -> int {
    if 0 <= i < order.len() {
        order[i]
    } else {
        SENTINEL as int
    }
}

/// A list of distinct addresses, none of them zero.
pub struct IntrusiveList {
    head: ListLink,
    links: Table<ListLink>,
    order: Ghost<Seq<int>>,
}

impl View for IntrusiveList {
    type V = Seq<int>;

    closed spec fn view(&self) -> Seq<int> {
        self.order@
    }
}

impl IntrusiveList {
    spec fn placed(&self, i: int) -> bool {
        let a = self.order@[i];
        &&& SENTINEL < a <= u64::MAX
        &&& self.links@.contains_key(a)
        &&& self.links@[a].prev == ring_at(self.order@, i - 1)
        &&& self.links@[a].next == ring_at(self.order@, i + 1)
    }

    /// Each address of the list occurs once, and its links lead to its neighbours.
    pub closed spec fn wf(&self) -> bool {
        let order = self.order@;
        &&& self.head.next == ring_at(order, 0)
        &&& self.head.prev == ring_at(order, order.len() - 1)
        &&& forall|i: int| 0 <= i < order.len() ==> #[trigger] self.placed(i)
        &&& order.no_duplicates()
        &&& forall|a: int| #[trigger] self.links@.contains_key(a) ==> order.contains(a)
    }

    spec fn link(&self, this: int) -> ListLink {
        if this == SENTINEL {
            self.head
        } else {
            self.links@[this]
        }
    }

    spec fn has(&self, this: int) -> bool {
        this == SENTINEL || self.links@.contains_key(this)
    }

    /// What a well-formed list says of its view.
    pub proof fn lemma_view(&self)
        requires
            self.wf(),
        ensures
            self@.no_duplicates(),
            forall|i: int| 0 <= i < self@.len() ==> SENTINEL < #[trigger] self@[i] <= u64::MAX,
    {
        assert forall|i: int| 0 <= i < self@.len() implies SENTINEL < #[trigger] self@[i] <= u64::MAX by {
            assert(self.placed(i));
        }
    }

    /// A list that holds nothing.
    pub fn new() -> (l: Self)
        ensures
            l.wf(),
            l@ == Seq::<int>::empty(),
    {
        IntrusiveList {
            head: ListLink { prev: SENTINEL, next: SENTINEL },
            links: Table::new(),
            order: Ghost(Seq::empty()),
        }
    }

    fn get(&self, this: u64) -> (l: ListLink)
        requires
            self.has(this as int),
        ensures
            l == self.link(this as int),
    {
        if this == SENTINEL {
            self.head
        } else {
            self.links.get(this)
        }
    }

    fn set_next(&mut self, this: u64, next: u64)
        requires
            old(self).has(this as int),
        ensures
            final(self).order == old(self).order,
            this == SENTINEL ==> final(self).links@ == old(self).links@ && final(self).head == (
            ListLink { next, ..old(self).head }),
            this != SENTINEL ==> final(self).head == old(self).head && final(self).links@
                == old(self).links@.insert(
                this as int,
                ListLink { next, ..old(self).links@[this as int] },
            ),
    {
        let l = self.get(this);
        if this == SENTINEL {
            self.head = ListLink { prev: l.prev, next };
        } else {
            self.links.set(this, ListLink { prev: l.prev, next });
        }
    }

    fn set_prev(&mut self, this: u64, prev: u64)
        requires
            old(self).has(this as int),
        ensures
            final(self).order == old(self).order,
            this == SENTINEL ==> final(self).links@ == old(self).links@ && final(self).head == (
            ListLink { prev, ..old(self).head }),
            this != SENTINEL ==> final(self).head == old(self).head && final(self).links@
                == old(self).links@.insert(
                this as int,
                ListLink { prev, ..old(self).links@[this as int] },
            ),
    {
        let l = self.get(this);
        if this == SENTINEL {
            self.head = ListLink { prev, next: l.next };
        } else {
            self.links.set(this, ListLink { prev, next: l.next });
        }
    }

    /// The address that bounds a walk of the list on both ends.
    pub fn sentinel(&self) -> (r: u64)
        ensures
            r == SENTINEL,
    {
        SENTINEL
    }

    /// The address after `this`, starting and ending with the sentinel.
    pub fn next(&self, this: u64) -> (r: u64)
        requires
            self.wf(),
            this == SENTINEL || self@.contains(this as int),
        ensures
            this == SENTINEL ==> r == ring_at(self@, 0),
            this != SENTINEL ==> r == ring_at(self@, self@.index_of(this as int) + 1),
    {
        proof {
            if this != SENTINEL {
                assert(self.placed(self@.index_of(this as int)));
            }
        }
        self.get(this).next
    }

    /// The address before `this`, starting and ending with the sentinel.
    pub fn prev(&self, this: u64) -> (r: u64)
        requires
            self.wf(),
            this == SENTINEL || self@.contains(this as int),
        ensures
            this == SENTINEL ==> r == ring_at(self@, self@.len() - 1),
            this != SENTINEL ==> r == ring_at(self@, self@.index_of(this as int) - 1),
    {
        proof {
            if this != SENTINEL {
                assert(self.placed(self@.index_of(this as int)));
            }
        }
        self.get(this).prev
    }

    /// Whether `target` is in the list, found by walking it.
    pub fn contains(&self, target: u64) -> (r: bool)
        requires
            self.wf(),
            target != SENTINEL,
        ensures
            r == self@.contains(target as int),
    {
        let sentinel = self.sentinel();
        let mut cur = self.next(sentinel);
        let ghost mut i: int = 0;
        proof {
            self.lemma_view();
        }
        while cur != sentinel
            invariant
                self.wf(),
                sentinel == SENTINEL,
                target != SENTINEL,
                0 <= i <= self@.len(),
                cur == ring_at(self@, i),
                forall|j: int| 0 <= j < i ==> self@[j] != target,
            decreases self@.len() - i,
        {
            proof {
                assert(i < self@.len());
                assert(self@.contains(cur as int));
                assert(self@.index_of(cur as int) == i);
            }
            if cur == target {
                return true;
            }
            cur = self.next(cur);
            proof {
                i = i + 1;
            }
        }
        proof {
            if i < self@.len() {
                assert(self.placed(i));
            }
        }
        false
    }

    /// Whether the list holds nothing.
    pub fn is_empty(&self) -> (r: bool)
        requires
            self.wf(),
        ensures
            r == (self@.len() == 0),
    {
        proof {
            if self@.len() > 0 {
                assert(self.placed(0));
            }
        }
        self.head.next == SENTINEL
    }

    /// Puts `this` on the ring just before `before`.
    fn link_before(&mut self, this: u64, before: u64, Ghost(i): Ghost<int>)
        requires
            old(self).wf(),
            this != SENTINEL,
            !old(self)@.contains(this as int),
            0 <= i <= old(self)@.len(),
            before == ring_at(old(self)@, i),
        ensures
            final(self).wf(),
            final(self)@ == old(self)@.insert(i, this as int),
    {
        let ghost order = self.order@;
        proof {
            if i < order.len() {
                assert(self.placed(i));
            }
            if i > 0 {
                assert(self.placed(i - 1));
            }
        }
        let prev = self.get(before).prev;
        assert(prev == ring_at(order, i - 1));
        self.links.set(this, ListLink { prev, next: before });
        self.set_prev(before, this);
        self.set_next(prev, this);
        proof {
            self.order@ = order.insert(i, this as int);
            let o1 = self.order@;
            let s0 = *old(self);
            assert forall|j: int| 0 <= j < o1.len() implies #[trigger] self.placed(j) by {
                let j0 = if j < i { j } else { j - 1 };
                if j != i {
                    assert(s0.placed(j0));
                    assert(order[j0] == o1[j]);
                    assert(order.contains(order[j0]));
                    assert(i < order.len() && order[j0] == order[i] ==> j0 == i);
                    assert(i > 0 && order[j0] == order[i - 1] ==> j0 == i - 1);
                }
            }
            assert(o1.no_duplicates()) by {
                assert forall|a: int, b: int| 0 <= a < o1.len() && 0 <= b < o1.len() && a != b implies o1[a]
                    != o1[b] by {
                    let a0 = if a < i { a } else { a - 1 };
                    let b0 = if b < i { b } else { b - 1 };
                    if a != i {
                        assert(order[a0] == o1[a] && order.contains(order[a0]));
                    }
                    if b != i {
                        assert(order[b0] == o1[b] && order.contains(order[b0]));
                    }
                }
            }
            assert forall|a: int| #[trigger] self.links@.contains_key(a) implies o1.contains(a) by {
                if a == this {
                    assert(o1[i] == this);
                } else {
                    assert(s0.links@.contains_key(a));
                    let k = order.index_of(a);
                    assert(o1[if k < i { k } else { k + 1 }] == a);
                }
            }
            assert(self.head.next == ring_at(o1, 0));
            assert(self.head.prev == ring_at(o1, o1.len() - 1));
        }
    }

    /// Puts `node` first.
    pub fn push_front(&mut self, node: u64)
        requires
            old(self).wf(),
            node != SENTINEL,
            !old(self)@.contains(node as int),
        ensures
            final(self).wf(),
            final(self)@ == old(self)@.insert(0, node as int),
    {
        let first = self.next(SENTINEL);
        self.link_before(node, first, Ghost(0));
    }

    /// Puts `node` last.
    pub fn push_back(&mut self, node: u64)
        requires
            old(self).wf(),
            node != SENTINEL,
            !old(self)@.contains(node as int),
        ensures
            final(self).wf(),
            final(self)@ == old(self)@.push(node as int),
    {
        let ghost n = self@.len() as int;
        self.link_before(node, SENTINEL, Ghost(n));
        assert(old(self)@.insert(n, node as int) =~= old(self)@.push(node as int));
    }

    /// The first address, if there is one.
    pub fn front(&self) -> (r: Option<u64>)
        requires
            self.wf(),
        ensures
            (match r {
                Some(a) => Some(a as int),
                None => None,
            }) == (if self@.len() > 0 {
                Some(self@[0])
            } else {
                None
            }),
    {
        proof {
            self.lemma_view();
        }
        let first = self.next(SENTINEL);
        if first == SENTINEL {
            None
        } else {
            Some(first)
        }
    }

    /// Takes `node` off the list.
    pub fn unlink_node(&mut self, node: u64)
        requires
            old(self).wf(),
            old(self)@.contains(node as int),
        ensures
            final(self).wf(),
            final(self)@ == old(self)@.remove(old(self)@.index_of(node as int)),
    {
        let ghost order = self.order@;
        let ghost i = order.index_of(node as int);
        proof {
            assert(self.placed(i));
            if i > 0 {
                assert(self.placed(i - 1));
            }
            if i + 1 < order.len() {
                assert(self.placed(i + 1));
            }
        }
        let l = self.get(node);
        let next = l.next;
        let prev = l.prev;
        self.set_prev(next, prev);
        self.set_next(prev, next);
        self.links.remove(node);
        proof {
            self.order@ = order.remove(i);
            let o1 = self.order@;
            let s0 = *old(self);
            assert forall|j: int| 0 <= j < o1.len() implies #[trigger] self.placed(j) by {
                let j0 = if j < i { j } else { j + 1 };
                assert(s0.placed(j0));
                assert(order[j0] == o1[j]);
                assert(order[j0] == order[i] ==> j0 == i);
                assert(i + 1 < order.len() && order[j0] == order[i + 1] ==> j0 == i + 1);
                assert(i > 0 && order[j0] == order[i - 1] ==> j0 == i - 1);
            }
            assert forall|a: int| #[trigger] self.links@.contains_key(a) implies o1.contains(a) by {
                assert(s0.links@.contains_key(a));
                let k = order.index_of(a);
                assert(k != i);
                assert(o1[if k < i { k } else { k - 1 }] == a);
            }
            assert(self.head.next == ring_at(o1, 0));
            assert(self.head.prev == ring_at(o1, o1.len() - 1));
        }
    }
}

} // verus!
