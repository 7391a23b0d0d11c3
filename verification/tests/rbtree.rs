//! The red-black tree with chains of equal keys.

use orisnik::rbshape::{Side, HEAD};
use orisnik::rbtree::IntrusiveMultiRbTree;
use std::collections::{BTreeMap, HashMap};

/// The address of the node number `id`.
fn node(id: u64) -> u64 {
    0x1000 + id * 64
}

/// A tree, and the key of each node in it.
struct Keyed {
    tree: IntrusiveMultiRbTree,
    keys: HashMap<u64, u64>,
}

impl Keyed {
    fn new() -> Self {
        Keyed { tree: IntrusiveMultiRbTree::new(), keys: HashMap::new() }
    }

    fn insert(&mut self, n: u64, key: u64) {
        self.tree.insert(n, key);
        self.keys.insert(n, key);
    }

    fn erase(&mut self, n: u64) {
        self.tree.erase(n);
        self.keys.remove(&n);
    }

    fn key_of(&self, n: u64) -> u64 {
        self.keys[&n]
    }

    /// All members in the order of `succ`.
    fn walk(&self) -> Vec<u64> {
        let mut seen = Vec::new();
        let mut cur = self.tree.minimum();
        while let Some(n) = cur {
            seen.push(n);
            cur = self.tree.succ(n);
        }
        seen
    }

    /// No red node with a red child, equal black heights, keys between their ancestors'.
    fn check_invariants(&self) {
        assert!(!self.tree.red(HEAD), "sentinel must be black");
        let root = self.tree.root();
        if root == HEAD {
            return;
        }
        assert!(!self.tree.red(root), "root must be black");
        self.check_node(root, u64::MIN, u64::MAX);
    }

    fn check_node(&self, n: u64, lo: u64, hi: u64) -> u32 {
        if self.tree.is_nil(n) {
            return 0;
        }
        let key = self.key_of(n);
        assert!(key >= lo, "order violated (lo bound)");
        assert!(key <= hi, "order violated (hi bound)");
        let red = self.tree.red(n);
        let left = self.tree.child(n, Side::Left);
        let right = self.tree.child(n, Side::Right);
        if red {
            assert!(!self.tree.red(left), "red node has a red child");
            assert!(!self.tree.red(right), "red node has a red child");
        }
        let left_h = self.check_node(left, lo, key);
        let right_h = self.check_node(right, key, hi);
        assert_eq!(left_h, right_h, "unequal black-height across children");
        left_h + u32::from(!red)
    }
}

/// A xorshift generator.
struct Xorshift(u32);

impl Xorshift {
    fn next(&mut self) -> u32 {
        self.0 ^= self.0 << 13;
        self.0 ^= self.0 >> 17;
        self.0 ^= self.0 << 5;
        self.0
    }
}

#[test]
fn new_tree_is_empty() {
    let tree = IntrusiveMultiRbTree::new();
    assert!(tree.is_empty());
    assert!(tree.minimum().is_none());
    assert!(tree.lower_bound(0).is_none());
}

#[test]
fn single_insert_is_findable() {
    let mut t = Keyed::new();
    let a = node(0);
    t.insert(a, 5);
    assert!(!t.tree.is_empty());
    assert_eq!(t.tree.minimum(), Some(a));
    assert_eq!(t.tree.lower_bound(5), Some(a));
    t.check_invariants();
    t.erase(a);
    assert!(t.tree.is_empty());
}

#[test]
fn ascending_insert_stress_maintains_invariants() {
    let mut t = Keyed::new();
    for k in 0..200 {
        t.insert(node(k), k);
        t.check_invariants();
    }
    assert_eq!(t.tree.minimum().map(|n| t.key_of(n)), Some(0));
    for k in 0..200 {
        t.erase(node(k));
        t.check_invariants();
    }
    assert!(t.tree.is_empty());
}

#[test]
fn descending_insert_stress_maintains_invariants() {
    let mut t = Keyed::new();
    for k in (0..200).rev() {
        t.insert(node(k), k);
        t.check_invariants();
    }
    for k in (0..200).rev() {
        t.erase(node(k));
        t.check_invariants();
    }
    assert!(t.tree.is_empty());
}

#[test]
fn pseudo_random_insert_erase_stress_matches_btreemap() {
    let mut rng = Xorshift(0x1234_5678);
    let mut t = Keyed::new();
    let mut oracle: BTreeMap<u64, Vec<u64>> = BTreeMap::new();
    let mut live: Vec<u64> = Vec::new();

    for step in 0..3000u64 {
        let key = u64::from(rng.next() % 32);
        let insert = live.is_empty() || rng.next() % 3 != 0;
        if insert {
            let n = node(step);
            t.insert(n, key);
            oracle.entry(key).or_default().push(n);
            live.push(n);
        } else {
            let idx = (rng.next() as usize) % live.len();
            let n = live.swap_remove(idx);
            let k = t.key_of(n);
            t.erase(n);
            let bucket = oracle.get_mut(&k).expect("key present in oracle");
            let pos = bucket.iter().position(|&x| x == n).expect("node in bucket");
            bucket.remove(pos);
            if bucket.is_empty() {
                oracle.remove(&k);
            }
        }
        t.check_invariants();
        assert_eq!(
            t.tree.minimum().map(|n| t.key_of(n)),
            oracle.keys().next().copied(),
            "minimum mismatch at step {step}"
        );
    }
    for n in live {
        t.erase(n);
    }
    assert!(t.tree.is_empty());
}

#[test]
fn duplicate_keys_chain_and_all_erase_cleanly() {
    let mut t = Keyed::new();
    let (a, b, c) = (node(0), node(1), node(2));
    t.insert(a, 7);
    t.insert(b, 7);
    t.insert(c, 7);
    t.check_invariants();
    let found = t.tree.lower_bound(7).expect("key 7 present");
    assert_eq!(t.key_of(found), 7);
    t.erase(a);
    t.check_invariants();
    assert_eq!(t.tree.lower_bound(7).map(|n| t.key_of(n)), Some(7));
    t.erase(b);
    t.check_invariants();
    assert_eq!(t.tree.lower_bound(7).map(|n| t.key_of(n)), Some(7));
    t.erase(c);
    t.check_invariants();
    assert!(t.tree.lower_bound(7).is_none());
    assert!(t.tree.is_empty());
}

#[test]
fn lower_and_upper_bound_semantics() {
    let mut t = Keyed::new();
    for (i, k) in [10, 20, 20, 30].into_iter().enumerate() {
        t.insert(node(i as u64), k);
    }
    assert_eq!(t.tree.lower_bound(15).map(|n| t.key_of(n)), Some(20));
    assert_eq!(t.tree.lower_bound(20).map(|n| t.key_of(n)), Some(20));
    assert_eq!(t.tree.upper_bound(20).map(|n| t.key_of(n)), Some(30));
    assert!(t.tree.upper_bound(30).is_none());
    assert!(t.tree.lower_bound(31).is_none());
    for i in 0..4 {
        t.erase(node(i));
    }
    assert!(t.tree.is_empty());
}

#[test]
fn succ_walks_duplicates_then_tree_order() {
    let mut t = Keyed::new();
    let (ten_a, ten_b, twenty) = (node(0), node(1), node(2));
    t.insert(ten_a, 10);
    t.insert(ten_b, 10);
    t.insert(twenty, 20);
    let first_ten = t.tree.lower_bound(10).expect("key 10 present");
    let after_first = t.tree.succ(first_ten).expect("has a successor");
    assert_eq!(t.key_of(after_first), 10);
    let after_second = t.tree.succ(after_first).expect("has a successor");
    assert_eq!(t.key_of(after_second), 20);
    assert!(t.tree.succ(after_second).is_none());
    t.erase(ten_a);
    t.erase(ten_b);
    t.erase(twenty);
    assert!(t.tree.is_empty());
}

#[test]
fn next_walks_equal_key_chain_and_wraps() {
    let mut t = Keyed::new();
    let single = node(0);
    t.insert(single, 5);
    assert_eq!(t.tree.next(single), single);

    let (ten_a, ten_b, ten_c) = (node(1), node(2), node(3));
    t.insert(ten_a, 10);
    t.insert(ten_b, 10);
    t.insert(ten_c, 10);
    let step1 = t.tree.next(ten_a);
    let step2 = t.tree.next(step1);
    let step3 = t.tree.next(step2);
    assert_eq!(step3, ten_a);
    let visited = [ten_a, step1, step2];
    assert!(visited.contains(&ten_b));
    assert!(visited.contains(&ten_c));

    t.erase(single);
    t.erase(ten_a);
    t.erase(ten_b);
    t.erase(ten_c);
    assert!(t.tree.is_empty());
}

#[test]
fn erasing_what_was_inserted_last_restores_the_order() {
    let mut t = Keyed::new();
    for (i, k) in [40, 10, 30, 10, 20].into_iter().enumerate() {
        t.insert(node(i as u64), k);
    }
    let before = t.walk();
    for k in [5, 10, 25, 50] {
        t.insert(node(9), k);
        assert_eq!(t.walk().len(), 6);
        t.erase(node(9));
        assert_eq!(t.walk(), before);
    }
}

#[test]
fn the_walk_is_sorted_and_equal_keys_keep_their_arrival() {
    let mut t = Keyed::new();
    for (i, k) in [20, 10, 20, 10, 20].into_iter().enumerate() {
        t.insert(node(i as u64), k);
    }
    assert_eq!(t.walk(), vec![node(1), node(3), node(0), node(2), node(4)]);
    t.erase(node(0));
    assert_eq!(t.walk(), vec![node(1), node(3), node(2), node(4)]);
}
