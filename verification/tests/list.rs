//! The circular list of nodes.

use orisnik::list::IntrusiveList;

const A: u64 = 0x1000;
const B: u64 = 0x2000;
const C: u64 = 0x3000;

/// The members from the first to the last.
fn forward(list: &IntrusiveList) -> Vec<u64> {
    let mut seen = Vec::new();
    let mut cur = list.next(list.sentinel());
    while cur != list.sentinel() {
        seen.push(cur);
        cur = list.next(cur);
    }
    seen
}

/// The members from the last to the first.
fn backward(list: &IntrusiveList) -> Vec<u64> {
    let mut seen = Vec::new();
    let mut cur = list.prev(list.sentinel());
    while cur != list.sentinel() {
        seen.push(cur);
        cur = list.prev(cur);
    }
    seen
}

#[test]
fn new_list_is_empty() {
    let list = IntrusiveList::new();
    assert!(list.is_empty());
    assert!(list.front().is_none());
}

#[test]
fn push_front_single_node_becomes_front() {
    let mut list = IntrusiveList::new();
    list.push_front(A);
    assert!(!list.is_empty());
    assert_eq!(list.front(), Some(A));
    list.unlink_node(A);
}

#[test]
fn push_back_orders_after_existing_front() {
    let mut list = IntrusiveList::new();
    list.push_back(A);
    list.push_back(B);
    assert_eq!(list.front(), Some(A));
    list.unlink_node(A);
    list.unlink_node(B);
}

#[test]
fn push_front_orders_before_existing_front() {
    let mut list = IntrusiveList::new();
    list.push_back(A);
    list.push_front(B);
    assert_eq!(list.front(), Some(B));
    list.unlink_node(A);
    list.unlink_node(B);
}

#[test]
fn remove_makes_list_empty_again() {
    let mut list = IntrusiveList::new();
    list.push_front(A);
    list.unlink_node(A);
    assert!(list.is_empty());
    assert!(list.front().is_none());
}

#[test]
fn manual_traversal_visits_all_nodes_in_order() {
    let mut list = IntrusiveList::new();
    let nodes: Vec<u64> = (0..5).map(|v| 0x1000 + v * 16).collect();
    for &n in &nodes {
        list.push_back(n);
    }
    let seen: Vec<u64> = forward(&list).iter().map(|n| (n - 0x1000) / 16).collect();
    assert_eq!(seen, vec![0, 1, 2, 3, 4]);
    for n in nodes {
        list.unlink_node(n);
    }
    assert!(list.is_empty());
}

#[test]
fn interleaved_push_and_remove_matches_expected_front() {
    let mut list = IntrusiveList::new();
    list.push_back(A);
    list.push_back(B);
    list.unlink_node(A);
    assert_eq!(list.front(), Some(B));
    list.push_front(C);
    assert_eq!(list.front(), Some(C));
    list.unlink_node(B);
    list.unlink_node(C);
    assert!(list.is_empty());
}

#[test]
fn both_directions_visit_the_same_members() {
    let mut list = IntrusiveList::new();
    list.push_back(A);
    list.push_back(B);
    list.push_front(C);
    assert_eq!(forward(&list), vec![C, A, B]);
    assert_eq!(backward(&list), vec![B, A, C]);
    list.unlink_node(A);
    assert_eq!(forward(&list), vec![C, B]);
    assert_eq!(backward(&list), vec![B, C]);
}

#[test]
fn membership_follows_links() {
    let mut list = IntrusiveList::new();
    assert!(!list.contains(A));
    list.push_front(A);
    assert!(list.contains(A));
    assert!(!list.contains(B));
    list.unlink_node(A);
    assert!(!list.contains(A));
}

#[test]
fn an_unlinked_node_can_be_linked_again() {
    let mut list = IntrusiveList::new();
    list.push_back(A);
    list.push_back(B);
    list.unlink_node(A);
    list.push_back(A);
    assert_eq!(forward(&list), vec![B, A]);
}
