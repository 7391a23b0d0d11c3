//! Block headers and the order of free blocks.

use orisnik::block::{get_block, ptr_get_block_header, Blocks, HEADER_SIZE};
use orisnik::rbtree::IntrusiveMultiRbTree;

const BASE: u64 = 0x1_0000;

/// Puts an unused header of `size` payload bytes at `this`, with `prev` before it.
fn install_block(blocks: &mut Blocks, this: u64, prev: u64, size: u64) {
    blocks.install(this);
    blocks.set_prev(this, prev);
    blocks.set_size(this, size);
    blocks.set_unused(this);
}

#[test]
fn size_used_roundtrip() {
    let mut blocks = Blocks::new();
    let h = BASE;
    install_block(&mut blocks, h, 0, 64);
    assert_eq!(blocks.size(h), 64);
    assert!(!blocks.used(h));
    blocks.set_used(h);
    assert!(blocks.used(h));
    assert_eq!(blocks.size(h), 64, "flag bit must not corrupt size");
    blocks.set_unused(h);
    assert!(!blocks.used(h));
}

#[test]
fn next_is_computed_from_mem_plus_size() {
    let mut blocks = Blocks::new();
    let h = BASE;
    install_block(&mut blocks, h, 0, 64);
    assert_eq!(blocks.next(h), blocks.mem(h) + 64);
}

#[test]
fn set_next_computes_size_from_target_position() {
    let mut blocks = Blocks::new();
    let h = BASE;
    install_block(&mut blocks, h, 0, 64);
    let target = BASE + 80;
    blocks.set_next(h, target);
    assert_eq!(blocks.next(h), target);
    assert_eq!(blocks.size(h), 80 - HEADER_SIZE);
}

#[test]
fn unlink_grows_predecessor_over_removed_block() {
    let mut blocks = Blocks::new();
    let a = BASE;
    let b = BASE + 48;
    let c = BASE + 96;
    install_block(&mut blocks, a, 0, 48);
    install_block(&mut blocks, b, a, 48);
    install_block(&mut blocks, c, b, 0);
    blocks.set_next(b, c);
    blocks.unlink(b);
    assert_eq!(blocks.next(a), c);
    assert_eq!(blocks.prev(c), a);
}

#[test]
fn link_after_splits_predecessor_span() {
    let mut blocks = Blocks::new();
    let a = BASE;
    let end = BASE + 96;
    install_block(&mut blocks, a, 0, 0);
    install_block(&mut blocks, end, a, 0);
    blocks.set_next(a, end);
    let new_block = BASE + 48;
    blocks.link_after(new_block, a);
    assert_eq!(blocks.next(a), new_block, "a shrank to end at the split point");
    assert_eq!(blocks.prev(new_block), a);
    assert_eq!(
        blocks.next(new_block),
        end,
        "new_block inherited a's old span boundary"
    );
    assert_eq!(blocks.prev(end), new_block);
}

#[test]
fn ptr_get_block_header_roundtrips_with_mem() {
    let mut blocks = Blocks::new();
    let h = BASE;
    install_block(&mut blocks, h, 0, 64);
    assert_eq!(ptr_get_block_header(blocks.mem(h)), h);
}

#[test]
fn free_node_orders_by_owning_block_size() {
    let mut blocks = Blocks::new();
    let sizes = [64u64, 128, 32, 96];
    let mut headers = Vec::new();
    let mut offset = 0;
    for &size in &sizes {
        let h = BASE + offset;
        install_block(&mut blocks, h, 0, size);
        headers.push(h);
        offset += 200;
    }

    let mut tree = IntrusiveMultiRbTree::new();
    for &h in &headers {
        tree.insert(blocks.mem(h), blocks.size(h));
    }

    let smallest = tree.minimum().expect("tree is non-empty");
    assert_eq!(blocks.size(get_block(smallest)), 32);

    let found = tree.lower_bound(96).expect("a block of size >= 96 exists");
    assert_eq!(blocks.size(get_block(found)), 96);

    for &h in &headers {
        tree.erase(blocks.mem(h));
    }
    assert!(tree.is_empty());
}

#[test]
fn unlinking_a_linked_block_restores_the_span() {
    let mut blocks = Blocks::new();
    let a = BASE;
    let end = BASE + 160;
    install_block(&mut blocks, a, 0, 144);
    install_block(&mut blocks, end, a, 0);
    let mid = BASE + 64;
    blocks.link_after(mid, a);
    assert_eq!(blocks.size(a), 48);
    assert_eq!(blocks.size(mid), 80);
    blocks.unlink(mid);
    assert_eq!(blocks.size(a), 144);
    assert_eq!(blocks.prev(end), a);
}

#[test]
fn a_discarded_header_is_gone() {
    let mut blocks = Blocks::new();
    assert!(!blocks.contains(BASE));
    blocks.install(BASE);
    assert!(blocks.contains(BASE));
    blocks.discard(BASE);
    assert!(!blocks.contains(BASE));
}
