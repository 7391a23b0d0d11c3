//! The large-block path: best fit over free blocks.

use orisnik::os::{Os, PAGE_SIZE};
use orisnik::page::MAX_SMALL_ALLOCATION;
use orisnik::tree::{normalize_size, Relocation, Tree};
use orisnik::tree_model::MAX_ALLOCATION;
use std::collections::HashMap;

const BASE: u64 = 0x10_0000;

/// The large-block path on a region of its own, with the bytes. The system maps nothing
/// unless told to.
struct Large {
    tree: Tree,
    os: Os,
    next: u64,
    bytes: HashMap<u64, u8>,
}

impl Large {
    fn new() -> Self {
        Large { tree: Tree::new(), os: Os::new(), next: 0x100_0000, bytes: HashMap::new() }
    }

    /// With one free block over `size` bytes that no system gave.
    fn seeded(size: u64) -> Self {
        let mut l = Large::new();
        let front = l.tree.add_block(BASE, size);
        l.tree.attach(Some(front));
        l
    }

    fn obtain(&mut self, size: u64) -> Option<u64> {
        self.tree.alloc_bytes(&mut self.os, size)
    }

    fn alloc_aligned(&mut self, size: u64, alignment: u64) -> Option<u64> {
        self.tree.alloc_aligned(&mut self.os, size, alignment)
    }

    fn realloc(&mut self, ptr: u64, size: u64) -> Option<u64> {
        let r = self.tree.realloc(&mut self.os, ptr, size);
        self.moved(ptr, r)
    }

    fn realloc_aligned(&mut self, ptr: u64, size: u64, alignment: u64) -> Option<u64> {
        let r = self.tree.realloc_aligned(&mut self.os, ptr, size, alignment);
        self.moved(ptr, r)
    }

    /// Moves the bytes as `r` says.
    fn moved(&mut self, from: u64, r: Option<Relocation>) -> Option<u64> {
        let Relocation { ptr, copied } = r?;
        let bytes: Vec<Option<u8>> =
            (0..copied).map(|i| self.bytes.get(&(from + i)).copied()).collect();
        for (i, b) in bytes.into_iter().enumerate() {
            if let Some(b) = b {
                self.bytes.insert(ptr + i as u64, b);
            }
        }
        Some(ptr)
    }

    fn write(&mut self, ptr: u64, byte: u8, len: u64) {
        for i in 0..len {
            self.bytes.insert(ptr + i, byte);
        }
    }

    fn holds(&self, ptr: u64, byte: u8, len: u64) -> bool {
        (0..len).all(|i| self.bytes.get(&(ptr + i)) == Some(&byte))
    }

    /// Maps what was asked for.
    fn feed(&mut self) {
        let size = self.os.take_wanted().expect("something was asked for");
        let base = self.next;
        self.next += 2 * size;
        assert!(self.os.grant(base, size));
    }
}

#[test]
fn seeded_alloc_serves_without_touching_the_os() {
    let mut l = Large::seeded(4096);
    let ptr = l.obtain(64).expect("seeded arena has room");
    assert_eq!(l.tree.allocated(), 0, "must not have mapped anything");
    l.write(ptr, 0xAB, 64);
    assert!(l.tree.size(ptr) >= 64);
}

#[test]
fn alloc_splits_remainder_which_stays_available() {
    let mut l = Large::seeded(4096);
    let a = l.obtain(64).expect("seeded arena has room");
    let b = l.obtain(64).expect("split remainder must be available");
    assert_ne!(a, b);
    assert_eq!(l.tree.allocated(), 0, "must not have mapped anything");
}

#[test]
fn free_then_alloc_same_size_reuses_mr_cached_block() {
    let mut l = Large::seeded(4096);
    let a = l.obtain(64).expect("seeded arena has room");
    l.tree.free(a);
    let b = l.obtain(64).expect("freed block must be reusable");
    assert_eq!(a, b);
}

#[test]
fn free_coalesces_adjacent_blocks_enabling_a_larger_alloc() {
    let mut l = Large::seeded(4096);
    let a = l.obtain(64).expect("seeded arena has room");
    let b = l.obtain(64).expect("seeded arena has room");
    let c = l.obtain(64).expect("seeded arena has room");
    l.tree.free(b);
    l.tree.free(a);
    let combined = l.obtain(64 + 64 + 32).expect("coalesced span must fit this");
    assert_eq!(l.tree.allocated(), 0, "must not have mapped anything");
    l.tree.free(c);
    l.tree.free(combined);
}

#[test]
fn small_and_large_free_blocks_are_both_retrievable_past_the_mr_cache() {
    let mut l = Large::seeded(8192);
    let small = l.obtain(64).expect("seeded arena has room");
    let large = l.obtain(MAX_SMALL_ALLOCATION + 64).expect("seeded arena has room");
    let spacer = l.obtain(64).expect("seeded arena has room");
    l.tree.free(small);
    l.tree.free(large);
    let small_again = l.obtain(64).expect("small_free_list entry must be reusable");
    l.tree.free(spacer);
    let large_again =
        l.obtain(MAX_SMALL_ALLOCATION + 64).expect("free_tree entry must be reusable");
    assert_eq!(l.tree.allocated(), 0, "must not have mapped anything");
    l.tree.free(small_again);
    l.tree.free(large_again);
}

#[test]
fn alloc_aligned_respects_every_requested_alignment() {
    let mut l = Large::seeded(8192);
    for &alignment in &[16u64, 32, 64, 128, 256] {
        let ptr = l.alloc_aligned(48, alignment).expect("seeded arena has room");
        assert_eq!(ptr % alignment, 0, "misaligned for requested alignment {alignment}");
        l.tree.free(ptr);
    }
    assert_eq!(l.tree.allocated(), 0, "must not have mapped anything");
}

#[test]
fn realloc_shrink_splits_off_a_reusable_remainder() {
    let mut l = Large::seeded(4096);
    let a = l.obtain(512).expect("seeded arena has room");
    l.write(a, 0xCD, 512);
    let shrunk = l.realloc(a, 64).expect("shrinking never fails");
    assert_eq!(shrunk, a, "shrinking must not move the block");
    let reused = l.obtain(128).expect("split remainder must be available");
    assert_eq!(l.tree.allocated(), 0, "must not have mapped anything");
    l.tree.free(shrunk);
    l.tree.free(reused);
}

#[test]
fn realloc_grows_in_place_over_a_following_free_block() {
    let mut l = Large::seeded(4096);
    let a = l.obtain(64).expect("seeded arena has room");
    l.write(a, 0xEF, 64);
    let grown = l.realloc(a, 512).expect("must grow into the free remainder");
    assert_eq!(grown, a, "growing into a following free block must not move it");
    assert_eq!(l.tree.allocated(), 0, "must not have mapped anything");
    assert!(l.holds(grown, 0xEF, 64));
    l.tree.free(grown);
}

#[test]
fn realloc_falls_back_to_alloc_copy_free_when_boxed_in() {
    let mut l = Large::seeded(4096);
    let a = l.obtain(64).expect("seeded arena has room");
    l.write(a, 0x11, 64);
    let b = l.obtain(64).expect("seeded arena has room");
    let moved = l.realloc(a, 512).expect("falls back to a fresh allocation");
    assert_ne!(moved, a, "boxed-in growth must relocate");
    assert_eq!(l.tree.allocated(), 0, "must not have mapped anything");
    assert!(l.holds(moved, 0x11, 64));
    l.tree.free(moved);
    l.tree.free(b);
}

#[test]
fn resize_reports_grown_size_without_moving() {
    let mut l = Large::seeded(4096);
    let a = l.obtain(64).expect("seeded arena has room");
    let new_size = l.tree.resize(a, 512);
    assert!(new_size >= 512);
    l.write(a, 0x22, 512);
    assert_eq!(l.tree.size(a), new_size);
    assert_eq!(l.tree.allocated(), 0, "must not have mapped anything");
    l.tree.free(a);
}

#[test]
fn resize_reports_unchanged_size_when_it_cannot_grow() {
    let mut l = Large::seeded(4096);
    let a = l.obtain(64).expect("seeded arena has room");
    let original_size = l.tree.resize(a, 64);
    let _b = l.obtain(64).expect("seeded arena has room");
    let after = l.tree.resize(a, 4096);
    assert_eq!(
        after, original_size,
        "boxed-in resize must report the unchanged size, never fail or move"
    );
    l.tree.free(a);
}

#[test]
fn tree_alloc_free_purge_returns_memory_to_os() {
    let mut l = Large::new();
    assert_eq!(l.obtain(64), None);
    l.feed();
    let a = l.obtain(64).expect("mapped");
    assert!(l.tree.allocated() > 0);
    l.tree.free(a);
    l.tree.purge(&mut l.os);
    assert_eq!(
        l.tree.allocated(),
        0,
        "a freshly-grown, now fully-free arena must be fully reclaimed"
    );
    assert_eq!(l.os.take_released().len(), 1);
}

#[test]
fn sizes_are_rounded_to_blocks() {
    assert_eq!(normalize_size(1), Some(48));
    assert_eq!(normalize_size(48), Some(48));
    assert_eq!(normalize_size(49), Some(64));
    assert_eq!(normalize_size(257), Some(272));
    assert_eq!(normalize_size(MAX_ALLOCATION + 1), None);
    assert_eq!(normalize_size(u64::MAX), None);
}

#[test]
fn oversized_requests_are_declined() {
    let mut l = Large::new();
    assert_eq!(l.obtain(MAX_ALLOCATION + 1), None);
    assert_eq!(l.os.take_wanted(), None);
    assert_eq!(l.alloc_aligned(1 << 63, 1 << 63), None);
    assert_eq!(l.os.take_wanted(), None);
}

#[test]
fn the_best_fit_is_the_smallest_block_that_is_large_enough() {
    let mut l = Large::seeded(16384);
    let sizes = [800u64, 480, 640];
    let mut holes = Vec::new();
    for s in sizes {
        holes.push(l.obtain(s).expect("room"));
        l.obtain(64).expect("room");
    }
    let last = l.obtain(64).expect("room");
    l.obtain(64).expect("room");
    for &h in &holes {
        l.tree.free(h);
    }
    l.tree.free(last);
    assert_eq!(l.obtain(600), Some(holes[2]));
    assert_eq!(l.obtain(470), Some(holes[1]));
    assert_eq!(l.obtain(700), Some(holes[0]));
}

#[test]
fn growth_takes_the_free_block_before_when_only_both_are_enough() {
    let mut l = Large::seeded(4096);
    let a = l.obtain(256).expect("room");
    let b = l.obtain(256).expect("room");
    let c = l.obtain(64).expect("room");
    l.write(b, 0x77, 256);
    l.tree.free(a);
    let grown = l.realloc(b, 480).expect("the two blocks are enough");
    assert_eq!(grown, a);
    assert!(l.holds(grown, 0x77, 256));
    assert!(l.tree.size(grown) >= 480);
    assert!(!l.tree.is_live(b));
    assert!(l.tree.is_live(c));
}

#[test]
fn realloc_aligned_keeps_the_alignment() {
    let mut l = Large::seeded(65536);
    let a = l.alloc_aligned(300, 512).expect("room");
    l.write(a, 0x3C, 300);
    let _fence = l.obtain(64).expect("room");
    for size in [400, 3000, 9000] {
        let p = if size == 400 { a } else { *l.bytes.keys().min().expect("written") };
        assert_eq!(p % 512, 0);
        let q = l.realloc_aligned(p, size, 512).expect("room");
        assert_eq!(q % 512, 0);
        assert!(l.holds(q, 0x3C, 300));
        l.bytes.retain(|&x, _| x >= q && x < q + 300);
    }
}

#[test]
fn a_refused_mapping_leaves_the_payload_alone() {
    let mut l = Large::seeded(1024);
    let a = l.obtain(500).expect("room");
    assert_eq!(l.realloc(a, 5000), None);
    assert!(l.tree.is_live(a));
    assert!(l.tree.size(a) >= 500);
    assert_eq!(l.os.take_wanted(), Some(PAGE_SIZE));
    assert_eq!(l.obtain(5000), None);
    assert_eq!(l.os.take_wanted(), Some(PAGE_SIZE));
}

#[test]
fn purge_keeps_arenas_with_live_payloads() {
    let mut l = Large::new();
    assert_eq!(l.obtain(60000), None);
    l.feed();
    let a = l.obtain(60000).expect("mapped");
    assert_eq!(l.obtain(60000), None);
    l.feed();
    let b = l.obtain(60000).expect("mapped");
    assert_eq!(l.tree.allocated(), 2 * PAGE_SIZE);
    l.tree.free(a);
    l.tree.purge(&mut l.os);
    assert_eq!(l.tree.allocated(), PAGE_SIZE);
    assert!(l.tree.is_live(b));
    l.tree.free(b);
    l.tree.purge(&mut l.os);
    assert_eq!(l.tree.allocated(), 0);
    assert_eq!(l.os.take_released().len(), 2);
}

#[test]
fn the_best_aligned_fit_is_the_smallest_block_with_room() {
    let mut l = Large::seeded(32768);
    let sizes = [1600u64, 800, 1200];
    let mut holes = Vec::new();
    for s in sizes {
        holes.push(l.alloc_aligned(s, 512).expect("room"));
        l.obtain(64).expect("room");
    }
    let last = l.obtain(64).expect("room");
    l.obtain(64).expect("room");
    for &h in &holes {
        l.tree.free(h);
    }
    l.tree.free(last);
    let first = l.alloc_aligned(1100, 512).expect("room");
    assert_eq!(first % 512, 0);
    assert_eq!(first, holes[2]);
    assert_eq!(l.alloc_aligned(700, 512), Some(holes[1]));
    assert_eq!(l.alloc_aligned(1500, 512), Some(holes[0]));
}

#[test]
fn a_size_of_zero_leaves_the_block_alone() {
    let mut l = Large::seeded(4096);
    let a = l.obtain(512).expect("room");
    assert_eq!(l.tree.resize(a, 0), 512);
    assert_eq!(l.tree.size(a), 512);
}
