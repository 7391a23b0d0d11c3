//! The small-block path: pages of equal slots.

use orisnik::bucket::{Bucket, Buckets};
use orisnik::os::{Os, PAGE_SIZE};
use orisnik::page::{
    bucket_spacing_function, bucket_spacing_function_aligned, bucket_spacing_function_inverse,
    clamp_small_allocation, is_small_allocation, ptr_get_page, Pages, MAX_SMALL_ALLOCATION,
    MIN_ALLOCATION, NUM_BUCKETS, RECORD_SIZE, USABLE,
};
use orisnik::tree::Relocation;
use std::collections::HashMap;

const BASE: u64 = 0x10_0000;

/// The small-block path on a system that maps every page it asks for, with the bytes.
struct Small {
    buckets: Buckets,
    os: Os,
    next: u64,
    bytes: HashMap<u64, u8>,
}

impl Small {
    fn new() -> Self {
        Small { buckets: Buckets::new(), os: Os::new(), next: BASE, bytes: HashMap::new() }
    }

    /// Maps what was asked for, if anything was.
    fn feed(&mut self) -> bool {
        match self.os.take_wanted() {
            Some(size) => {
                let base = self.next;
                self.next += 2 * size;
                self.os.grant(base, size)
            }
            None => false,
        }
    }

    fn alloc_direct(&mut self, bi: u64) -> u64 {
        loop {
            if let Some(p) = self.buckets.alloc_direct(&mut self.os, bi) {
                return p;
            }
            assert!(self.feed());
        }
    }

    fn obtain(&mut self, size: u64) -> u64 {
        loop {
            if let Some(p) = self.buckets.alloc_bytes(&mut self.os, size) {
                return p;
            }
            assert!(self.feed());
        }
    }

    fn realloc(&mut self, ptr: u64, size: u64) -> u64 {
        loop {
            if let Some(Relocation { ptr: to, copied }) =
                self.buckets.realloc(&mut self.os, ptr, size)
            {
                for i in 0..copied {
                    let b = self.bytes.get(&(ptr + i)).copied().unwrap_or(0);
                    self.bytes.insert(to + i, b);
                }
                return to;
            }
            assert!(self.feed());
        }
    }

    fn purge(&mut self) -> usize {
        self.buckets.purge(&mut self.os);
        self.os.take_released().len()
    }
}

#[test]
fn bucket_spacing_round_trips_every_class() {
    for bi in 0..NUM_BUCKETS {
        let size = bucket_spacing_function_inverse(bi);
        assert_eq!(bucket_spacing_function_aligned(size), bi);
        assert_eq!(bucket_spacing_function(size), bi);
        if bi + 1 < NUM_BUCKETS {
            assert_eq!(bucket_spacing_function(size + 1), bi + 1);
        }
    }
    assert_eq!(bucket_spacing_function_inverse(0), MIN_ALLOCATION);
    assert_eq!(bucket_spacing_function_inverse(NUM_BUCKETS - 1), MAX_SMALL_ALLOCATION);
}

#[test]
fn clamp_and_is_small_allocation() {
    assert_eq!(clamp_small_allocation(1), MIN_ALLOCATION);
    assert_eq!(clamp_small_allocation(MIN_ALLOCATION), MIN_ALLOCATION);
    assert_eq!(clamp_small_allocation(MIN_ALLOCATION + 1), MIN_ALLOCATION + 1);
    assert!(is_small_allocation(MAX_SMALL_ALLOCATION));
    assert!(!is_small_allocation(MAX_SMALL_ALLOCATION + 1));
}

#[test]
fn init_page_at_threads_free_list_and_computes_slot_count() {
    let mut pages = Pages::new();
    let elem_size = 32;
    let page = pages.init_page_at(BASE, elem_size, 0xDEAD_BEEF);
    assert_eq!(pages.elem_size(page), elem_size);
    assert!(pages.is_empty(page));
    assert!(!pages.is_full(page));

    let mut cur = pages.free_list(page);
    let mut count = 0;
    while cur != 0 {
        count += 1;
        cur = pages.next_free(cur);
    }
    let expected = (PAGE_SIZE - RECORD_SIZE) / elem_size;
    assert_eq!(count, expected);
    assert!(pages.check_marker(page, 0xDEAD_BEEF));
    assert!(!pages.check_marker(page, 0xCAFE_BABE));
}

#[test]
fn bucket_alloc_free_cycle_updates_free_list_and_use_count() {
    let mut pages = Pages::new();
    let page = pages.init_page_at(BASE, 16, 0);
    let mut bucket = Bucket::new(0);
    bucket.add_free_page(page);

    let a = bucket.alloc_slot(&mut pages, page);
    assert_eq!(pages.use_count(page), 1);
    let b = bucket.alloc_slot(&mut pages, page);
    assert_ne!(a, b);
    assert_eq!(pages.use_count(page), 2);

    bucket.free(&mut pages, page, a);
    assert_eq!(pages.use_count(page), 1);

    bucket.free(&mut pages, page, b);
    assert!(pages.is_empty(page));
}

#[test]
fn bucket_alloc_sorts_full_page_behind_partial_page() {
    let mut pages = Pages::new();
    let elem_size = MAX_SMALL_ALLOCATION;
    let big_elem_size = MIN_ALLOCATION;
    let full_page = pages.init_page_at(BASE, elem_size, 0);
    let roomy_page = pages.init_page_at(BASE + PAGE_SIZE, big_elem_size, 0);
    let mut bucket = Bucket::new(0);
    bucket.add_free_page(full_page);
    bucket.add_free_page(roomy_page);
    assert_eq!(bucket.get_free_page(&pages), Some(roomy_page));

    let slots = (PAGE_SIZE - RECORD_SIZE) / elem_size;
    for _ in 0..slots {
        let _ = bucket.alloc_slot(&mut pages, full_page);
    }
    assert_eq!(bucket.get_free_page(&pages), Some(roomy_page));
}

#[test]
fn buckets_alloc_direct_grows_and_serves_from_same_page() {
    let mut s = Small::new();
    let bi = bucket_spacing_function(24);
    let a = s.alloc_direct(bi);
    let b = s.alloc_direct(bi);
    assert_ne!(a, b);
    assert_eq!(ptr_get_page(a), ptr_get_page(b));
    s.buckets.free_direct(a, bi);
    s.buckets.free_direct(b, bi);
    s.purge();
    assert_eq!(s.buckets.allocated(), 0);
}

#[test]
fn buckets_free_recovers_bucket_index_from_page() {
    let mut s = Small::new();
    let ptr = s.obtain(40);
    assert!(s.buckets.ptr_in_bucket(ptr));
    s.buckets.free(ptr);
    s.purge();
    assert_eq!(s.buckets.allocated(), 0);
}

#[test]
fn buckets_realloc_grows_in_place_within_same_class() {
    let mut s = Small::new();
    let ptr = s.obtain(8);
    let grown = s.realloc(ptr, 8);
    assert_eq!(ptr, grown, "growing within the same elem_size stays in place");
    s.buckets.free(grown);
    s.purge();
    assert_eq!(s.buckets.allocated(), 0);
}

#[test]
fn buckets_realloc_moves_to_larger_class_and_copies() {
    let mut s = Small::new();
    let ptr = s.obtain(8);
    for i in 0..8 {
        s.bytes.insert(ptr + i, 0xAB);
    }
    let grown = s.realloc(ptr, 200);
    assert_ne!(ptr, grown, "200 bytes needs a different size class");
    assert!(
        (0..8).all(|i| s.bytes.get(&(grown + i)) == Some(&0xAB)),
        "realloc must preserve payload bytes"
    );
    assert!(!s.buckets.is_live(ptr));
    s.buckets.free(grown);
    s.purge();
    assert_eq!(s.buckets.allocated(), 0);
}

#[test]
fn buckets_purge_returns_fully_empty_pages_only() {
    let mut s = Small::new();
    let bi = bucket_spacing_function(16);
    let a = s.alloc_direct(bi);
    let b = s.alloc_direct(bi);
    let before = s.buckets.allocated();
    assert!(before > 0);
    s.buckets.free_direct(a, bi);
    assert_eq!(s.purge(), 0);
    assert_eq!(
        s.buckets.allocated(),
        before,
        "page with a live slot must survive purge"
    );
    s.buckets.free_direct(b, bi);
    assert_eq!(s.purge(), 1);
    assert_eq!(s.buckets.allocated(), 0, "fully-empty page must be reclaimed");
}

#[test]
fn buckets_purge_reclaims_an_empty_page_behind_a_partial_one() {
    let mut s = Small::new();
    let elem_size = MAX_SMALL_ALLOCATION;
    let bi = bucket_spacing_function(elem_size);
    let slots = (PAGE_SIZE - RECORD_SIZE) / elem_size;

    let mut page_a: Vec<u64> = Vec::new();
    for _ in 0..slots {
        page_a.push(s.alloc_direct(bi));
    }
    let b_slot = s.alloc_direct(bi);
    assert_eq!(s.buckets.allocated(), 2 * PAGE_SIZE, "expected exactly two pages");

    let a_slot = page_a.pop().expect("page A has slots");
    s.buckets.free_direct(a_slot, bi);
    s.buckets.free_direct(b_slot, bi);

    s.purge();
    assert_eq!(
        s.buckets.allocated(),
        PAGE_SIZE,
        "the empty page behind a partially-used one must still be reclaimed"
    );

    for slot in page_a {
        s.buckets.free_direct(slot, bi);
    }
    s.purge();
    assert_eq!(s.buckets.allocated(), 0);
}

#[test]
fn a_refused_page_leaves_everything_as_it_was() {
    let mut s = Small::new();
    assert_eq!(s.buckets.alloc_bytes(&mut s.os, 40), None);
    assert_eq!(s.buckets.allocated(), 0);
    assert_eq!(s.os.take_wanted(), Some(PAGE_SIZE));
    let p = s.obtain(40);
    assert_eq!(s.buckets.realloc(&mut s.os, p, 48), None);
    assert!(s.buckets.is_live(p));
    assert_eq!(s.buckets.size(p), 40);
}

#[test]
fn a_page_serves_its_slots_once_each_and_in_order() {
    let mut pages = Pages::new();
    let page = pages.init_page_at(BASE, 256, 7);
    assert_eq!(page, BASE + USABLE);
    assert_eq!(pages.bucket_index(page), NUM_BUCKETS - 1);
    let slots = USABLE / 256;
    for i in 0..slots {
        assert_eq!(pages.take_slot(page), BASE + i * 256);
    }
    assert!(pages.is_full(page));
    assert_eq!(pages.use_count(page), slots);
    pages.give_slot(page, BASE + 512);
    assert!(!pages.is_live(page, BASE + 512));
    assert!(pages.is_live(page, BASE));
    assert!(!pages.is_live(page, BASE + 8));
    assert_eq!(pages.take_slot(page), BASE + 512);
}

#[test]
fn the_class_of_a_payload_is_its_usable_size() {
    let mut s = Small::new();
    for (size, usable) in [(1, 8), (8, 8), (9, 16), (100, 104), (256, 256)] {
        let p = s.obtain(size);
        assert_eq!(s.buckets.size(p), usable);
    }
}

#[test]
fn a_freed_slot_is_served_next() {
    let mut s = Small::new();
    let a = s.obtain(64);
    let b = s.obtain(64);
    s.buckets.free(a);
    assert_eq!(s.obtain(64), a);
    assert!(s.buckets.is_live(b));
}
