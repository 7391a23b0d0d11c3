//! The whole allocator.

use orisnik::block::DEFAULT_ALIGNMENT;
use orisnik::orisnik::{is_hpha_alignment, Orisnik};
use orisnik::os::PAGE_SIZE;
use orisnik::page::{
    bucket_spacing_function, clamp_small_allocation, is_small_allocation, MAX_SMALL_ALLOCATION,
};
use orisnik::align::round_up;
use orisnik::tree_model::MAX_ALLOCATION;
use std::collections::BTreeMap;

/// An allocator, the system that maps its memory, and the bytes of that memory.
struct World {
    orisnik: Orisnik,
    next: u64,
    /// How many more mappings the system grants.
    budget: u64,
    memory: BTreeMap<u64, Vec<u8>>,
}

impl World {
    fn new() -> Self {
        World {
            orisnik: Orisnik::new(),
            next: 0x7f00_0000_0000,
            budget: u64::MAX,
            memory: BTreeMap::new(),
        }
    }

    /// Maps what the allocator asked for, if it did and the system grants it.
    fn feed(&mut self) -> bool {
        let size = match self.orisnik.take_wanted() {
            Some(size) => size,
            None => return false,
        };
        if self.budget == 0 || size > 1 << 30 {
            return false;
        }
        self.budget -= 1;
        let base = self.next;
        self.next += size + PAGE_SIZE;
        assert!(self.orisnik.grant(base, size));
        self.memory.insert(base, vec![0xD7; size as usize]);
        true
    }

    /// What `request` answers, asked again whenever the memory that it lacked was mapped.
    fn ask<T>(&mut self, request: impl Fn(&mut Orisnik) -> Option<T>) -> Option<T> {
        loop {
            let r = request(&mut self.orisnik);
            if r.is_some() || !self.feed() {
                return r;
            }
        }
    }

    /// The `len` bytes at `ptr`.
    fn bytes(&mut self, ptr: u64, len: u64) -> &mut [u8] {
        let (base, region) = self.memory.range_mut(..=ptr).next_back().expect("mapped");
        let start = (ptr - base) as usize;
        &mut region[start..start + len as usize]
    }

    fn fill(&mut self, ptr: u64, byte: u8, len: u64) {
        self.bytes(ptr, len).fill(byte);
    }

    fn holds(&mut self, ptr: u64, byte: u8, len: u64) -> bool {
        self.bytes(ptr, len).iter().all(|&b| b == byte)
    }

    /// Moves `len` bytes, also where the two places overlap.
    fn relocate(&mut self, from: u64, to: u64, len: u64) {
        let bytes = self.bytes(from, len).to_vec();
        self.bytes(to, len).copy_from_slice(&bytes);
    }

    fn purge(&mut self) {
        self.orisnik.purge();
        for m in self.orisnik.take_released() {
            let region = self.memory.remove(&m.base).expect("released once");
            assert_eq!(region.len() as u64, m.len);
        }
    }
}

impl World {
    fn obtain(&mut self, size: u64) -> Option<u64> {
        self.ask(|o| o.alloc_bytes(size))
    }

    fn alloc_aligned(&mut self, size: u64, alignment: u64) -> Option<u64> {
        self.ask(|o| o.alloc_aligned(size, alignment))
    }

    fn calloc(&mut self, count: u64, size: u64) -> Option<u64> {
        let z = self.ask(|o| o.calloc(count, size))?;
        self.fill(z.ptr, 0, z.len);
        Some(z.ptr)
    }

    fn realloc(&mut self, ptr: Option<u64>, size: u64) -> Option<u64> {
        if size == 0 {
            assert!(self.orisnik.realloc(ptr, 0).is_none());
            return None;
        }
        let r = self.ask(|o| o.realloc(ptr, size))?;
        if let Some(from) = ptr {
            self.relocate(from, r.ptr, r.copied);
        }
        Some(r.ptr)
    }

    fn realloc_aligned(&mut self, ptr: Option<u64>, size: u64, alignment: u64) -> Option<u64> {
        if size == 0 {
            assert!(self.orisnik.realloc_aligned(ptr, 0, alignment).is_none());
            return None;
        }
        let r = self.ask(|o| o.realloc_aligned(ptr, size, alignment))?;
        if let Some(from) = ptr {
            self.relocate(from, r.ptr, r.copied);
        }
        Some(r.ptr)
    }
}

#[test]
fn alloc_zero_returns_none() {
    let mut w = World::new();
    assert!(w.obtain(0).is_none());
    assert!(w.alloc_aligned(0, 64).is_none());
    assert_eq!(w.orisnik.allocated(), 0, "must not have mapped anything");
}

#[test]
fn realloc_none_ptr_acts_as_alloc_of_zero() {
    let mut w = World::new();
    assert!(w.orisnik.realloc(None, 0).is_none());
}

#[test]
fn size_and_resize_of_null_are_zero() {
    let mut w = World::new();
    assert_eq!(w.orisnik.size(None), 0);
    assert_eq!(w.orisnik.resize(None, 8), 0);
}

#[test]
fn free_of_null_is_a_no_op() {
    let mut w = World::new();
    w.orisnik.free(None);
    assert_eq!(w.orisnik.allocated(), 0);
}

#[test]
fn alloc_bucket_path_roundtrip() {
    let mut w = World::new();
    let ptr = w.obtain(64).expect("mapped");
    w.fill(ptr, 0xAB, 64);
    assert_eq!(w.orisnik.size(Some(ptr)), 64);
    w.orisnik.free(Some(ptr));
    w.purge();
    assert_eq!(w.orisnik.allocated(), 0, "purge must reclaim every page this test used");
}

#[test]
fn alloc_tree_path_roundtrip() {
    let mut w = World::new();
    let size = MAX_SMALL_ALLOCATION + 4096;
    let ptr = w.obtain(size).expect("mapped");
    w.fill(ptr, 0xCD, size);
    assert!(w.orisnik.size(Some(ptr)) >= size);
    w.orisnik.free(Some(ptr));
    w.purge();
    assert_eq!(w.orisnik.allocated(), 0, "purge must reclaim every page this test used");
}

#[test]
fn alloc_aligned_respects_alignment_on_both_paths() {
    let mut w = World::new();
    for &(size, alignment) in &[(48u64, 64u64), (MAX_SMALL_ALLOCATION + 8, 128)] {
        let ptr = w.alloc_aligned(size, alignment).expect("mapped");
        assert_eq!(ptr % alignment, 0);
        w.orisnik.free(Some(ptr));
    }
    w.purge();
    assert_eq!(w.orisnik.allocated(), 0, "purge must reclaim every page this test used");
}

#[test]
fn realloc_moves_bucket_allocation_across_size_classes() {
    let mut w = World::new();
    let ptr = w.obtain(8).expect("mapped");
    w.fill(ptr, 0xEF, 8);
    let grown = w.realloc(Some(ptr), 200).expect("growth within buckets never fails");
    assert!(w.holds(grown, 0xEF, 8));
    w.orisnik.free(Some(grown));
    w.purge();
    assert_eq!(w.orisnik.allocated(), 0, "purge must reclaim every page this test used");
}

#[test]
fn realloc_moves_bucket_allocation_to_the_tree_path() {
    let mut w = World::new();
    let ptr = w.obtain(64).expect("mapped");
    w.fill(ptr, 0x11, 64);
    let big = MAX_SMALL_ALLOCATION + 4096;
    let moved = w.realloc(Some(ptr), big).expect("growth onto the tree path never fails");
    assert!(w.holds(moved, 0x11, 64));
    w.orisnik.free(Some(moved));
    w.purge();
    assert_eq!(w.orisnik.allocated(), 0, "purge must reclaim every page this test used");
}

#[test]
fn realloc_zero_size_frees_and_returns_none() {
    let mut w = World::new();
    let ptr = w.obtain(64).expect("mapped");
    assert!(w.realloc(Some(ptr), 0).is_none());
    assert!(!w.orisnik.is_live(ptr));
    assert_eq!(w.orisnik.allocated(), PAGE_SIZE, "nothing is given back before a purge");
    w.purge();
    assert_eq!(w.orisnik.allocated(), 0, "the freed page must be reclaimable");
}

#[test]
fn resize_grows_tree_allocation_in_place() {
    let mut w = World::new();
    let size = MAX_SMALL_ALLOCATION + 4096;
    let ptr = w.obtain(size).expect("mapped");
    let new_size = w.orisnik.resize(Some(ptr), size + 64);
    assert!(new_size >= size + 64);
    w.fill(ptr, 0x22, new_size);
    w.orisnik.free(Some(ptr));
    w.purge();
    assert_eq!(w.orisnik.allocated(), 0, "purge must reclaim every page this test used");
}

#[test]
fn free_with_size_matches_plain_free() {
    let mut w = World::new();
    let a = w.obtain(64).expect("mapped");
    w.orisnik.free_with_size(Some(a), 64);

    let b = w.alloc_aligned(48, 128).expect("mapped");
    w.orisnik.free_with_size_aligned(Some(b), 48, 128);

    w.purge();
    assert_eq!(w.orisnik.allocated(), 0);
}

#[test]
fn allocated_tracks_both_paths_and_purge_reclaims_them() {
    let mut w = World::new();
    let small = w.obtain(32).expect("mapped");
    let large = w.obtain(MAX_SMALL_ALLOCATION + 4096).expect("mapped");
    assert!(w.orisnik.allocated() > 0);
    assert_eq!(w.orisnik.allocated(), 2 * PAGE_SIZE);
    w.orisnik.free(Some(small));
    w.orisnik.free(Some(large));
    w.purge();
    assert_eq!(
        w.orisnik.allocated(),
        0,
        "every fully-unused page/arena must be reclaimed"
    );
    assert!(w.memory.is_empty());
}

#[test]
fn oversized_requests_are_declined_not_wrapped() {
    let mut w = World::new();
    for &size in &[u64::MAX, u64::MAX - 1, u64::MAX - 8, MAX_ALLOCATION + 1] {
        assert!(w.obtain(size).is_none(), "alloc({size}) must decline, not wrap");
        assert!(
            w.alloc_aligned(size, 64).is_none(),
            "alloc_aligned({size}, 64) must decline, not wrap"
        );
    }
    assert!(w.alloc_aligned(1 << 63, 1 << 63).is_none());
    assert_eq!(w.orisnik.allocated(), 0, "must not have mapped anything");
}

#[test]
fn calloc_declines_a_product_that_would_overflow() {
    let mut w = World::new();
    assert!(w.calloc(2, u64::MAX).is_none());
    assert!(w.calloc(u64::MAX, 2).is_none());
    assert!(w.calloc(1 << 32, 1 << 32).is_none());
    assert_eq!(w.orisnik.allocated(), 0, "must not have mapped anything");
}

#[test]
fn zero_alignment_is_accepted_as_unaligned() {
    assert!(is_hpha_alignment(0), "zero is accepted");
    assert!(is_hpha_alignment(1));
    assert!(is_hpha_alignment(DEFAULT_ALIGNMENT));
    assert!(!is_hpha_alignment(3));
    assert!(!is_hpha_alignment(24));

    let mut w = World::new();
    assert!(w.alloc_aligned(0, 0).is_none());
    assert_eq!(w.orisnik.allocated(), 0, "must not have mapped anything");
}

#[test]
fn realloc_aligned_to_zero_size_and_zero_alignment_frees() {
    let mut w = World::new();
    let ptr = w.alloc_aligned(64, 0).expect("mapped");
    assert!(w.realloc_aligned(Some(ptr), 0, 0).is_none());
    w.purge();
    assert_eq!(w.orisnik.allocated(), 0, "the freed page must be reclaimable");
}

#[test]
fn free_with_size_aligned_accepts_zero_alignment() {
    let mut w = World::new();
    for &size in &[1u64, 8, 9, 64, 255, MAX_SMALL_ALLOCATION] {
        let ptr = w.alloc_aligned(size, 0).expect("mapped");
        w.orisnik.free_with_size_aligned(Some(ptr), size, 0);
    }
    w.purge();
    assert_eq!(w.orisnik.allocated(), 0);
}

#[test]
fn zero_orig_size_free_recovers_through_pointer_dispatch() {
    let mut w = World::new();

    let a = w.obtain(64).expect("mapped");
    w.orisnik.free_with_size(Some(a), 0);

    let b = w.obtain(64).expect("mapped");
    w.orisnik.free_with_size_aligned(Some(b), 0, 64);

    let c = w.obtain(64).expect("mapped");
    w.orisnik.free_with_size_aligned(Some(c), 0, 0);

    let d = w.obtain(MAX_SMALL_ALLOCATION + 4096).expect("mapped");
    w.orisnik.free_with_size(Some(d), 0);

    w.purge();
    assert_eq!(
        w.orisnik.allocated(),
        0,
        "every block must have been genuinely freed, not leaked or corrupted"
    );
}

/// The linear congruential generator of a well-known C runtime.
struct VintageRand(u32);

impl VintageRand {
    fn new(seed: u32) -> Self {
        Self(seed)
    }

    /// One draw: `0..=0x7fff`.
    fn next(&mut self) -> u32 {
        self.0 = self.0.wrapping_mul(214_013).wrapping_add(2_531_011);
        (self.0 >> 16) & 0x7fff
    }

    /// `2..=4096`, heavily skewed toward the floor.
    fn size(&mut self) -> u64 {
        let min_size: u64 = 2;
        let max_size: u64 = 4096;
        let r = u64::from(self.next());
        let r2 = (r * r) >> 15;
        let r4 = (r2 * r2) >> 15;
        let r8 = (r4 * r4) >> 15;
        min_size + ((r8 * (max_size - min_size)) >> 15)
    }

    /// One of 1, 2, 4, ..., 128.
    fn alignment(&mut self) -> u64 {
        let r = u64::from(self.next());
        1 << ((7 * r) >> 15)
    }

    /// A number below `remaining`.
    fn index_in(&mut self, remaining: usize) -> usize {
        self.next() as usize % remaining
    }
}

#[test]
fn vintage_rand_matches_the_microsoft_crt() {
    let mut r = VintageRand::new(0);
    for &expected in &[38u32, 7719, 21238, 2437, 8855, 11797, 8365, 32285, 10450] {
        assert_eq!(r.next(), expected);
    }
    let mut r = VintageRand::new(1234);
    for &expected in &[4068u32, 213, 12761, 8758, 23056, 7717, 15274, 24508] {
        assert_eq!(r.next(), expected);
    }
}

#[test]
fn vintage_rand_derived_stream_is_pinned_across_ports() {
    for &(n, want_bucket, want_tree) in &[(150, 108, 42), (20_000, 14_123, 5_877)] {
        let mut rng = VintageRand::new(1234);
        let (mut bucket_path, mut tree_path) = (0, 0);
        for _ in 0..n {
            if is_small_allocation(rng.size()) {
                bucket_path += 1;
            } else {
                tree_path += 1;
            }
        }
        assert_eq!((bucket_path, tree_path), (want_bucket, want_tree), "N = {n}");
    }

    let mut rng = VintageRand::new(1234);
    let mut alignment_sum = 0;
    for _ in 0..20_000 {
        let _ = rng.size();
        alignment_sum += rng.alignment();
    }
    assert_eq!(alignment_sum, 363_773);
}

#[test]
fn randomized_alloc_free_stress_matches_the_hpha_benchmark_shape() {
    let n: usize = 20_000;

    for &use_alignment in &[false, true] {
        let mut w = World::new();
        let mut rng = VintageRand::new(1234);
        let mut live: Vec<(u64, u64, u8)> = Vec::with_capacity(n);
        let (mut bucket_path, mut tree_path) = (0, 0);

        for i in 0..n {
            let size = rng.size();
            if is_small_allocation(size) {
                bucket_path += 1;
            } else {
                tree_path += 1;
            }
            let ptr = if use_alignment {
                let alignment = rng.alignment();
                let p = w.alloc_aligned(size, alignment).expect("mapped");
                assert_eq!(
                    p % alignment,
                    0,
                    "alloc_aligned({size}, {alignment}) returned a misaligned block"
                );
                p
            } else {
                w.obtain(size).expect("mapped")
            };
            let stamp = (i % 251) as u8;
            w.fill(ptr, stamp, size);
            live.push((ptr, size, stamp));
        }

        for i in 0..n {
            let j = i + rng.index_in(n - i);
            let (ptr, size, expected) = live[j];
            assert!(
                w.holds(ptr, expected, size),
                "block {j} ({size} bytes) was corrupted before it was freed"
            );
            w.orisnik.free(Some(ptr));
            live[j] = live[i];
        }

        w.purge();
        assert_eq!(
            w.orisnik.allocated(),
            0,
            "every page must be reclaimable once all {n} blocks are freed \
             (use_alignment = {use_alignment})"
        );
        assert!(
            bucket_path > n / 2,
            "expected a bucket-path majority, got {bucket_path}/{n}"
        );
        assert!(
            tree_path > n / 10,
            "expected a substantial tree-path tail, got {tree_path}/{n}"
        );
    }
}

#[test]
fn alloc_reports_oom_on_both_paths_when_the_os_refuses() {
    let mut w = World::new();
    w.budget = 0;
    assert!(w.obtain(64).is_none(), "bucket path must report OOM");
    assert!(
        w.obtain(MAX_SMALL_ALLOCATION + 4096).is_none(),
        "tree path must report OOM"
    );
    assert!(w.alloc_aligned(48, 128).is_none(), "aligned bucket path must report OOM");
    assert!(
        w.alloc_aligned(MAX_SMALL_ALLOCATION + 4096, 128).is_none(),
        "aligned tree path must report OOM"
    );
    assert!(w.calloc(4, 16).is_none(), "calloc must report OOM");
    assert_eq!(w.orisnik.allocated(), 0, "a refused mapping claims no bytes");
}

#[test]
fn the_allocator_recovers_once_the_os_stops_refusing() {
    let mut w = World::new();
    w.budget = 0;
    assert!(w.obtain(64).is_none());
    w.budget = u64::MAX;
    let ptr = w.obtain(64).expect("mappings succeed again");
    w.orisnik.free(Some(ptr));
    w.purge();
    assert_eq!(w.orisnik.allocated(), 0);
}

#[test]
fn realloc_that_hits_oom_keeps_the_original_allocation() {
    let mut w = World::new();
    w.budget = 1;
    let ptr = w.obtain(64).expect("first map is budgeted");
    w.fill(ptr, 0x5A, 64);

    let grown = w.realloc(Some(ptr), MAX_SMALL_ALLOCATION + 4096);
    assert!(grown.is_none(), "realloc must report OOM");

    assert!(
        w.holds(ptr, 0x5A, 64),
        "the original block's contents must survive a failed realloc"
    );
    assert_eq!(w.orisnik.size(Some(ptr)), 64);
    w.orisnik.free(Some(ptr));
    w.purge();
    assert_eq!(w.orisnik.allocated(), 0, "purge must reclaim every page this test used");
}

#[test]
fn zero_alignment_free_picks_the_bucket_alloc_used() {
    for size in 1..=MAX_SMALL_ALLOCATION {
        let allocated_from = bucket_spacing_function(clamp_small_allocation(size));
        let freed_to = bucket_spacing_function(round_up(size, DEFAULT_ALIGNMENT));
        assert_eq!(allocated_from, freed_to, "bucket mismatch for size {size}");
    }
}

#[test]
fn calloc_hands_out_zeros() {
    let mut w = World::new();
    for (count, size) in [(1, 1), (4, 16), (3, 100), (1, 5000), (7, 1024)] {
        let dirty = w.obtain(count * size).expect("mapped");
        w.fill(dirty, 0xFF, count * size);
        w.orisnik.free(Some(dirty));
        let ptr = w.calloc(count, size).expect("mapped");
        assert!(w.holds(ptr, 0, count * size));
    }
    assert!(w.calloc(0, 8).is_none());
    assert!(w.calloc(8, 0).is_none());
}

#[test]
fn a_request_of_nothing_is_declined_at_every_alignment() {
    let mut w = World::new();
    for alignment in [0, 1, 8, 256, 512, 4096, 1 << 63] {
        assert!(w.alloc_aligned(0, alignment).is_none());
        assert_eq!(w.orisnik.take_wanted(), None);
    }
}

#[test]
fn small_sizes_with_large_alignments_are_served_from_the_tree() {
    let mut w = World::new();
    for alignment in [512u64, 4096, 65536, 1 << 20] {
        let p = w.alloc_aligned(24, alignment).expect("mapped");
        assert_eq!(p % alignment, 0);
        assert!(w.orisnik.size(Some(p)) >= 24);
        w.orisnik.free_with_size_aligned(Some(p), 24, alignment);
        assert!(!w.orisnik.is_live(p));
    }
    w.purge();
    assert_eq!(w.orisnik.allocated(), 0);
}

#[test]
fn usable_sizes_cover_what_was_asked_for() {
    let mut w = World::new();
    for (size, usable) in [(1, 8), (24, 24), (250, 256), (257, 272), (1000, 1008)] {
        let p = w.obtain(size).expect("mapped");
        assert_eq!(w.orisnik.size(Some(p)), usable);
    }
}

#[test]
fn what_was_freed_is_served_again() {
    let mut w = World::new();
    for size in [8, 100, 256, 300, 5000] {
        let p = w.obtain(size).expect("mapped");
        w.orisnik.free(Some(p));
        assert_eq!(w.obtain(size), Some(p));
        w.orisnik.free(Some(p));
    }
}

#[test]
fn resize_of_a_small_payload_reports_its_class() {
    let mut w = World::new();
    let p = w.obtain(60).expect("mapped");
    assert_eq!(w.orisnik.resize(Some(p), 1000), 64);
    assert_eq!(w.orisnik.resize(Some(p), 1), 64);
    assert!(w.orisnik.is_live(p));
}

#[test]
fn resize_shrinks_large_payloads() {
    let mut w = World::new();
    let p = w.obtain(4096).expect("mapped");
    let left = w.orisnik.resize(Some(p), 512);
    assert_eq!(left, 512);
    assert_eq!(w.orisnik.size(Some(p)), 512);
    assert!(w.orisnik.is_live(p));
}

#[test]
fn purge_keeps_what_is_live() {
    let mut w = World::new();
    let keep_small = w.obtain(40).expect("mapped");
    let keep_large = w.obtain(3000).expect("mapped");
    w.fill(keep_small, 1, 40);
    w.fill(keep_large, 2, 3000);
    let gone: Vec<u64> = (0..20).map(|i| w.obtain(200 + i * 4000).expect("mapped")).collect();
    for p in gone {
        w.orisnik.free(Some(p));
    }
    w.purge();
    assert!(w.orisnik.is_live(keep_small));
    assert!(w.orisnik.is_live(keep_large));
    assert!(w.holds(keep_small, 1, 40));
    assert!(w.holds(keep_large, 2, 3000));
    assert_eq!(w.orisnik.allocated(), 2 * PAGE_SIZE);
}

#[test]
fn a_small_payload_that_moves_within_the_classes_keeps_its_alignment() {
    let mut w = World::new();
    let _x = w.obtain(100).expect("mapped");
    let p = w.alloc_aligned(48, 64).expect("mapped");
    assert_eq!(w.orisnik.size(Some(p)), 64);
    w.fill(p, 9, 48);
    let r = w.realloc_aligned(Some(p), 100, 64).expect("mapped");
    assert_eq!(r % 64, 0);
    assert_eq!(w.orisnik.size(Some(r)), 128);
    assert!(w.holds(r, 9, 48));

    for al in [16, 32, 64, 128, 256] {
        let mut q = w.alloc_aligned(8, al).expect("mapped");
        w.fill(q, 0x33, 8);
        for size in [17, 40, 72, 100, 136, 200, 256, 300, 20] {
            let _other = w.obtain(size).expect("mapped");
            q = w.realloc_aligned(Some(q), size, al).expect("mapped");
            assert_eq!(q % al, 0);
            assert!(w.orisnik.size(Some(q)) >= size);
            assert!(w.holds(q, 0x33, 8));
        }
    }
}

#[test]
fn an_aligned_slot_that_is_large_enough_stays() {
    let mut o = Orisnik::new();
    assert!(o.grant(PAGE_SIZE, PAGE_SIZE));
    let p = o.alloc_aligned(48, 64).expect("granted");
    let r = o.realloc_aligned(Some(p), 64, 32).expect("stays");
    assert_eq!((r.ptr, r.copied), (p, 0));
    let r = o.realloc_aligned(Some(p), 3, 64).expect("stays");
    assert_eq!((r.ptr, r.copied), (p, 0));
    assert_eq!(o.realloc_aligned(Some(p), 65, 64), None);
    assert_eq!(o.take_wanted(), Some(PAGE_SIZE));
    assert!(o.is_live(p));
}

#[test]
fn a_size_of_zero_resizes_nothing() {
    let mut w = World::new();
    let large = w.obtain(512).expect("mapped");
    assert_eq!(w.orisnik.resize(Some(large), 0), 512);
    assert_eq!(w.orisnik.size(Some(large)), 512);
    let small = w.obtain(40).expect("mapped");
    assert_eq!(w.orisnik.resize(Some(small), 0), 40);
}

#[test]
fn realloc_aligned_onto_the_large_path_keeps_alignment_and_bytes() {
    let mut w = World::new();
    let p = w.alloc_aligned(48, 128).expect("mapped");
    w.fill(p, 0x42, 48);
    let q = w.realloc_aligned(Some(p), 2000, 128).expect("mapped");
    assert_eq!(q % 128, 0);
    assert!(w.holds(q, 0x42, 48));
    let r = w.realloc_aligned(Some(q), 20000, 1024).expect("mapped");
    assert_eq!(r % 1024, 0);
    assert!(w.holds(r, 0x42, 48));
    let fresh = w.realloc_aligned(None, 100, 32).expect("mapped");
    assert_eq!(fresh % 32, 0);
}

#[test]
fn the_default_allocator_is_empty() {
    let o = Orisnik::default();
    assert_eq!(o.allocated(), 0);
    assert!(!o.is_live(0x1000));
}

#[test]
fn random_reallocs_keep_every_payload_apart_and_intact() {
    let mut w = World::new();
    let mut rng = VintageRand::new(99);
    let mut live: Vec<(u64, u64, u8)> = Vec::new();
    for step in 0..6000u32 {
        let size = rng.size();
        let alignment = rng.alignment();
        if live.len() < 200 || rng.index_in(4) == 0 {
            let aligned = rng.index_in(2) == 0;
            let p = if aligned { w.alloc_aligned(size, alignment) } else { w.obtain(size) };
            let p = p.expect("mapped");
            let stamp = (step % 251) as u8;
            w.fill(p, stamp, size);
            live.push((p, size, stamp));
        } else {
            let i = rng.index_in(live.len());
            let (p, old, stamp) = live[i];
            assert!(w.orisnik.is_live(p));
            assert!(w.orisnik.size(Some(p)) >= old);
            assert!(w.holds(p, stamp, old));
            if rng.index_in(3) == 0 {
                w.orisnik.free(Some(p));
                live.swap_remove(i);
            } else {
                let q = w.realloc(Some(p), size).expect("mapped");
                assert!(w.holds(q, stamp, old.min(size)));
                w.fill(q, stamp, size);
                live[i] = (q, size, stamp);
            }
        }
        if step % 500 == 0 {
            w.purge();
            let mut spans: Vec<(u64, u64)> =
                live.iter().map(|&(p, _, _)| (p, w.orisnik.size(Some(p)))).collect();
            spans.sort_unstable();
            for pair in spans.windows(2) {
                assert!(pair[0].0 + pair[0].1 <= pair[1].0);
            }
        }
    }
    for (p, size, stamp) in live {
        assert!(w.holds(p, stamp, size));
        w.orisnik.free(Some(p));
    }
    w.purge();
    assert_eq!(w.orisnik.allocated(), 0);
    assert!(w.memory.is_empty());
}

#[test]
fn the_request_that_a_payload_answers_can_be_tested() {
    let mut w = World::new();
    let small = w.obtain(60).expect("mapped");
    assert!(w.orisnik.fits_request(small, 60));
    assert!(w.orisnik.fits_request(small, 57));
    assert!(w.orisnik.fits_request(small, 64));
    assert!(!w.orisnik.fits_request(small, 56));
    assert!(!w.orisnik.fits_request(small, 65));
    assert!(!w.orisnik.fits_request(small, 1000));
    assert!(w.orisnik.fits_request(small, 0));
    assert!(w.orisnik.fits_aligned_request(small, 33, 64));
    assert!(!w.orisnik.fits_aligned_request(small, 60, 128));
    assert!(!w.orisnik.fits_aligned_request(small, 60, 512));
    let large = w.obtain(1000).expect("mapped");
    assert!(w.orisnik.fits_request(large, 1000));
    assert!(!w.orisnik.fits_request(large, 100));
    assert!(w.orisnik.fits_aligned_request(large, 24, 1024));
    assert!(!w.orisnik.fits_request(large + 16, 0));
    w.orisnik.free(Some(large));
    assert!(!w.orisnik.fits_request(large, 1000));
}

#[test]
fn what_a_request_lacks_is_told_and_is_enough() {
    let mut o = Orisnik::new();
    let mut next = PAGE_SIZE;
    let mut hand_over = |o: &mut Orisnik, len: u64| {
        assert_eq!(o.take_wanted(), Some(len));
        assert!(o.grant(next, len));
        next += len;
    };

    assert_eq!(o.alloc_bytes(64), None);
    hand_over(&mut o, PAGE_SIZE);
    let p = o.alloc_bytes(64).expect("enough");

    assert_eq!(o.alloc_bytes(70_000), None);
    hand_over(&mut o, 2 * PAGE_SIZE);
    let q = o.alloc_bytes(70_000).expect("enough");

    assert_eq!(o.alloc_aligned(300, 1 << 20), None);
    hand_over(&mut o, 17 * PAGE_SIZE);
    assert!(o.alloc_aligned(300, 1 << 20).is_some());

    assert_eq!(o.realloc(Some(p), 200), None);
    hand_over(&mut o, PAGE_SIZE);
    let p = o.realloc(Some(p), 200).expect("enough");
    assert_eq!(p.copied, 64);

    assert_eq!(o.realloc_aligned(Some(q), 3_000_000, 64), None);
    hand_over(&mut o, 46 * PAGE_SIZE);
    let q = o.realloc_aligned(Some(q), 3_000_000, 64).expect("enough");
    assert_eq!(q.copied, 70_000);
    assert_eq!(o.take_wanted(), None);
}

#[test]
fn the_count_is_what_was_mapped_less_what_was_given_back() {
    let mut w = World::new();
    let mut rng = VintageRand::new(7);
    let mut live: Vec<u64> = Vec::new();
    for step in 0..3000u32 {
        let before = w.orisnik.allocated();
        if live.len() < 50 || rng.index_in(2) == 0 {
            let size = rng.size() * 8;
            let alignment = rng.alignment();
            live.push(w.alloc_aligned(size, alignment).expect("mapped"));
            assert!(w.orisnik.allocated() >= before);
        } else {
            let i = rng.index_in(live.len());
            let p = live.swap_remove(i);
            w.orisnik.free(Some(p));
            assert_eq!(w.orisnik.allocated(), before);
        }
        if step % 100 == 0 {
            let before = w.orisnik.allocated();
            w.purge();
            assert!(w.orisnik.allocated() <= before);
        }
        let mapped: usize = w.memory.values().map(|region| region.len()).sum();
        assert_eq!(w.orisnik.allocated(), mapped as u64);
        assert_eq!(w.orisnik.allocated() % PAGE_SIZE, 0);
    }
}

#[test]
fn a_mapping_on_offer_does_not_count() {
    let mut o = Orisnik::new();
    assert!(o.grant(PAGE_SIZE, PAGE_SIZE));
    assert_eq!(o.allocated(), 0);
    assert!(o.alloc_bytes(8).is_some());
    assert_eq!(o.allocated(), PAGE_SIZE);
}

#[test]
fn memory_of_the_upper_half_serves_every_path() {
    let mut w = World::new();
    w.next = (1 << 63) - 2 * PAGE_SIZE;
    let mut live = Vec::new();
    for (size, alignment) in [(40, 0), (40, 64), (900, 16), (900, 4096), (200_000, 1 << 20)] {
        let p = w.alloc_aligned(size, alignment).expect("mapped");
        if alignment > 0 {
            assert_eq!(p % alignment, 0);
        }
        w.fill(p, 0x3C, size);
        let p = w.realloc_aligned(Some(p), 2 * size, alignment).expect("mapped");
        assert!(w.holds(p, 0x3C, size));
        live.push(p);
    }
    assert!(live.iter().any(|&p| p > 1 << 63));
    for p in live {
        w.orisnik.free(Some(p));
    }
    w.purge();
    assert_eq!(w.orisnik.allocated(), 0);
}

#[test]
fn the_last_mapping_below_the_end_of_the_addresses_serves() {
    let mut o = Orisnik::new();
    let base = u64::MAX - 2 * PAGE_SIZE + 1;
    assert!(o.grant(base, PAGE_SIZE));
    let p = o.alloc_aligned(300, 16384).expect("enough");
    assert_eq!(p % 16384, 0);
    assert!(base <= p && p - base < PAGE_SIZE);
    assert_eq!(o.allocated(), PAGE_SIZE);
    o.free(Some(p));
    o.purge();
    assert_eq!(o.allocated(), 0);
}

#[test]
fn no_payload_is_much_larger_than_its_request() {
    let mut w = World::new();
    let mut rng = VintageRand::new(11);
    let mut live: Vec<u64> = Vec::new();
    for size in 1..=MAX_SMALL_ALLOCATION {
        let p = w.obtain(size).expect("mapped");
        assert_eq!(w.orisnik.size(Some(p)), round_up(size, 8));
        let p = w.alloc_aligned(size, 32).expect("mapped");
        assert_eq!(w.orisnik.size(Some(p)), round_up(size, 32));
    }
    for _ in 0..2000u32 {
        if live.len() > 40 {
            let i = rng.index_in(live.len());
            w.orisnik.free(Some(live.swap_remove(i)));
        }
        let size = MAX_SMALL_ALLOCATION + 1 + rng.size();
        let alignment = [0, 64, 512, 4096][rng.index_in(4)];
        let p = w.alloc_aligned(size, alignment).expect("mapped");
        let normalized = round_up(size, 16);
        let usable = w.orisnik.size(Some(p));
        assert_eq!(usable % 16, 0);
        assert!(normalized <= usable && usable <= normalized + 48);
        live.push(p);
    }
}

#[test]
fn a_reallocation_is_declined_beyond_the_limit_and_for_want_of_memory_only() {
    let mut o = Orisnik::new();
    assert!(o.grant(PAGE_SIZE, PAGE_SIZE));
    let p = o.alloc_bytes(64).expect("enough");
    assert!(o.grant(4 * PAGE_SIZE, PAGE_SIZE));
    let q = o.alloc_bytes(1000).expect("enough");
    for x in [p, q] {
        assert!(o.realloc(Some(x), MAX_ALLOCATION + 1).is_none());
        assert_eq!(o.take_wanted(), None);
        assert!(o.realloc_aligned(Some(x), MAX_ALLOCATION + 1, 64).is_none());
        assert_eq!(o.take_wanted(), None);
        assert!(o.realloc_aligned(Some(x), MAX_ALLOCATION - 64, 4096).is_none());
        assert_eq!(o.take_wanted(), None);
        assert!(o.realloc(Some(x), 100_000).is_none());
        assert_eq!(o.take_wanted(), Some(2 * PAGE_SIZE));
        assert!(o.realloc_aligned(Some(x), 100_000, 65536).is_none());
        assert_eq!(o.take_wanted(), Some(3 * PAGE_SIZE));
    }
    assert_eq!(o.size(Some(p)), 64);
    assert!(o.grant(8 * PAGE_SIZE, 2 * PAGE_SIZE));
    assert_eq!(o.realloc(Some(p), 100_000).expect("enough").copied, 64);
    assert!(o.grant(16 * PAGE_SIZE, 3 * PAGE_SIZE));
    assert!(o.realloc_aligned(Some(q), 100_000, 65536).is_some());
}
