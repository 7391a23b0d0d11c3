//! The interfaces for C callers, for a program's global allocator and for containers.

use orisnik::allocator_trait::{
    allocate, allocate_zeroed, deallocate, grow, shrink, AllocError, Layout, Memory,
};
use orisnik::block::DEFAULT_ALIGNMENT;
use orisnik::capi::{
    oris_alloc, oris_alloc_aligned, oris_allocated, oris_calloc, oris_free, oris_free_with_size,
    oris_free_with_size_aligned, oris_new, oris_purge, oris_realloc, oris_realloc_aligned,
    oris_resize, oris_size, NULL,
};
use orisnik::global_alloc::{alloc_layout, alloc_zeroed, dealloc, realloc};
use orisnik::orisnik::Orisnik;
use orisnik::os::PAGE_SIZE;
use std::collections::BTreeMap;

/// An allocator, the system that maps its memory, and the bytes of that memory.
struct World {
    orisnik: Orisnik,
    next: u64,
    /// How many more mappings the system grants.
    budget: u64,
    memory: BTreeMap<u64, Vec<u8>>,
}

impl World {
    fn new() -> Self {
        World {
            orisnik: Orisnik::new(),
            next: 0x7f00_0000_0000,
            budget: u64::MAX,
            memory: BTreeMap::new(),
        }
    }

    /// Maps what the allocator asked for, if it did and the system grants it.
    fn feed(&mut self) -> bool {
        let size = match self.orisnik.take_wanted() {
            Some(size) => size,
            None => return false,
        };
        if self.budget == 0 || size > 1 << 30 {
            return false;
        }
        self.budget -= 1;
        let base = self.next;
        self.next += size + PAGE_SIZE;
        assert!(self.orisnik.grant(base, size));
        self.memory.insert(base, vec![0xD7; size as usize]);
        true
    }

    /// What `request` answers, asked again whenever the memory that it lacked was mapped.
    fn ask<T>(&mut self, request: impl Fn(&mut Orisnik) -> Option<T>) -> Option<T> {
        loop {
            let r = request(&mut self.orisnik);
            if r.is_some() || !self.feed() {
                return r;
            }
        }
    }

    /// The `len` bytes at `ptr`.
    fn bytes(&mut self, ptr: u64, len: u64) -> &mut [u8] {
        let (base, region) = self.memory.range_mut(..=ptr).next_back().expect("mapped");
        let start = (ptr - base) as usize;
        &mut region[start..start + len as usize]
    }

    fn fill(&mut self, ptr: u64, byte: u8, len: u64) {
        self.bytes(ptr, len).fill(byte);
    }

    fn holds(&mut self, ptr: u64, byte: u8, len: u64) -> bool {
        self.bytes(ptr, len).iter().all(|&b| b == byte)
    }

    /// Moves `len` bytes, also where the two places overlap.
    fn relocate(&mut self, from: u64, to: u64, len: u64) {
        let bytes = self.bytes(from, len).to_vec();
        self.bytes(to, len).copy_from_slice(&bytes);
    }

    fn purge(&mut self) {
        self.orisnik.purge();
        for m in self.orisnik.take_released() {
            let region = self.memory.remove(&m.base).expect("released once");
            assert_eq!(region.len() as u64, m.len);
        }
    }
}

/// Null as no answer.
fn non_null(ptr: u64) -> Option<u64> {
    if ptr == NULL {
        None
    } else {
        Some(ptr)
    }
}

#[test]
fn c_abi_round_trip_alloc_realloc_free_purge() {
    let mut w = World::new();
    w.orisnik = oris_new();

    let ptr = w.ask(|o| non_null(oris_alloc(o, 64))).expect("mapped");
    w.fill(ptr, 0xAB, 64);
    assert_eq!(oris_size(&w.orisnik, ptr), 64);

    let grown = w
        .ask(|o| {
            let r = oris_realloc(o, ptr, 512);
            non_null(r.ptr).map(|p| (p, r.copied))
        })
        .expect("mapped");
    w.relocate(ptr, grown.0, grown.1);
    let grown = grown.0;
    assert!(w.holds(grown, 0xAB, 64));

    assert!(oris_allocated(&w.orisnik) > 0);

    oris_free(&mut w.orisnik, grown);
    oris_purge(&mut w.orisnik);
    assert_eq!(oris_allocated(&w.orisnik), 0);
}

#[test]
fn c_abi_aligned_alloc_and_free_with_size() {
    let mut w = World::new();
    w.orisnik = oris_new();

    let ptr = w.ask(|o| non_null(oris_alloc_aligned(o, 48, 128))).expect("mapped");
    assert_eq!(ptr % 128, 0);
    oris_free_with_size_aligned(&mut w.orisnik, ptr, 48, 128);

    let zeroed = w
        .ask(|o| {
            let z = oris_calloc(o, 4, 16);
            non_null(z.ptr).map(|_| z)
        })
        .expect("mapped");
    assert_eq!(zeroed.len, 64);
    w.fill(zeroed.ptr, 0, zeroed.len);
    assert!(w.holds(zeroed.ptr, 0, 64));
    oris_free_with_size(&mut w.orisnik, zeroed.ptr, 64);
    w.purge();
    assert_eq!(oris_allocated(&w.orisnik), 0);
}

#[test]
fn c_callers_see_null_where_there_is_no_answer() {
    let mut w = World::new();
    assert_eq!(oris_alloc(&mut w.orisnik, 64), NULL);
    assert_eq!(oris_alloc(&mut w.orisnik, 0), NULL);
    assert_eq!(oris_alloc_aligned(&mut w.orisnik, 64, 64), NULL);
    assert_eq!(oris_calloc(&mut w.orisnik, u64::MAX, 2).ptr, NULL);
    assert_eq!(oris_realloc(&mut w.orisnik, NULL, 64).ptr, NULL);
    assert_eq!(oris_realloc_aligned(&mut w.orisnik, NULL, 64, 64).ptr, NULL);
    assert_eq!(oris_size(&w.orisnik, NULL), 0);
    assert_eq!(oris_resize(&mut w.orisnik, NULL, 64), 0);
    oris_free(&mut w.orisnik, NULL);
    oris_free_with_size(&mut w.orisnik, NULL, 64);
    oris_free_with_size_aligned(&mut w.orisnik, NULL, 64, 64);
    assert_eq!(oris_allocated(&w.orisnik), 0);
}

#[test]
fn c_callers_resize_and_realloc_in_place() {
    let mut w = World::new();
    let ptr = w.ask(|o| non_null(oris_alloc(o, 1000))).expect("mapped");
    assert!(oris_resize(&mut w.orisnik, ptr, 2000) >= 2000);
    let r = oris_realloc_aligned(&mut w.orisnik, ptr, 3000, 8);
    assert_eq!((r.ptr, r.copied), (ptr, 0));
    assert!(oris_size(&w.orisnik, ptr) >= 3000);
}

#[test]
fn global_alloc_default_alignment_round_trip() {
    let mut w = World::new();
    let layout = Layout { size: 64, align: DEFAULT_ALIGNMENT };
    let ptr = w.ask(|o| non_null(alloc_layout(o, layout))).expect("mapped");
    w.fill(ptr, 0xAB, layout.size);
    dealloc(&mut w.orisnik, ptr);
    w.purge();
    assert_eq!(w.orisnik.allocated(), 0);
}

#[test]
fn global_alloc_zeroed_and_over_aligned() {
    let mut w = World::new();
    let layout = Layout { size: 96, align: 256 };
    let z = w
        .ask(|o| {
            let z = alloc_zeroed(o, layout);
            non_null(z.ptr).map(|_| z)
        })
        .expect("mapped");
    let ptr = z.ptr;
    assert_eq!(ptr % 256, 0);
    assert_eq!(z.len, 96);
    assert!(!w.holds(ptr, 0, layout.size), "fresh memory is not zero by itself");
    w.fill(z.ptr, 0, z.len);
    assert!(w.holds(ptr, 0, layout.size));
    dealloc(&mut w.orisnik, ptr);
    w.purge();
    assert_eq!(w.orisnik.allocated(), 0);
}

#[test]
fn global_alloc_realloc_grows_like_a_vec_would() {
    let mut w = World::new();
    let small = Layout { size: 16, align: DEFAULT_ALIGNMENT };
    let ptr = w.ask(|o| non_null(alloc_layout(o, small))).expect("mapped");
    w.fill(ptr, 0xCD, 16);

    let (grown, copied) = w
        .ask(|o| {
            let r = realloc(o, ptr, small, 4096);
            non_null(r.ptr).map(|p| (p, r.copied))
        })
        .expect("mapped");
    w.relocate(ptr, grown, copied);
    assert!(w.holds(grown, 0xCD, 16));

    dealloc(&mut w.orisnik, grown);
    w.purge();
    assert_eq!(w.orisnik.allocated(), 0);
}

#[test]
fn global_alloc_realloc_to_zero_does_not_free_the_block() {
    let mut w = World::new();
    let layout = Layout { size: 64, align: DEFAULT_ALIGNMENT };
    let ptr = w.ask(|o| non_null(alloc_layout(o, layout))).expect("mapped");

    let r = realloc(&mut w.orisnik, ptr, layout, 0);
    assert_eq!(r.ptr, NULL, "a zero new_size must report failure");

    let next = w.ask(|o| non_null(alloc_layout(o, layout))).expect("mapped");
    assert_ne!(
        next, ptr,
        "realloc-to-zero must not have freed the block it reported failure for"
    );

    dealloc(&mut w.orisnik, ptr);
    dealloc(&mut w.orisnik, next);
    w.purge();
    assert_eq!(w.orisnik.allocated(), 0);
}

#[test]
fn zero_size_layout_returns_dangling_without_touching_the_os() {
    let mut w = World::new();
    let layout = Layout { size: 0, align: 64 };
    let block = allocate(&mut w.orisnik, layout).expect("zero-size must succeed");
    assert_eq!(block.len, 0);
    assert_eq!(block.ptr % 64, 0);
    assert_eq!(w.orisnik.allocated(), 0, "must not have mapped anything");
    deallocate(&mut w.orisnik, block.ptr, layout);
}

#[test]
fn allocator_trait_grow_and_shrink_round_trip() {
    let mut w = World::new();
    let small = Layout { size: 16, align: DEFAULT_ALIGNMENT };
    let block = w.ask(|o| allocate(o, small).ok()).expect("mapped");
    w.fill(block.ptr, 0xEF, 16);

    let big = Layout { size: 4096, align: DEFAULT_ALIGNMENT };
    let grown = w.ask(|o| grow(o, block.ptr, small, big).ok()).expect("growth never fails here");
    w.relocate(block.ptr, grown.ptr, grown.copied);
    assert!(w.holds(grown.ptr, 0xEF, 16));

    let shrunk = shrink(&mut w.orisnik, grown.ptr, big, small).expect("shrink never fails here");
    assert_eq!(
        shrunk.ptr, grown.ptr,
        "shrinking in place must not move the block"
    );

    deallocate(&mut w.orisnik, shrunk.ptr, small);
    w.purge();
    assert_eq!(w.orisnik.allocated(), 0);
}

/// A growable array of `u32` whose elements lie in allocated memory.
struct Array {
    block: Option<(u64, Layout)>,
    len: u64,
}

impl Array {
    fn layout(capacity: u64) -> Layout {
        Layout { size: capacity * 4, align: 4 }
    }

    fn push(&mut self, w: &mut World, value: u32) {
        let capacity = self.block.map_or(0, |(_, l)| l.size / 4);
        if self.len == capacity {
            let new = Self::layout((2 * capacity).max(4));
            let ptr = match self.block {
                None => w.ask(|o| allocate(o, new).ok()).expect("mapped").ptr,
                Some((ptr, old)) => {
                    let r = w.ask(|o| grow(o, ptr, old, new).ok()).expect("mapped");
                    w.relocate(ptr, r.ptr, r.copied);
                    r.ptr
                }
            };
            self.block = Some((ptr, new));
        }
        let (ptr, _) = self.block.expect("has room");
        w.bytes(ptr + self.len * 4, 4).copy_from_slice(&value.to_le_bytes());
        self.len += 1;
    }

    fn get(&self, w: &mut World, i: u64) -> u32 {
        let (ptr, _) = self.block.expect("has elements");
        let b = w.bytes(ptr + i * 4, 4);
        u32::from_le_bytes([b[0], b[1], b[2], b[3]])
    }
}

#[test]
fn vec_new_in_round_trips_through_orisnik() {
    let mut w = World::new();
    let mut v = Array { block: None, len: 0 };
    for i in 0..2000u32 {
        v.push(&mut w, i);
    }
    assert_eq!(v.len, 2000);
    assert_eq!(v.get(&mut w, 1999), 1999);
    for i in 0..2000u32 {
        assert_eq!(v.get(&mut w, u64::from(i)), i);
    }
    let (ptr, layout) = v.block.expect("has elements");
    deallocate(&mut w.orisnik, ptr, layout);
    w.purge();
    assert_eq!(w.orisnik.allocated(), 0);
}

#[test]
fn containers_grow_from_and_shrink_to_nothing() {
    let mut w = World::new();
    let nothing = Layout { size: 0, align: 16 };
    let some = Layout { size: 40, align: 16 };
    let empty = allocate_zeroed(&mut w.orisnik, nothing).expect("zero-size must succeed");
    assert_eq!(empty, Memory { ptr: 16, len: 0, copied: 0, zeroed: 0 });
    let block = w.ask(|o| grow(o, empty.ptr, nothing, some).ok()).expect("mapped");
    assert_eq!(block.ptr % 16, 0);
    assert_eq!((block.len, block.copied), (40, 0));
    assert!(w.orisnik.is_live(block.ptr));
    let gone = shrink(&mut w.orisnik, block.ptr, some, nothing).expect("shrinking never fails");
    assert_eq!(gone, Memory { ptr: 16, len: 0, copied: 0, zeroed: 0 });
    assert!(!w.orisnik.is_live(block.ptr));
    assert_eq!(
        shrink(&mut w.orisnik, 16, nothing, nothing),
        Ok(Memory { ptr: 16, len: 0, copied: 0, zeroed: 0 })
    );
}

#[test]
fn containers_see_an_error_where_there_is_no_answer() {
    let mut w = World::new();
    let layout = Layout { size: 40, align: 16 };
    assert_eq!(allocate(&mut w.orisnik, layout), Err(AllocError));
    assert_eq!(allocate_zeroed(&mut w.orisnik, layout), Err(AllocError));
    let block = w.ask(|o| allocate(o, layout).ok()).expect("mapped");
    let huge = Layout { size: u64::MAX, align: 16 };
    assert_eq!(grow(&mut w.orisnik, block.ptr, layout, huge), Err(AllocError));
    assert!(w.orisnik.is_live(block.ptr));
}

#[test]
fn zeroed_requests_tell_which_bytes_to_clear() {
    let mut w = World::new();
    for (size, align) in [(1, 1), (40, 8), (96, 256), (300, 8), (5000, 4096)] {
        let layout = Layout { size, align };
        let dirty = w.ask(|o| non_null(alloc_layout(o, layout))).expect("mapped");
        w.fill(dirty, 0xFF, size);
        dealloc(&mut w.orisnik, dirty);

        let m = w.ask(|o| allocate_zeroed(o, layout).ok()).expect("mapped");
        assert_eq!((m.len, m.copied, m.zeroed), (size, 0, size));
        assert_eq!(m.ptr % align, 0);
        w.fill(m.ptr, 0, m.zeroed);
        assert!(w.holds(m.ptr, 0, size));

        let plain = w.ask(|o| allocate(o, layout).ok()).expect("mapped");
        assert_eq!((plain.len, plain.zeroed), (size, 0));
    }
    let z = alloc_zeroed(&mut w.orisnik, Layout { size: u64::MAX, align: 8 });
    assert_eq!((z.ptr, z.len), (NULL, 0));
}
