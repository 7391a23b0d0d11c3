//! Mappings that the allocator takes over and gives back.

use orisnik::os::{request_len, window, Mapping, Os, ADDRESS_LIMIT, PAGE_SIZE};

/// A system that hands out fresh address ranges, and their bytes.
struct System {
    next: u64,
}

impl System {
    fn new() -> Self {
        System { next: 0x7000_0123_4000 }
    }

    /// Maps `size` bytes by asking for more and cutting off both ends.
    fn map(&mut self, size: u64) -> u64 {
        let request = request_len(size).expect("the request fits");
        let raw = self.next;
        self.next += request + 0x1000;
        let w = window(raw, size);
        assert_eq!(w.base, raw + w.head_len);
        assert_eq!(w.head_len + size + w.tail_len, request);
        w.base
    }
}

/// Maps `size` bytes through `os`.
fn mapped(os: &mut Os, system: &mut System, size: u64) -> u64 {
    assert_eq!(os.map(size), None);
    assert_eq!(os.take_wanted(), Some(size));
    let base = system.map(size);
    assert!(os.grant(base, size));
    let ptr = os.map(size).expect("the grant serves it");
    assert_eq!(ptr, base);
    ptr
}

#[test]
fn map_returns_page_size_aligned_memory() {
    let mut os = Os::new();
    let mut system = System::new();
    let ptr = mapped(&mut os, &mut system, PAGE_SIZE);
    assert_eq!(ptr % PAGE_SIZE, 0);
    os.unmap(ptr, PAGE_SIZE);
    assert_eq!(os.take_released(), vec![Mapping { base: ptr, len: PAGE_SIZE }]);
}

#[test]
fn map_multi_page_region_is_writable_end_to_end() {
    let mut os = Os::new();
    let mut system = System::new();
    let size = PAGE_SIZE * 3;
    let ptr = mapped(&mut os, &mut system, size);
    assert_eq!(ptr % PAGE_SIZE, 0);
    let mut bytes = vec![0u8; size as usize];
    bytes.fill(0xAB);
    assert!(bytes.iter().all(|&b| b == 0xAB));
    os.unmap(ptr, size);
    assert_eq!(os.take_released(), vec![Mapping { base: ptr, len: size }]);
}

#[test]
fn repeated_map_unmap_cycles_stay_aligned() {
    let mut os = Os::new();
    let mut system = System::new();
    for _ in 0..8 {
        let ptr = mapped(&mut os, &mut system, PAGE_SIZE);
        assert_eq!(ptr % PAGE_SIZE, 0);
        os.unmap(ptr, PAGE_SIZE);
    }
    assert_eq!(os.take_released().len(), 8);
    assert!(os.take_released().is_empty());
}

#[test]
fn concurrent_live_mappings_do_not_alias() {
    let mut os = Os::new();
    let mut system = System::new();
    let a = mapped(&mut os, &mut system, PAGE_SIZE);
    let b = mapped(&mut os, &mut system, PAGE_SIZE);
    assert_ne!(a, b);
    assert!(!(a < b + PAGE_SIZE && b < a + PAGE_SIZE));
    os.unmap(a, PAGE_SIZE);
    os.unmap(b, PAGE_SIZE);
}

#[test]
fn a_grant_must_be_whole_fresh_pages() {
    let mut os = Os::new();
    assert!(!os.grant(0, PAGE_SIZE), "the null page");
    assert!(!os.grant(PAGE_SIZE, 0), "no length");
    assert!(!os.grant(PAGE_SIZE + 1, PAGE_SIZE), "no page boundary");
    assert!(!os.grant(PAGE_SIZE, PAGE_SIZE + 1), "no whole pages");
    let last = ADDRESS_LIMIT - (PAGE_SIZE - 1);
    assert!(!os.grant(last, PAGE_SIZE), "its end is no address");
    assert!(!os.grant(last - PAGE_SIZE, 2 * PAGE_SIZE), "its end is no address");
    assert!(os.grant(4 * PAGE_SIZE, 2 * PAGE_SIZE));
    assert!(!os.grant(5 * PAGE_SIZE, PAGE_SIZE), "overlaps");
    assert!(!os.grant(3 * PAGE_SIZE, 2 * PAGE_SIZE), "overlaps");
    assert!(os.grant(6 * PAGE_SIZE, PAGE_SIZE));
    assert!(os.grant(last - PAGE_SIZE, PAGE_SIZE));
    assert!(os.grant(1 << 63, PAGE_SIZE));
}

#[test]
fn a_grant_of_another_length_does_not_serve() {
    let mut os = Os::new();
    assert!(os.grant(PAGE_SIZE, PAGE_SIZE));
    assert_eq!(os.map(2 * PAGE_SIZE), None);
    assert_eq!(os.take_wanted(), Some(2 * PAGE_SIZE));
    assert_eq!(os.take_wanted(), None);
    assert_eq!(os.map(PAGE_SIZE), Some(PAGE_SIZE));
}

#[test]
fn the_window_is_cut_out_of_what_was_asked_for() {
    assert_eq!(request_len(PAGE_SIZE), Some(2 * PAGE_SIZE));
    assert_eq!(request_len(u64::MAX), None);
    assert_eq!(request_len(u64::MAX - PAGE_SIZE), Some(u64::MAX));
    let aligned = window(3 * PAGE_SIZE, PAGE_SIZE);
    assert_eq!((aligned.base, aligned.head_len, aligned.tail_len), (3 * PAGE_SIZE, 0, PAGE_SIZE));
    let shifted = window(3 * PAGE_SIZE + 4096, PAGE_SIZE);
    assert_eq!(
        (shifted.base, shifted.head_len, shifted.tail_len),
        (4 * PAGE_SIZE, PAGE_SIZE - 4096, 4096)
    );
}
