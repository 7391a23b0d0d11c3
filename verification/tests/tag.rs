//! Links that carry two flags.

use orisnik::tag::{TaggedPtr, BIT_COLOUR, BIT_SIDE};

const BIT_SIDE_MASK: u64 = 1 << BIT_SIDE;

#[test]
fn new_and_ptr_roundtrip_with_no_bits() {
    let t = TaggedPtr::new(0x1000, 0);
    assert_eq!(t.ptr(), 0x1000);
    assert!(!t.bit(BIT_COLOUR));
    assert!(!t.bit(BIT_SIDE));
}

#[test]
fn new_packs_initial_bits() {
    let t = TaggedPtr::new(0x2000, 0b11);
    assert_eq!(t.ptr(), 0x2000);
    assert!(t.bit(BIT_COLOUR));
    assert!(t.bit(BIT_SIDE));
}

#[test]
fn set_and_clear_bit_independent() {
    let mut t = TaggedPtr::new(0x3000, 0);
    t.set_bit(BIT_COLOUR);
    assert!(t.bit(BIT_COLOUR));
    assert!(!t.bit(BIT_SIDE));
    t.set_bit(BIT_SIDE);
    assert!(t.bit(BIT_COLOUR));
    assert!(t.bit(BIT_SIDE));
    t.clear_bit(BIT_COLOUR);
    assert!(!t.bit(BIT_COLOUR));
    assert!(t.bit(BIT_SIDE));
    assert_eq!(t.ptr(), 0x3000);
}

#[test]
fn set_ptr_preserves_tag_bits() {
    let mut t = TaggedPtr::new(0x4000, BIT_SIDE_MASK);
    t.set_ptr(0x5000);
    assert_eq!(t.ptr(), 0x5000);
    assert!(!t.bit(BIT_COLOUR));
    assert!(t.bit(BIT_SIDE));
}

#[test]
fn null_pointer_roundtrips_with_bits() {
    let mut t = TaggedPtr::new(0, 0);
    assert_eq!(t.ptr(), 0);
    t.set_bit(BIT_COLOUR);
    assert_eq!(t.ptr(), 0);
    assert!(t.bit(BIT_COLOUR));
}

#[test]
fn the_null_link_has_no_flags() {
    let t = TaggedPtr::null();
    assert_eq!(t.ptr(), 0);
    assert!(!t.bit(BIT_COLOUR));
    assert!(!t.bit(BIT_SIDE));
}
