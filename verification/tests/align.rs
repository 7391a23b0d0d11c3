//! Rounding of values and addresses.

use orisnik::align::{align_down, align_up, round_down, round_up};

#[test]
fn round_down_multiple_is_identity() {
    assert_eq!(round_down(64, 64), 64);
    assert_eq!(round_down(128, 64), 128);
}

#[test]
fn round_down_clears_low_bits() {
    assert_eq!(round_down(65, 64), 64);
    assert_eq!(round_down(1, 64), 0);
    assert_eq!(round_down(63, 8), 56);
}

#[test]
fn round_up_multiple_is_identity() {
    assert_eq!(round_up(64, 64), 64);
    assert_eq!(round_up(0, 64), 0);
}

#[test]
fn round_up_crosses_to_next_multiple() {
    assert_eq!(round_up(65, 64), 128);
    assert_eq!(round_up(1, 8), 8);
    assert_eq!(round_up(9, 8), 16);
}

#[test]
fn align_down_up_pointer_roundtrip() {
    let ptr = 0x1_2345;
    assert_eq!(align_down(ptr, 0x1000), 0x1_2000);
    assert_eq!(align_up(ptr, 0x1000), 0x1_3000);
}

#[test]
fn align_down_up_already_aligned() {
    let ptr = 0x1_0000;
    assert_eq!(align_down(ptr, 0x1000), 0x1_0000);
    assert_eq!(align_up(ptr, 0x1000), 0x1_0000);
}

#[test]
fn an_alignment_of_one_changes_nothing() {
    for v in [0, 1, 7, u64::MAX] {
        assert_eq!(round_down(v, 1), v);
        assert_eq!(round_up(v, 1), v);
    }
}

#[test]
fn the_largest_values_round_without_wrapping() {
    assert_eq!(round_down(u64::MAX, 1 << 63), 1 << 63);
    assert_eq!(round_up((1 << 63) - 1, 1 << 63), 1 << 63);
    assert_eq!(round_up(u64::MAX - 7, 8), u64::MAX - 7);
}
