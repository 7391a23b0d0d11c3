//! Rounding sizes and addresses to powers of two.

use vstd::arithmetic::{div_mod, power, power2};
use vstd::bits;
use vstd::prelude::*;

verus! {

/// The largest multiple of `align` that is not above `value`.
pub open spec fn rounded_down(value: int, align: int) -> int {
    value - value % align
}

/// The smallest multiple of `align` that is not below `value`.
pub open spec fn rounded_up(value: int, align: int) -> int {
    rounded_down(value + align - 1, align)
}

/// Masking with `align - 1` takes the remainder by `align`.
pub proof fn lemma_mask_is_mod(value: u64, align: u64)
    requires
        power2::is_pow2(align as int),
    ensures
        align > 0,
        value & (align - 1) as u64 == value % align,
{
    power2::is_pow2_equiv(align as int);
    let n = choose|n: nat| power::pow(2, n) == align;
    power2::lemma_pow2(n);
    power2::lemma_pow2_pos(n);
    if n >= 64 {
        power2::lemma2_to64();
        power2::lemma2_to64_rest();
        if n > 64 {
            power2::lemma_pow2_strictly_increases(64, n);
        }
    }
    bits::lemma_u64_low_bits_mask_is_mod(value, n);
}

/// What rounding down gives: a multiple, at most one step below.
pub proof fn lemma_rounded_down(value: int, align: int)
    requires
        align > 0,
    ensures
        rounded_down(value, align) % align == 0,
        rounded_down(value, align) <= value < rounded_down(value, align) + align,
        value % align == 0 ==> rounded_down(value, align) == value,
{
    div_mod::lemma_fundamental_div_mod(value, align);
    div_mod::lemma_mod_multiples_vanish(value / align, 0, align);
    div_mod::lemma_small_mod(0, align as nat);
    assert(rounded_down(value, align) == align * (value / align) + 0);
    div_mod::lemma_mod_bound(value, align);
}

/// What rounding up gives: a multiple, less than one step above.
pub proof fn lemma_rounded_up(value: int, align: int)
    requires
        align > 0,
    ensures
        rounded_up(value, align) % align == 0,
        value <= rounded_up(value, align) < value + align,
        value % align == 0 ==> rounded_up(value, align) == value,
{
    lemma_rounded_down(value + align - 1, align);
    if value % align == 0 {
        div_mod::lemma_fundamental_div_mod(value, align);
        div_mod::lemma_mod_multiples_vanish(value / align, align - 1, align);
        div_mod::lemma_small_mod((align - 1) as nat, align as nat);
    }
}

/// What is missing to the next multiple is what the remainder leaves of `align`.
pub proof fn lemma_gap(value: int, align: int)
    requires
        align > 0,
    ensures
        rounded_up(value, align) - value == if value % align == 0 {
            0
        } else {
            align - value % align
        },
{
    lemma_rounded_up(value, align);
    let r = rounded_up(value, align);
    if value % align != 0 {
        div_mod::lemma_fundamental_div_mod(value, align);
        div_mod::lemma_fundamental_div_mod(r, align);
        let q = value / align;
        let k = r / align;
        assert(k == q + 1) by (nonlinear_arith)
            requires
                r == align * k,
                value == align * q + value % align,
                0 < value % align < align,
                value <= r < value + align,
                align > 0,
        ;
        assert(align * (q + 1) == align * q + align) by (nonlinear_arith);
    }
}

/// Rounds `value` down to a multiple of `align`.
pub fn round_down(value: u64, align: u64) -> (r: u64)
    requires
        power2::is_pow2(align as int),
    ensures
        r == rounded_down(value as int, align as int),
        r % align == 0,
        r <= value < r + align,
{
    proof {
        lemma_mask_is_mod(value, align);
        lemma_rounded_down(value as int, align as int);
        let m = (align - 1) as u64;
        assert(value & !m == value - (value & m)) by (bit_vector);
    }
    value & !(align - 1)
}

/// Rounds `value` up to a multiple of `align`.
pub fn round_up(value: u64, align: u64) -> (r: u64)
    requires
        power2::is_pow2(align as int),
        value + (align - 1) <= u64::MAX,
    ensures
        r == rounded_up(value as int, align as int),
        r % align == 0,
        value <= r < value + align,
{
    proof {
        lemma_mask_is_mod(value, align);
        lemma_rounded_up(value as int, align as int);
    }
    round_down(value + (align - 1), align)
}

/// Rounds an address down to a multiple of `align`.
pub fn align_down(ptr: u64, align: u64) -> (r: u64)
    requires
        power2::is_pow2(align as int),
    ensures
        r == rounded_down(ptr as int, align as int),
        r % align == 0,
        r <= ptr < r + align,
{
    round_down(ptr, align)
}

/// Rounds an address up to a multiple of `align`.
pub fn align_up(ptr: u64, align: u64) -> (r: u64)
    requires
        power2::is_pow2(align as int),
        ptr + (align - 1) <= u64::MAX,
    ensures
        r == rounded_up(ptr as int, align as int),
        r % align == 0,
        ptr <= r < ptr + align,
{
    round_up(ptr, align)
}

} // verus!
