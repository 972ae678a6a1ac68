//! Single-limb primitives: multiply with carry, add with carry and
//! subtract with borrow, from which every multi-limb algorithm of this
//! crate is built, and the masks and selections that stand in for
//! branches.

use vstd::prelude::*;

verus! {

/// The limb base, 2^64.
pub open spec fn base() -> int {
    0x1_0000_0000_0000_0000
}

/// The low limb of a double-width value: its residue modulo 2^64.
#[verifier::opaque]
pub open spec fn low_half(x: int) -> int {
    x % 0x1_0000_0000_0000_0000
}

/// The high limb of a double-width value: its quotient by 2^64.
#[verifier::opaque]
pub open spec fn high_half(x: int) -> int {
    x / 0x1_0000_0000_0000_0000
}

/// A value is its low half plus 2^64 times its high half.
pub proof fn lemma_halves(x: int)
    ensures
        low_half(x) + base() * high_half(x) == x,
        0 <= low_half(x) < base(),
        0 <= x ==> 0 <= high_half(x),
{
    reveal(low_half);
    reveal(high_half);
}

/// The halves of a value are the only limb and multiplier that make it up.
pub proof fn lemma_halves_unique(x: int, low: int, high: int)
    requires
        0 <= low < base(),
        low + base() * high == x,
    ensures
        low_half(x) == low,
        high_half(x) == high,
{
    reveal(low_half);
    reveal(high_half);
}

/// A value that fits in a limb is its own low half.
pub proof fn lemma_small_half(x: int)
    requires
        0 <= x < base(),
    ensures
        low_half(x) == x,
        high_half(x) == 0,
{
    lemma_halves_unique(x, x, 0);
}

/// The product of two limbs plus a carry limb fits in two limbs.
pub proof fn lemma_mul_carry_fits(a: u64, b: u64, c: u64)
    ensures
        0 <= a * b <= 0xffff_ffff_ffff_fffe_0000_0000_0000_0001,
        a * b + c <= 0xffff_ffff_ffff_ffff_0000_0000_0000_0000,
        a * b + c <= u128::MAX,
{
    assert(0 <= a * b && a * b <= 0xffff_ffff_ffff_ffff * 0xffff_ffff_ffff_ffff)
        by (nonlinear_arith)
        requires
            0 <= a <= 0xffff_ffff_ffff_ffff,
            0 <= b <= 0xffff_ffff_ffff_ffff,
    ;
}

/// Splits a double-width value into its low and high limbs.
pub fn split(x: u128) -> (r: (u64, u64))
    ensures
        r.0 + base() * r.1 == x,
{
    let low: u64 = (x & 0xffff_ffff_ffff_ffff) as u64;
    let high: u64 = (x >> 64) as u64;
    assert((x & 0xffff_ffff_ffff_ffff) + 0x1_0000_0000_0000_0000 * (x >> 64) == x
        && (x & 0xffff_ffff_ffff_ffff) <= 0xffff_ffff_ffff_ffff
        && (x >> 64) <= 0xffff_ffff_ffff_ffff) by (bit_vector);
    (low, high)
}

/// Computes `a * b + carry_in` as a double-width value and returns its low
/// and high limbs.
pub fn mul_with_carry(a: u64, b: u64, carry_in: u64) -> (r: (u64, u64))
    ensures
        r.0 + base() * r.1 == a * b + carry_in,
{
    proof {
        lemma_mul_carry_fits(a, b, carry_in);
    }
    let product: u128 = (a as u128) * (b as u128) + (carry_in as u128);
    split(product)
}

/// Computes `a + b + carry_in` and returns the low limb and the carry out.
pub fn add_with_carry(a: u64, b: u64, carry_in: u64) -> (r: (u64, u64))
    ensures
        r.0 + base() * r.1 == a + b + carry_in,
        r.1 <= 2,
{
    let sum: u128 = (a as u128) + (b as u128) + (carry_in as u128);
    split(sum)
}

/// Computes `a - b - borrow_in` modulo 2^64 and returns the difference limb
/// and the borrow out: the number of times 2^64 was added to reach a limb.
pub fn sub_with_borrow(a: u64, b: u64, borrow_in: u64) -> (r: (u64, u64))
    ensures
        r.0 - base() * r.1 == a - b - borrow_in,
        r.1 <= 2,
        borrow_in <= 1 ==> r.1 <= 1,
{
    let lifted: u128 = (a as u128) + 0x2_0000_0000_0000_0000u128 - (b as u128)
        - (borrow_in as u128);
    let (low, high): (u64, u64) = split(lifted);
    (low, 2 - high)
}

/// Spreads a flag into a mask: all zeros for 0, all ones for 1. In general
/// the mask is the negation of the flag modulo 2^64.
pub fn mask_from_flag(flag: u64) -> (mask: u64)
    ensures
        mask as int == if flag == 0 { 0 } else { base() - flag },
        flag == 0 ==> mask == 0,
        flag == 1 ==> mask == u64::MAX,
{
    0u64.wrapping_sub(flag)
}

/// Blends two limbs bit by bit: the bits of `on_set` where the mask has a
/// one, those of `on_clear` where it has a zero. With a mask of all ones
/// or all zeros this selects one of the two without a branch.
pub fn select(mask: u64, on_set: u64, on_clear: u64) -> (r: u64)
    ensures
        r == (on_set & mask) | (on_clear & !mask),
        mask == 0 ==> r == on_clear,
        mask == u64::MAX ==> r == on_set,
{
    let r: u64 = (on_set & mask) | (on_clear & !mask);
    assert(mask == 0 ==> (on_set & mask) | (on_clear & !mask) == on_clear) by (bit_vector);
    assert(mask == 0xffff_ffff_ffff_ffff ==> (on_set & mask) | (on_clear & !mask) == on_set)
        by (bit_vector);
    r
}

/// Keeps the bits of `x` where the mask has a one: all of `x` under a mask
/// of all ones, nothing under a mask of all zeros.
pub fn keep(mask: u64, x: u64) -> (r: u64)
    ensures
        r == x & mask,
        mask == 0 ==> r == 0,
        mask == u64::MAX ==> r == x,
{
    let r: u64 = x & mask;
    assert(mask == 0 ==> x & mask == 0) by (bit_vector);
    assert(mask == 0xffff_ffff_ffff_ffff ==> x & mask == x) by (bit_vector);
    r
}

/// The flag that tells whether a limb is nonzero: 1 if it is, else 0,
/// computed without a comparison, as the carry out of `x + (2^64 - 1)`.
pub fn nonzero_flag(x: u64) -> (flag: u64)
    ensures
        flag == if x == 0 { 0u64 } else { 1u64 },
{
    let (low, high): (u64, u64) = split((x as u128) + 0xffff_ffff_ffff_ffffu128);
    high
}

/// The bitwise OR of two limbs, which is zero exactly when both are.
pub fn either(x: u64, y: u64) -> (r: u64)
    ensures
        r == x | y,
        r == 0 <==> (x == 0 && y == 0),
{
    let r: u64 = x | y;
    assert((x | y) == 0 <==> (x == 0 && y == 0)) by (bit_vector);
    r
}

} // verus!
