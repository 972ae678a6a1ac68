//! The integer that a little-endian limb array stands for.

use vstd::prelude::*;
use vstd::arithmetic::div_mod::{
    lemma_fundamental_div_mod_converse, lemma_mod_multiples_vanish, lemma_small_mod,
};
use vstd::arithmetic::mul::lemma_mul_is_distributive_add;
use crate::limb::base;

verus! {

/// The weight of limb `k`: 2^(64 k).
pub open spec fn weight(k: nat) -> int
    decreases k,
{
    if k == 0 {
        1
    } else {
        base() * weight((k - 1) as nat)
    }
}

/// The value of the lowest `k` limbs of `s`: the sum of `s[i] * 2^(64 i)`
/// over `i < k`.
pub open spec fn limbs_val(s: Seq<u64>, k: nat) -> int
    decreases k,
{
    if k == 0 {
        0
    } else {
        limbs_val(s, (k - 1) as nat) + weight((k - 1) as nat) * s[k - 1]
    }
}

/// The value of the limbs `from..to` of `s`, with limb `from` at weight 1.
pub open spec fn upper_val(s: Seq<u64>, from: nat, to: nat) -> int
    decreases to - from,
{
    if from >= to {
        0
    } else {
        s[from as int] + base() * upper_val(s, from + 1, to)
    }
}

/// 2^256, the value one past the largest four-limb integer. It is also the
/// Montgomery radix `R`.
pub open spec fn radix() -> int {
    0x1_0000_0000_0000_0000_0000_0000_0000_0000_0000_0000_0000_0000_0000_0000_0000_0000int
}

/// The value of a four-limb integer.
pub open spec fn val4(a: [u64; 4]) -> int {
    a[0] + 0x1_0000_0000_0000_0000 * a[1] + 0x1_0000_0000_0000_0000_0000_0000_0000_0000int * a[2]
        + 0x1_0000_0000_0000_0000_0000_0000_0000_0000_0000_0000_0000_0000int * a[3]
}

/// The value of an eight-limb integer.
pub open spec fn val8(w: [u64; 8]) -> int {
    limbs_val(w@, 8)
}

/// The weights of the first five limbs.
pub proof fn lemma_weights()
    ensures
        weight(0) == 1,
        weight(1) == 0x1_0000_0000_0000_0000,
        weight(2) == 0x1_0000_0000_0000_0000_0000_0000_0000_0000int,
        weight(3) == 0x1_0000_0000_0000_0000_0000_0000_0000_0000_0000_0000_0000_0000int,
        weight(4) == radix(),
{
    reveal_with_fuel(weight, 5);
}

/// Every weight is positive, and the next is 2^64 times as large.
pub proof fn lemma_weight_positive(k: nat)
    ensures
        weight(k) > 0,
        weight(k + 1) == base() * weight(k),
    decreases k,
{
    if k > 0 {
        lemma_weight_positive((k - 1) as nat);
        let w: int = weight((k - 1) as nat);
        assert(base() * w > 0) by (nonlinear_arith)
            requires
                w > 0,
                base() == 0x1_0000_0000_0000_0000,
        ;
    }
}

/// The lowest `k` limbs stand for a value in `[0, 2^(64 k))`.
pub proof fn lemma_limbs_val_bound(s: Seq<u64>, k: nat)
    requires
        k <= s.len(),
    ensures
        0 <= limbs_val(s, k) < weight(k),
    decreases k,
{
    if k > 0 {
        let j: nat = (k - 1) as nat;
        lemma_limbs_val_bound(s, j);
        lemma_weight_positive(j);
        let w: int = weight(j);
        let x: int = s[j as int] as int;
        assert(0 <= w * x && w * x + w <= base() * w) by (nonlinear_arith)
            requires
                w > 0,
                0 <= x <= 0xffff_ffff_ffff_ffff,
                base() == 0x1_0000_0000_0000_0000,
        ;
    }
}

/// The value of the lowest `k` limbs depends on those limbs alone.
pub proof fn lemma_limbs_val_prefix(s1: Seq<u64>, s2: Seq<u64>, k: nat)
    requires
        forall|i: int| 0 <= i < k ==> s1[i] == s2[i],
    ensures
        limbs_val(s1, k) == limbs_val(s2, k),
    decreases k,
{
    if k > 0 {
        lemma_limbs_val_prefix(s1, s2, (k - 1) as nat);
    }
}

/// The two ways of writing a four-limb value agree.
pub proof fn lemma_val4_limbs(a: [u64; 4])
    ensures
        val4(a) == limbs_val(a@, 4),
        0 <= val4(a) < radix(),
{
    reveal_with_fuel(limbs_val, 5);
    lemma_weights();
    lemma_limbs_val_bound(a@, 4);
}

/// The lowest limb of a four-limb integer is its residue modulo 2^64.
pub proof fn lemma_low_limb(a: [u64; 4])
    ensures
        val4(a) % base() == a[0],
{
    let high: int = a[1] + 0x1_0000_0000_0000_0000 * a[2]
        + 0x1_0000_0000_0000_0000_0000_0000_0000_0000int * a[3];
    assert(val4(a) == base() * high + a[0]);
    lemma_mod_multiples_vanish(high, a[0] as int, base());
    lemma_small_mod(a[0] as nat, base() as nat);
}

/// The value of the lowest `n` limbs splits at any limb `k`: the value
/// below it, plus its weight times the value from it upward.
pub proof fn lemma_limbs_split(s: Seq<u64>, k: nat, n: nat)
    requires
        k <= n,
    ensures
        limbs_val(s, n) == limbs_val(s, k) + weight(k) * upper_val(s, k, n),
    decreases n - k,
{
    if k < n {
        lemma_limbs_split(s, k + 1, n);
        lemma_weight_positive(k);
        let w: int = weight(k);
        let x: int = s[k as int] as int;
        let above: int = upper_val(s, k + 1, n);
        assert(w * x + (base() * w) * above == w * (x + base() * above)) by (nonlinear_arith);
    } else {
        assert(weight(k) * 0 == 0);
    }
}

/// An eight-limb value is its lower half plus 2^256 times its upper half.
pub proof fn lemma_val8_split(w: [u64; 8])
    ensures
        val8(w) == limbs_val(w@, 4) + radix() * upper_val(w@, 4, 8),
        0 <= val8(w),
{
    lemma_limbs_split(w@, 4, 8);
    lemma_weights();
    lemma_limbs_val_bound(w@, 8);
}

/// A multiple of a four-limb value, limb by limb.
pub proof fn lemma_scale_val4(d: int, a: [u64; 4])
    ensures
        d * val4(a) == d * a[0] + 0x1_0000_0000_0000_0000 * (d * a[1])
            + 0x1_0000_0000_0000_0000_0000_0000_0000_0000int * (d * a[2])
            + 0x1_0000_0000_0000_0000_0000_0000_0000_0000_0000_0000_0000_0000int * (d * a[3]),
{
    let a1: int = a[1] as int;
    let a2: int = a[2] as int;
    let a3: int = a[3] as int;
    let s1: int = 0x1_0000_0000_0000_0000 * a1;
    let s2: int = 0x1_0000_0000_0000_0000_0000_0000_0000_0000int * a2;
    let s3: int = 0x1_0000_0000_0000_0000_0000_0000_0000_0000_0000_0000_0000_0000int * a3;
    assert(d * (0x1_0000_0000_0000_0000 * a1) == 0x1_0000_0000_0000_0000 * (d * a1))
        by (nonlinear_arith);
    assert(d * (0x1_0000_0000_0000_0000_0000_0000_0000_0000int * a2)
        == 0x1_0000_0000_0000_0000_0000_0000_0000_0000int * (d * a2)) by (nonlinear_arith);
    assert(d * (0x1_0000_0000_0000_0000_0000_0000_0000_0000_0000_0000_0000_0000int * a3)
        == 0x1_0000_0000_0000_0000_0000_0000_0000_0000_0000_0000_0000_0000int * (d * a3))
        by (nonlinear_arith);
    lemma_mul_is_distributive_add(d, a[0] + s1 + s2, s3);
    lemma_mul_is_distributive_add(d, a[0] + s1, s2);
    lemma_mul_is_distributive_add(d, a[0] as int, s1);
}

/// A limb and what stands above it are determined by their sum.
proof fn lemma_split_unique(x0: int, hx: int, y0: int, hy: int)
    requires
        0 <= x0 < base(),
        0 <= y0 < base(),
        x0 + base() * hx == y0 + base() * hy,
    ensures
        x0 == y0,
        hx == hy,
{
    lemma_fundamental_div_mod_converse(x0 + base() * hx, base(), hx, x0);
    lemma_fundamental_div_mod_converse(y0 + base() * hy, base(), hy, y0);
}

/// Four-limb integers with the same value have the same limbs.
pub proof fn lemma_val4_injective(a: [u64; 4], b: [u64; 4])
    requires
        val4(a) == val4(b),
    ensures
        a == b,
{
    let a2: int = a[2] + 0x1_0000_0000_0000_0000 * a[3];
    let b2: int = b[2] + 0x1_0000_0000_0000_0000 * b[3];
    let a1: int = a[1] + 0x1_0000_0000_0000_0000 * a2;
    let b1: int = b[1] + 0x1_0000_0000_0000_0000 * b2;
    lemma_split_unique(a[0] as int, a1, b[0] as int, b1);
    lemma_split_unique(a[1] as int, a2, b[1] as int, b2);
    lemma_split_unique(a[2] as int, a[3] as int, b[2] as int, b[3] as int);
    assert(a@ =~= b@);
}

} // verus!
