//! The mathematics of the field: residues modulo an odd modulus, the
//! inverse of the Montgomery radix, and what one reduction step computes.

use vstd::prelude::*;
use vstd::arithmetic::div_mod::{
    lemma_add_mod_noop, lemma_fundamental_div_mod, lemma_fundamental_div_mod_converse,
    lemma_mod_add_multiples_vanish,
    lemma_mod_bound, lemma_mod_multiples_vanish, lemma_mul_mod_noop_general, lemma_small_mod,
};
use vstd::arithmetic::power2::{
    lemma2_to64, lemma2_to64_rest, lemma_pow2_adds, lemma_pow2_unfold, pow2,
};
use crate::limb::base;
use crate::value::{
    lemma_limbs_val_bound, lemma_val4_limbs, lemma_weight_positive, lemma_weights, limbs_val,
    radix, val4, weight,
};

verus! {

/// A modulus that the engine accepts: odd, at least 3, and small enough that
/// the sum of two residues still fits in four limbs.
pub open spec fn valid_modulus(m: int) -> bool {
    &&& 3 <= m
    &&& m % 2 == 1
    &&& 2 * m <= radix()
}

/// `inv` is the Montgomery constant of a modulus whose lowest limb is `m0`:
/// `m0 * inv` is congruent to -1 modulo 2^64.
pub open spec fn valid_inv(m0: u64, inv: u64) -> bool {
    (m0 * inv) % base() == base() - 1
}

/// `x` is the canonical representative of its residue class modulo `m`.
pub open spec fn canonical(x: int, m: int) -> bool {
    0 <= x < m
}

/// The sum of two residues.
pub open spec fn add_mod(x: int, y: int, m: int) -> int {
    (x + y) % m
}

/// The difference of two residues.
pub open spec fn sub_mod(x: int, y: int, m: int) -> int {
    (x - y) % m
}

/// Twice a residue.
pub open spec fn double_mod(x: int, m: int) -> int {
    (2 * x) % m
}

/// The additive inverse of a residue.
pub open spec fn neg_mod(x: int, m: int) -> int {
    (0 - x) % m
}

/// `k` is the canonical inverse of the radix 2^256 modulo `m`.
pub open spec fn is_radix_inverse(k: int, m: int) -> bool {
    0 <= k < m && (k * radix()) % m == 1
}

/// The inverse of the radix 2^256 modulo `m`. It exists for every odd
/// modulus of at least 3.
pub open spec fn radix_inverse(m: int) -> int {
    choose|k: int| is_radix_inverse(k, m)
}

/// The Montgomery reduction of `w`: the residue of `w / 2^256`.
pub open spec fn mont_reduce(w: int, m: int) -> int {
    (w * radix_inverse(m)) % m
}

/// The Montgomery product of `x` and `y`: the residue of `x * y / 2^256`.
pub open spec fn mont_mul(x: int, y: int, m: int) -> int {
    mont_reduce(x * y, m)
}

/// The Montgomery square of `x`: the Montgomery product of `x` with itself.
pub open spec fn mont_square(x: int, m: int) -> int {
    mont_mul(x, x, m)
}

/// The Montgomery form of 1: the residue of 2^256.
pub open spec fn mont_one(m: int) -> int {
    radix() % m
}

/// The Montgomery form of the standard-form residue `x`.
pub open spec fn to_mont(x: int, m: int) -> int {
    (x * radix()) % m
}

/// The quotient digit of one reduction step on `t`: the limb `d` for which
/// `t + d * m` is a multiple of 2^64.
pub open spec fn redc_digit(t: int, inv: u64) -> int {
    ((t % base()) * inv) % base()
}

/// One reduction step: `t` plus the multiple of `m` that clears its lowest
/// limb, divided by 2^64.
pub open spec fn redc_step(t: int, m: int, inv: u64) -> int {
    (t + redc_digit(t, inv) * m) / base()
}

/// The radix and the limb base as powers of two.
pub proof fn lemma_radix_is_pow2()
    ensures
        radix() == pow2(256),
        base() == pow2(64),
{
    lemma2_to64_rest();
    lemma_pow2_adds(64, 64);
    lemma_pow2_adds(128, 128);
    assert(pow2(64) == 0x1_0000_0000_0000_0000);
    assert(pow2(128) == 0x1_0000_0000_0000_0000_0000_0000_0000_0000int) by {
        assert(0x1_0000_0000_0000_0000int * 0x1_0000_0000_0000_0000int
            == 0x1_0000_0000_0000_0000_0000_0000_0000_0000int) by (nonlinear_arith);
    }
    assert(pow2(256) == radix()) by {
        assert(0x1_0000_0000_0000_0000_0000_0000_0000_0000int
            * 0x1_0000_0000_0000_0000_0000_0000_0000_0000int == radix()) by (nonlinear_arith);
    }
}

/// A residue `k` with `k * 2^n` congruent to 1: the `n`-th power of the
/// inverse of 2, which is `(m + 1) / 2`.
pub open spec fn inverse_of_pow2(m: int, n: nat) -> int
    decreases n,
{
    if n == 0 {
        1
    } else {
        (inverse_of_pow2(m, (n - 1) as nat) * ((m + 1) / 2)) % m
    }
}

/// `inverse_of_pow2(m, n)` is a canonical inverse of 2^n modulo an odd `m`.
pub proof fn lemma_inverse_of_pow2(m: int, n: nat)
    requires
        3 <= m,
        m % 2 == 1,
    ensures
        0 <= inverse_of_pow2(m, n) < m,
        (inverse_of_pow2(m, n) * pow2(n)) % m == 1,
    decreases n,
{
    if n == 0 {
        lemma2_to64();
        lemma_small_mod(1, m as nat);
    } else {
        let n1: nat = (n - 1) as nat;
        let k: int = inverse_of_pow2(m, n1);
        let h: int = (m + 1) / 2;
        let p: int = pow2(n1) as int;
        lemma_inverse_of_pow2(m, n1);
        lemma_pow2_unfold(n);
        assert(pow2(n) == 2 * p);
        assert(2 * h == m + 1);
        lemma_mod_add_multiples_vanish(1, m);
        lemma_small_mod(1, m as nat);
        assert((2 * h) % m == 1);
        lemma_mod_bound(k * h, m);
        // ((k h) % m) * (2 p) is congruent to (k h) (2 p) = (k p) (2 h).
        lemma_mul_mod_noop_general(k * h, 2 * p, m);
        assert((k * h) * (2 * p) == (k * p) * (2 * h)) by (nonlinear_arith);
        lemma_mul_mod_noop_general(k * p, 2 * h, m);
        assert(((k * p) % m) * ((2 * h) % m) == 1);
    }
}

/// Every accepted modulus has an inverse of the radix, and `radix_inverse`
/// is one.
pub proof fn lemma_radix_inverse(m: int)
    requires
        3 <= m,
        m % 2 == 1,
    ensures
        is_radix_inverse(radix_inverse(m), m),
{
    lemma_inverse_of_pow2(m, 256);
    lemma_radix_is_pow2();
    assert(is_radix_inverse(inverse_of_pow2(m, 256), m));
}

/// Cancelling the radix: a canonical `r` with `r * 2^256` congruent to `w`
/// is the Montgomery reduction of `w`.
pub proof fn lemma_mont_reduce_unique(r: int, w: int, m: int)
    requires
        3 <= m,
        m % 2 == 1,
        0 <= r < m,
        (r * radix()) % m == w % m,
    ensures
        r == mont_reduce(w, m),
{
    let k: int = radix_inverse(m);
    lemma_radix_inverse(m);
    lemma_mul_mod_noop_general(w, k, m);
    lemma_mul_mod_noop_general(r * radix(), k, m);
    assert((w * k) % m == ((r * radix()) * k) % m);
    assert((r * radix()) * k == r * (k * radix())) by (nonlinear_arith);
    lemma_mul_mod_noop_general(r, k * radix(), m);
    assert((r * (k * radix())) % m == (r * 1) % m);
    lemma_small_mod(r as nat, m as nat);
}

/// One reduction step divides exactly: the chosen digit clears the lowest
/// limb.
pub proof fn lemma_redc_step(t: int, m: int, m0: u64, inv: u64)
    requires
        valid_inv(m0, inv),
        m % base() == m0 as int,
    ensures
        0 <= redc_digit(t, inv) < base(),
        redc_step(t, m, inv) * base() == t + redc_digit(t, inv) * m,
{
    let b: int = base();
    let t0: int = t % b;
    let d: int = redc_digit(t, inv);
    lemma_mod_bound(t0 * inv, b);
    // d * m is congruent to t0 * inv * m0, which is congruent to -t0.
    lemma_mul_mod_noop_general(t0 * inv, m, b);
    assert((d * m) % b == ((t0 * inv) * m) % b);
    lemma_mul_mod_noop_general(t0 * inv, m, b);
    assert(((t0 * inv) * m) % b == ((t0 * inv) * (m0 as int)) % b);
    assert((t0 * inv) * (m0 as int) == t0 * (m0 * inv)) by (nonlinear_arith);
    lemma_mul_mod_noop_general(t0, m0 * inv, b);
    assert((t0 * (m0 * inv)) % b == (t0 * (b - 1)) % b);
    assert(t0 * (b - 1) == b * t0 + (0 - t0)) by (nonlinear_arith);
    lemma_mod_multiples_vanish(t0, 0 - t0, b);
    assert((d * m) % b == (0 - t0) % b);
    lemma_add_mod_noop(t, d * m, b);
    lemma_add_mod_noop(t0, 0 - t0, b);
    assert((t + d * m) % b == 0);
    lemma_fundamental_div_mod(t + d * m, b);
}

/// One reduction step on a four-limb value fits in four limbs again.
pub proof fn lemma_redc_step_fits(t: int, m: int, m0: u64, inv: u64)
    requires
        valid_modulus(m),
        valid_inv(m0, inv),
        m % base() == m0 as int,
        0 <= t < radix(),
    ensures
        0 <= redc_step(t, m, inv) < radix(),
{
    lemma_redc_step(t, m, m0, inv);
    let d: int = redc_digit(t, inv);
    assert(0 <= d * m && d * m <= 0xffff_ffff_ffff_ffff * m) by (nonlinear_arith)
        requires
            0 <= d <= 0xffff_ffff_ffff_ffff,
            0 <= m,
    ;
}

/// The reduction of one value below `2 m` to the canonical range.
pub proof fn lemma_reduce_once(t: int, m: int, r: int)
    requires
        0 < m,
        0 <= t < 2 * m,
        r == if t < m { t } else { t - m },
    ensures
        r == t % m,
        canonical(r, m),
{
    if t < m {
        lemma_small_mod(t as nat, m as nat);
    } else {
        lemma_fundamental_div_mod_converse(t, m, 1, t - m);
    }
}

/// The difference of two canonical values, with the modulus added back
/// where it is negative.
pub proof fn lemma_sub_mod(x: int, y: int, m: int, r: int)
    requires
        0 < m,
        canonical(x, m),
        canonical(y, m),
        r == if x < y { x - y + m } else { x - y },
    ensures
        r == sub_mod(x, y, m),
        canonical(r, m),
{
    if x < y {
        lemma_fundamental_div_mod_converse(x - y, m, -1, x - y + m);
    } else {
        lemma_small_mod((x - y) as nat, m as nat);
    }
}

/// The negation of a canonical value: the modulus minus the value, but
/// zero for zero.
pub proof fn lemma_neg_mod(x: int, m: int, r: int)
    requires
        0 < m,
        canonical(x, m),
        r == if x == 0 { 0 } else { m - x },
    ensures
        r == neg_mod(x, m),
        canonical(r, m),
{
    if x == 0 {
        lemma_small_mod(0, m as nat);
    } else {
        lemma_fundamental_div_mod_converse(0 - x, m, -1, m - x);
    }
}

/// The accumulator of the interleaved multiplication of `a` by the limbs
/// `b` after `i` rounds: each round adds `a * b[i]` and takes one reduction
/// step.
pub open spec fn cios(a: int, b: Seq<u64>, m: int, inv: u64, i: nat) -> int
    decreases i,
{
    if i == 0 {
        0
    } else {
        redc_step(cios(a, b, m, inv, (i - 1) as nat) + a * b[i - 1], m, inv)
    }
}

/// The multiple of `m` that `i` rounds of the interleaved multiplication
/// have added.
pub open spec fn cios_quot(a: int, b: Seq<u64>, m: int, inv: u64, i: nat) -> int
    decreases i,
{
    if i == 0 {
        0
    } else {
        cios_quot(a, b, m, inv, (i - 1) as nat) + weight((i - 1) as nat) * redc_digit(
            cios(a, b, m, inv, (i - 1) as nat) + a * b[i - 1],
            inv,
        )
    }
}

/// `t` after `n` reduction steps.
pub open spec fn redc_n(t: int, m: int, inv: u64, n: nat) -> int
    decreases n,
{
    if n == 0 {
        t
    } else {
        redc_step(redc_n(t, m, inv, (n - 1) as nat), m, inv)
    }
}

/// The multiple of `m` that `n` reduction steps on `t` have added.
pub open spec fn redc_quot(t: int, m: int, inv: u64, n: nat) -> int
    decreases n,
{
    if n == 0 {
        0
    } else {
        redc_quot(t, m, inv, (n - 1) as nat) + weight((n - 1) as nat) * redc_digit(
            redc_n(t, m, inv, (n - 1) as nat),
            inv,
        )
    }
}

/// One round seen at weight `w`: if `c w = s + k m`, then after adding `x`
/// and one reduction step, `c' (2^64 w) = s + x w + (k + w d) m`.
proof fn lemma_round_scaled(c: int, x: int, m: int, m0: u64, inv: u64, w: int, s: int, k: int)
    requires
        valid_inv(m0, inv),
        m % base() == m0 as int,
        0 < w,
        0 <= k < w,
        c * w == s + k * m,
    ensures
        redc_step(c + x, m, inv) * (base() * w) == s + x * w + (k + w * redc_digit(c + x, inv))
            * m,
        0 <= k + w * redc_digit(c + x, inv) < base() * w,
{
    let b: int = base();
    let d: int = redc_digit(c + x, inv);
    let c2: int = redc_step(c + x, m, inv);
    lemma_redc_step(c + x, m, m0, inv);
    assert(c2 * (b * w) == (c2 * b) * w) by (nonlinear_arith);
    assert((c + x + d * m) * w == c * w + x * w + (w * d) * m) by (nonlinear_arith);
    assert(k * m + (w * d) * m == (k + w * d) * m) by (nonlinear_arith);
    assert(0 <= w * d && w * d + w <= b * w) by (nonlinear_arith)
        requires
            0 < w,
            0 <= d < b,
    ;
}

/// What `i` rounds of the interleaved multiplication have computed, as an
/// exact equation.
pub proof fn lemma_cios(a: int, b: Seq<u64>, m: int, m0: u64, inv: u64, i: nat)
    requires
        valid_inv(m0, inv),
        m % base() == m0 as int,
    ensures
        cios(a, b, m, inv, i) * weight(i) == a * limbs_val(b, i) + cios_quot(a, b, m, inv, i) * m,
        0 <= cios_quot(a, b, m, inv, i) < weight(i),
    decreases i,
{
    if i > 0 {
        let j: nat = (i - 1) as nat;
        lemma_cios(a, b, m, m0, inv, j);
        lemma_weight_positive(j);
        let w: int = weight(j);
        let bj: int = b[j as int] as int;
        let l: int = limbs_val(b, j);
        lemma_round_scaled(
            cios(a, b, m, inv, j),
            a * bj,
            m,
            m0,
            inv,
            w,
            a * l,
            cios_quot(a, b, m, inv, j),
        );
        assert(a * l + (a * bj) * w == a * (l + w * bj)) by (nonlinear_arith);
    }
}

/// The accumulator of the interleaved multiplication stays below `a + m`.
pub proof fn lemma_cios_bound(a: int, b: Seq<u64>, m: int, m0: u64, inv: u64, i: nat)
    requires
        valid_inv(m0, inv),
        m % base() == m0 as int,
        0 <= a,
        0 < m,
        i <= b.len(),
    ensures
        0 <= cios(a, b, m, inv, i) < a + m,
{
    lemma_cios(a, b, m, m0, inv, i);
    lemma_limbs_val_bound(b, i);
    lemma_weight_positive(i);
    let w: int = weight(i);
    let l: int = limbs_val(b, i);
    let k: int = cios_quot(a, b, m, inv, i);
    let c: int = cios(a, b, m, inv, i);
    assert(0 <= c < a + m) by (nonlinear_arith)
        requires
            c * w == a * l + k * m,
            0 <= l < w,
            0 <= k < w,
            0 <= a,
            0 < m,
    ;
}

/// Four rounds of the interleaved multiplication, followed by one
/// conditional subtraction, give the Montgomery product.
pub proof fn lemma_cios_correct(a: int, b: [u64; 4], m: int, m0: u64, inv: u64)
    requires
        valid_modulus(m),
        valid_inv(m0, inv),
        m % base() == m0 as int,
        0 <= a < m,
    ensures
        0 <= cios(a, b@, m, inv, 4) < 2 * m,
        cios(a, b@, m, inv, 4) % m == mont_mul(a, val4(b), m),
{
    let c: int = cios(a, b@, m, inv, 4);
    let k: int = cios_quot(a, b@, m, inv, 4);
    lemma_cios_bound(a, b@, m, m0, inv, 4);
    lemma_cios(a, b@, m, m0, inv, 4);
    lemma_val4_limbs(b);
    lemma_weights();
    lemma_mod_bound(c, m);
    lemma_mul_mod_noop_general(c, radix(), m);
    assert(k * m == m * k) by (nonlinear_arith);
    lemma_mod_multiples_vanish(k, a * val4(b), m);
    lemma_mont_reduce_unique(c % m, a * val4(b), m);
}

/// What `n` reduction steps have computed, as an exact equation.
pub proof fn lemma_redc_n(t: int, m: int, m0: u64, inv: u64, n: nat)
    requires
        valid_inv(m0, inv),
        m % base() == m0 as int,
    ensures
        redc_n(t, m, inv, n) * weight(n) == t + redc_quot(t, m, inv, n) * m,
        0 <= redc_quot(t, m, inv, n) < weight(n),
    decreases n,
{
    if n > 0 {
        let j: nat = (n - 1) as nat;
        lemma_redc_n(t, m, m0, inv, j);
        lemma_weight_positive(j);
        lemma_round_scaled(
            redc_n(t, m, inv, j),
            0,
            m,
            m0,
            inv,
            weight(j),
            t,
            redc_quot(t, m, inv, j),
        );
    }
}

/// Reduction steps keep a value below `bound * 2^(64 n)` below
/// `bound + m`, and a canonical value canonical.
pub proof fn lemma_redc_n_bound(t: int, m: int, m0: u64, inv: u64, n: nat, bound: int)
    requires
        valid_inv(m0, inv),
        m % base() == m0 as int,
        0 < m,
        0 <= t < bound * weight(n),
    ensures
        0 <= redc_n(t, m, inv, n) < bound + m,
        t < m ==> redc_n(t, m, inv, n) < m,
{
    lemma_redc_n(t, m, m0, inv, n);
    lemma_weight_positive(n);
    let w: int = weight(n);
    let k: int = redc_quot(t, m, inv, n);
    let c: int = redc_n(t, m, inv, n);
    assert(0 <= c < bound + m) by (nonlinear_arith)
        requires
            c * w == t + k * m,
            0 <= t < bound * w,
            0 <= k < w,
            0 < m,
    ;
    if t < m {
        assert(c < m) by (nonlinear_arith)
            requires
                c * w == t + k * m,
                0 <= t < m,
                0 <= k < w,
                0 < m,
        ;
    }
}

/// Four reduction steps on a value below `m * 2^256`, followed by one
/// conditional subtraction, give its Montgomery reduction; on a canonical
/// value the subtraction is not needed.
pub proof fn lemma_redc_correct(t: int, m: int, m0: u64, inv: u64)
    requires
        valid_modulus(m),
        valid_inv(m0, inv),
        m % base() == m0 as int,
        0 <= t < m * radix(),
    ensures
        0 <= redc_n(t, m, inv, 4) < 2 * m,
        redc_n(t, m, inv, 4) % m == mont_reduce(t, m),
        t < m ==> redc_n(t, m, inv, 4) == mont_reduce(t, m),
{
    let c: int = redc_n(t, m, inv, 4);
    let k: int = redc_quot(t, m, inv, 4);
    lemma_weights();
    lemma_redc_n_bound(t, m, m0, inv, 4, m);
    lemma_redc_n(t, m, m0, inv, 4);
    lemma_mod_bound(c, m);
    lemma_mul_mod_noop_general(c, radix(), m);
    assert(k * m == m * k) by (nonlinear_arith);
    lemma_mod_multiples_vanish(k, t, m);
    lemma_mont_reduce_unique(c % m, t, m);
    if t < m {
        lemma_small_mod(c as nat, m as nat);
    }
}

/// A reduction step looks only at the lowest limb: whatever stands above
/// the fifth limb is carried along unchanged.
pub proof fn lemma_redc_step_high(low: int, high: int, m: int, m0: u64, inv: u64)
    requires
        valid_inv(m0, inv),
        m % base() == m0 as int,
    ensures
        redc_step(low + base() * high, m, inv) == redc_step(low, m, inv) + high,
{
    let b: int = base();
    lemma_mod_multiples_vanish(high, low, b);
    assert(redc_digit(low + b * high, inv) == redc_digit(low, inv));
    lemma_redc_step(low, m, m0, inv);
    lemma_redc_step(low + b * high, m, m0, inv);
}

} // verus!
