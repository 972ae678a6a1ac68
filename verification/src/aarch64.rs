//! The AArch64 backend: every operation written as the instruction
//! sequence of that platform. Its carry flag is set by a subtraction that
//! does not borrow, its widening product comes as two instructions, and
//! its selections are made by `csel`. Registers are local variables and a
//! flag is a limb that holds 0 or 1.

use vstd::prelude::*;
use vstd::arithmetic::div_mod::{lemma_mod_bound, lemma_mod_multiples_vanish, lemma_small_mod};
use crate::limb::{
    add_with_carry, base, either, high_half, keep, lemma_halves, lemma_halves_unique,
    lemma_mul_carry_fits, lemma_small_half, low_half, mask_from_flag, mul_with_carry,
    nonzero_flag, select, sub_with_borrow,
};
use crate::modular::{
    add_mod, canonical, cios, double_mod, lemma_cios_bound, lemma_cios_correct,
    lemma_neg_mod, lemma_redc_correct, lemma_redc_step, lemma_redc_step_fits, lemma_reduce_once,
    lemma_sub_mod, mont_mul, mont_reduce, neg_mod, radix_inverse, redc_digit, redc_n, redc_step,
    sub_mod, valid_inv, valid_modulus,
};
use crate::value::{lemma_low_limb, lemma_scale_val4, lemma_val4_limbs, radix, val4};

verus! {

/// `adds`: adds and sets the carry flag.
pub fn adds(rn: u64, rm: u64) -> (r: (u64, u64))
    ensures
        r.0 + base() * r.1 == rn + rm,
        r.1 <= 1,
{
    add_with_carry(rn, rm, 0)
}

/// `adcs`: adds with the carry flag and sets it.
pub fn adcs(rn: u64, rm: u64, c: u64) -> (r: (u64, u64))
    requires
        c <= 1,
    ensures
        r.0 + base() * r.1 == rn + rm + c,
        r.1 <= 1,
{
    add_with_carry(rn, rm, c)
}

/// `adc`: adds with the carry flag and sets no flag; a carry out is lost.
pub fn adc(rn: u64, rm: u64, c: u64) -> (r: u64)
    requires
        c <= 1,
    ensures
        r == low_half(rn + rm + c),
{
    let (sum, carry): (u64, u64) = add_with_carry(rn, rm, c);
    proof {
        lemma_halves_unique(rn + rm + c, sum as int, carry as int);
    }
    sum
}

/// `add` on registers: adds and sets no flag; a carry out is lost.
pub fn add_reg(rn: u64, rm: u64) -> (r: u64)
    ensures
        r == low_half(rn + rm),
{
    let (sum, carry): (u64, u64) = add_with_carry(rn, rm, 0);
    proof {
        lemma_halves_unique(rn + rm, sum as int, carry as int);
    }
    sum
}

/// `subs`: subtracts and sets the carry flag where no borrow occurred.
pub fn subs(rn: u64, rm: u64) -> (r: (u64, u64))
    ensures
        r.0 - base() * (1 - r.1) == rn - rm,
        r.1 <= 1,
{
    let (diff, borrow): (u64, u64) = sub_with_borrow(rn, rm, 0);
    (diff, 1 - borrow)
}

/// `sbcs`: subtracts with the borrow that a clear carry flag stands for,
/// and sets the carry flag where no borrow occurred.
pub fn sbcs(rn: u64, rm: u64, c: u64) -> (r: (u64, u64))
    requires
        c <= 1,
    ensures
        r.0 - base() * (1 - r.1) == rn - rm - (1 - c),
        r.1 <= 1,
{
    let (diff, borrow): (u64, u64) = sub_with_borrow(rn, rm, 1 - c);
    (diff, 1 - borrow)
}

/// `csel` on condition `cc`: `rn` where the carry flag is clear, else `rm`.
pub fn csel_cc(rn: u64, rm: u64, c: u64) -> (r: u64)
    requires
        c <= 1,
    ensures
        r == if c == 0 { rn } else { rm },
{
    select(mask_from_flag(c), rm, rn)
}

/// `csel` on condition `cs`, also written `hs`: `rn` where the carry flag
/// is set, else `rm`.
pub fn csel_cs(rn: u64, rm: u64, c: u64) -> (r: u64)
    requires
        c <= 1,
    ensures
        r == if c == 1 { rn } else { rm },
{
    select(mask_from_flag(c), rn, rm)
}

/// The comparison of a register with zero: the zero flag, 1 where the
/// register is zero.
pub fn compare_zero(rn: u64) -> (z: u64)
    ensures
        z == if rn == 0 { 1u64 } else { 0u64 },
{
    1 - nonzero_flag(rn)
}

/// `csel` on condition `eq`: `rn` where the zero flag is set, else `rm`.
pub fn csel_eq(rn: u64, rm: u64, z: u64) -> (r: u64)
    requires
        z <= 1,
    ensures
        r == if z == 1 { rn } else { rm },
{
    select(mask_from_flag(z), rn, rm)
}

/// `orr`: the bitwise OR, which is zero exactly when both registers are.
pub fn orr(rn: u64, rm: u64) -> (r: u64)
    ensures
        r == rn | rm,
        r == 0 <==> (rn == 0 && rm == 0),
{
    either(rn, rm)
}

/// `and` with a mask register: everything under a mask of all ones,
/// nothing under a mask of all zeros.
pub fn and_mask(rn: u64, mask: u64) -> (r: u64)
    ensures
        r == rn & mask,
        mask == 0 ==> r == 0,
        mask == u64::MAX ==> r == rn,
{
    keep(mask, rn)
}

/// `mul`: the low limb of the product.
pub fn mul_lo(rn: u64, rm: u64) -> (r: u64)
    ensures
        r == low_half(rn * rm),
{
    let (low, high): (u64, u64) = mul_with_carry(rn, rm, 0);
    proof {
        lemma_halves_unique(rn * rm, low as int, high as int);
    }
    low
}

/// `umulh`: the high limb of the product.
pub fn umulh(rn: u64, rm: u64) -> (r: u64)
    ensures
        r == high_half(rn * rm),
        r <= 0xffff_ffff_ffff_fffe,
{
    let (low, high): (u64, u64) = mul_with_carry(rn, rm, 0);
    proof {
        lemma_halves_unique(rn * rm, low as int, high as int);
        lemma_mul_carry_fits(rn, rm, 0);
    }
    high
}

/// An `adds`/`adcs` chain over four limbs: the sum modulo 2^256 and the
/// carry flag that the last addition leaves. Where the chain ends in a
/// flagless `adc`, the limbs are the same and only the flag is not kept.
pub fn add_chain(rn: &[u64; 4], rm: &[u64; 4]) -> (r: ([u64; 4], u64))
    ensures
        val4(r.0) + radix() * r.1 == val4(*rn) + val4(*rm),
        r.1 <= 1,
{
    let (r0, c): (u64, u64) = adds(rn[0], rm[0]);
    let (r1, c): (u64, u64) = adcs(rn[1], rm[1], c);
    let (r2, c): (u64, u64) = adcs(rn[2], rm[2], c);
    let (r3, c): (u64, u64) = adcs(rn[3], rm[3], c);
    ([r0, r1, r2, r3], c)
}

/// A `subs`/`sbcs` chain over four limbs: the difference modulo 2^256 and
/// the carry flag that the last subtraction leaves, clear where it
/// borrowed.
pub fn sub_chain(rn: &[u64; 4], rm: &[u64; 4]) -> (r: ([u64; 4], u64))
    ensures
        val4(r.0) - radix() * (1 - r.1) == val4(*rn) - val4(*rm),
        r.1 <= 1,
{
    let (r0, c): (u64, u64) = subs(rn[0], rm[0]);
    let (r1, c): (u64, u64) = sbcs(rn[1], rm[1], c);
    let (r2, c): (u64, u64) = sbcs(rn[2], rm[2], c);
    let (r3, c): (u64, u64) = sbcs(rn[3], rm[3], c);
    ([r0, r1, r2, r3], c)
}

/// A `csel` per limb on condition `cc`: `rn` where the carry flag is
/// clear, else `rm`.
pub fn csel_all_cc(rn: &[u64; 4], rm: &[u64; 4], c: u64) -> (r: [u64; 4])
    requires
        c <= 1,
    ensures
        r == if c == 0 { *rn } else { *rm },
{
    let r0: u64 = csel_cc(rn[0], rm[0], c);
    let r1: u64 = csel_cc(rn[1], rm[1], c);
    let r2: u64 = csel_cc(rn[2], rm[2], c);
    let r3: u64 = csel_cc(rn[3], rm[3], c);
    let r: [u64; 4] = [r0, r1, r2, r3];
    assert(r@ =~= (if c == 0 { *rn } else { *rm })@);
    r
}

/// A `csel` per limb on condition `cs`, also written `hs`: `rn` where the
/// carry flag is set, else `rm`.
pub fn csel_all_cs(rn: &[u64; 4], rm: &[u64; 4], c: u64) -> (r: [u64; 4])
    requires
        c <= 1,
    ensures
        r == if c == 1 { *rn } else { *rm },
{
    let r0: u64 = csel_cs(rn[0], rm[0], c);
    let r1: u64 = csel_cs(rn[1], rm[1], c);
    let r2: u64 = csel_cs(rn[2], rm[2], c);
    let r3: u64 = csel_cs(rn[3], rm[3], c);
    let r: [u64; 4] = [r0, r1, r2, r3];
    assert(r@ =~= (if c == 1 { *rn } else { *rm })@);
    r
}

/// An `and` per limb with a mask register of all zeros or all ones.
pub fn and_all(rn: &[u64; 4], mask: u64) -> (r: [u64; 4])
    requires
        mask == 0 || mask == u64::MAX,
    ensures
        val4(r) == if mask == 0 { 0 } else { val4(*rn) },
{
    let r0: u64 = and_mask(rn[0], mask);
    let r1: u64 = and_mask(rn[1], mask);
    let r2: u64 = and_mask(rn[2], mask);
    let r3: u64 = and_mask(rn[3], mask);
    [r0, r1, r2, r3]
}

/// Adds two field elements: an `adds`/`adcs` chain, a `subs`/`sbcs` chain
/// against the modulus, and a `csel` per limb that keeps the sum where the
/// subtraction borrowed.
pub fn add(a: &[u64; 4], b: &[u64; 4], m: &[u64; 4]) -> (r: [u64; 4])
    requires
        valid_modulus(val4(*m)),
        canonical(val4(*a), val4(*m)),
        canonical(val4(*b), val4(*m)),
    ensures
        val4(r) == add_mod(val4(*a), val4(*b), val4(*m)),
        canonical(val4(r), val4(*m)),
{
    let (raw, c): ([u64; 4], u64) = add_chain(a, b);
    proof {
        lemma_val4_limbs(raw);
    }
    let (trial, c): ([u64; 4], u64) = sub_chain(&raw, m);
    let r: [u64; 4] = csel_all_cc(&raw, &trial, c);
    proof {
        lemma_val4_limbs(trial);
        lemma_reduce_once(val4(raw), val4(*m), val4(r));
    }
    r
}

/// Doubles a field element: each limb added to itself on an `adds`/`adcs`
/// chain, then the reduction of `add`.
pub fn double(a: &[u64; 4], m: &[u64; 4]) -> (r: [u64; 4])
    requires
        valid_modulus(val4(*m)),
        canonical(val4(*a), val4(*m)),
    ensures
        val4(r) == double_mod(val4(*a), val4(*m)),
        canonical(val4(r), val4(*m)),
{
    let (raw, c): ([u64; 4], u64) = add_chain(a, a);
    proof {
        lemma_val4_limbs(raw);
    }
    let (trial, c): ([u64; 4], u64) = sub_chain(&raw, m);
    let r: [u64; 4] = csel_all_cc(&raw, &trial, c);
    proof {
        lemma_val4_limbs(trial);
        lemma_reduce_once(val4(raw), val4(*m), val4(r));
    }
    r
}

/// Subtracts one field element from another: a `subs`/`sbcs` chain, the
/// modulus replaced by zero through `csel` where no borrow occurred, and
/// an `adds`/`adcs` chain.
pub fn sub(a: &[u64; 4], b: &[u64; 4], m: &[u64; 4]) -> (r: [u64; 4])
    requires
        valid_modulus(val4(*m)),
        canonical(val4(*a), val4(*m)),
        canonical(val4(*b), val4(*m)),
    ensures
        val4(r) == sub_mod(val4(*a), val4(*b), val4(*m)),
        canonical(val4(r), val4(*m)),
{
    let xzr: [u64; 4] = [0, 0, 0, 0];
    let (diff, c): ([u64; 4], u64) = sub_chain(a, b);
    let addend: [u64; 4] = csel_all_cs(&xzr, m, c);
    let (r, _c): ([u64; 4], u64) = add_chain(&diff, &addend);
    proof {
        lemma_val4_limbs(diff);
        lemma_val4_limbs(r);
        lemma_sub_mod(val4(*a), val4(*b), val4(*m), val4(r));
    }
    r
}

/// Negates a field element: the modulus minus the element by a
/// `subs`/`sbcs` chain, the limbs of the element folded by `orr`, and the
/// difference masked to zero where the comparison finds the fold zero.
pub fn neg(a: &[u64; 4], m: &[u64; 4]) -> (r: [u64; 4])
    requires
        valid_modulus(val4(*m)),
        canonical(val4(*a), val4(*m)),
    ensures
        val4(r) == neg_mod(val4(*a), val4(*m)),
        canonical(val4(r), val4(*m)),
{
    let xzr: u64 = 0;
    let (diff, c): ([u64; 4], u64) = sub_chain(m, a);

    let t0: u64 = orr(a[0], a[1]);
    let t2: u64 = orr(a[2], a[3]);
    let t0: u64 = orr(t0, t2);

    let mask: u64 = 0xffff_ffff_ffff_ffff;
    let z: u64 = compare_zero(t0);
    let mask: u64 = csel_eq(xzr, mask, z);

    let r: [u64; 4] = and_all(&diff, mask);
    proof {
        assert(t0 == 0 <==> val4(*a) == 0);
        lemma_val4_limbs(diff);
        lemma_neg_mod(val4(*a), val4(*m), val4(r));
    }
    r
}

/// What the low pass and the high pass of one reduction round add up to.
/// The low halves `l` go in on the first carry chain (`x`, `c`), the high
/// halves `h` one limb higher on the second (`y`, `e`).
proof fn lemma_two_passes(
    t: [u64; 4],
    l: [u64; 4],
    h: [u64; 4],
    x: [u64; 4],
    c: [u64; 4],
    y: [u64; 4],
    e: [u64; 4],
)
    requires
        x[0] + base() * c[0] == t[0] + l[0],
        x[1] + base() * c[1] == t[1] + l[1] + c[0],
        x[2] + base() * c[2] == t[2] + l[2] + c[1],
        x[3] + base() * c[3] == t[3] + l[3] + c[2],
        y[1] + base() * e[1] == x[1] + h[0],
        y[2] + base() * e[2] == x[2] + h[1] + e[1],
        y[3] + base() * e[3] == x[3] + h[2] + e[2],
    ensures
        val4([x[0], y[1], y[2], y[3]]) + radix() * (c[3] + h[3] + e[3]) == val4(t) + (l[0] + base()
            * h[0]) + 0x1_0000_0000_0000_0000 * (l[1] + base() * h[1])
            + 0x1_0000_0000_0000_0000_0000_0000_0000_0000int * (l[2] + base() * h[2])
            + 0x1_0000_0000_0000_0000_0000_0000_0000_0000_0000_0000_0000_0000int * (l[3] + base()
            * h[3]),
{
}

/// Closing a round: three limbs and a top that satisfy the round identity
/// `2^64 (s + 2^192 top) = u + d m`, with `d` the quotient digit of `u`,
/// are a reduction step, and the top fits in a limb wherever the step is
/// below 2^256.
proof fn lemma_round_top(u: int, m: [u64; 4], inv: u64, d: u64, s: [u64; 3], top: int)
    requires
        valid_inv(m[0], inv),
        d as int == redc_digit(u, inv),
        0 <= top,
        redc_step(u, val4(m), inv) < radix(),
        base() * (s[0] + 0x1_0000_0000_0000_0000 * s[1]
            + 0x1_0000_0000_0000_0000_0000_0000_0000_0000int * s[2]
            + 0x1_0000_0000_0000_0000_0000_0000_0000_0000_0000_0000_0000_0000int * top) == u + d
            * val4(m),
    ensures
        top < base(),
        low_half(top) == top,
        s[0] + 0x1_0000_0000_0000_0000 * s[1] + 0x1_0000_0000_0000_0000_0000_0000_0000_0000int
            * s[2] + 0x1_0000_0000_0000_0000_0000_0000_0000_0000_0000_0000_0000_0000int * top
            == redc_step(u, val4(m), inv),
{
    lemma_low_limb(m);
    lemma_redc_step(u, val4(m), m[0], inv);
    assert(top < base());
    lemma_halves_unique(top, top, 0);
}

/// The low half of a limb times the Montgomery constant is the quotient
/// digit of that limb.
proof fn lemma_digit(t0: u64, inv: u64, d: u64)
    requires
        d as int == low_half(t0 * inv),
    ensures
        d as int == redc_digit(t0 as int, inv),
        d as int == (t0 * inv) % base(),
{
    reveal(low_half);
    lemma_small_mod(t0 as nat, base() as nat);
}

/// The quotient digit clears the lowest limb: the limb plus the low half
/// of the digit times the lowest limb of the modulus is zero modulo 2^64.
proof fn lemma_low_cleared(t0: u64, m0: u64, inv: u64, d: u64, l0: u64, x0: u64, c0: u64)
    requires
        valid_inv(m0, inv),
        d as int == low_half(t0 * inv),
        l0 as int == low_half(d * m0),
        x0 + base() * c0 == t0 + l0,
    ensures
        x0 == 0,
{
    lemma_small_mod(t0 as nat, base() as nat);
    lemma_small_mod(m0 as nat, base() as nat);
    lemma_redc_step(t0 as int, m0 as int, m0, inv);
    let q: int = redc_step(t0 as int, m0 as int, inv);
    let h: int = high_half(d * m0);
    lemma_halves(d * m0);
    lemma_digit(t0, inv, d);
    assert(q * base() == t0 + d * m0);
    assert(x0 == base() * (q - h - c0));
}

/// Closing a reduction round: once the lowest limb is cleared, the limbs
/// above it and the exact top are the reduction step, and the top fits in
/// a limb.
proof fn lemma_round_close(
    t: [u64; 4],
    m: [u64; 4],
    inv: u64,
    d: u64,
    l: [u64; 4],
    h: [u64; 4],
    y: [u64; 3],
    top: int,
)
    requires
        valid_modulus(val4(m)),
        valid_inv(m[0], inv),
        d as int == low_half(t[0] * inv),
        forall|j: int| 0 <= j < 4 ==> l[j] as int == low_half(#[trigger] (d * m[j])),
        forall|j: int| 0 <= j < 4 ==> h[j] as int == high_half(#[trigger] (d * m[j])),
        0 <= top,
        val4([0, y[0], y[1], y[2]]) + radix() * top == val4(t) + (l[0] + base() * h[0])
            + 0x1_0000_0000_0000_0000 * (l[1] + base() * h[1])
            + 0x1_0000_0000_0000_0000_0000_0000_0000_0000int * (l[2] + base() * h[2])
            + 0x1_0000_0000_0000_0000_0000_0000_0000_0000_0000_0000_0000_0000int * (l[3] + base()
            * h[3]),
    ensures
        top < base(),
        low_half(top) == top,
        y[0] + 0x1_0000_0000_0000_0000 * y[1] + 0x1_0000_0000_0000_0000_0000_0000_0000_0000int
            * y[2] + 0x1_0000_0000_0000_0000_0000_0000_0000_0000_0000_0000_0000_0000int * top
            == redc_step(val4(t), val4(m), inv),
{
    lemma_halves(d * m[0]);
    lemma_halves(d * m[1]);
    lemma_halves(d * m[2]);
    lemma_halves(d * m[3]);
    assert(l[0] + base() * h[0] == d * m[0]);
    assert(l[1] + base() * h[1] == d * m[1]);
    assert(l[2] + base() * h[2] == d * m[2]);
    assert(l[3] + base() * h[3] == d * m[3]);
    lemma_scale_val4(d as int, m);
    lemma_digit(t[0], inv, d);
    lemma_low_limb(t);
    assert(d as int == redc_digit(val4(t), inv));
    lemma_low_limb(m);
    lemma_val4_limbs(t);
    lemma_redc_step_fits(val4(t), val4(m), m[0], inv);
    lemma_round_top(val4(t), m, inv, d, y, top);
}

/// One reduction round: the quotient digit by `mul`, a low pass that adds
/// the low halves of the digit times the modulus on an `adds`/`adcs`
/// chain, and a high pass that adds the high halves by `umulh` one limb
/// higher. The lowest limb comes out zero and its register takes the top
/// limb.
pub fn reduce_round(t: &[u64; 4], m: &[u64; 4], inv: u64) -> (r: [u64; 4])
    requires
        valid_modulus(val4(*m)),
        valid_inv(m[0], inv),
    ensures
        val4(r) == redc_step(val4(*t), val4(*m), inv),
{
    let xzr: u64 = 0;
    let d: u64 = mul_lo(t[0], inv);
    // low part
    let l0: u64 = mul_lo(d, m[0]);
    let (x0, c0): (u64, u64) = adds(t[0], l0);
    let l1: u64 = mul_lo(d, m[1]);
    let (x1, c1): (u64, u64) = adcs(t[1], l1, c0);
    let l2: u64 = mul_lo(d, m[2]);
    let (x2, c2): (u64, u64) = adcs(t[2], l2, c1);
    let l3: u64 = mul_lo(d, m[3]);
    let (x3, c3): (u64, u64) = adcs(t[3], l3, c2);
    proof {
        lemma_low_cleared(t[0], m[0], inv, d, l0, x0, c0);
    }
    // low part carry
    proof {
        lemma_small_half(x0 + xzr + c3);
    }
    let top: u64 = adc(x0, xzr, c3);
    // high part
    let h0: u64 = umulh(d, m[0]);
    let (y1, e1): (u64, u64) = adds(x1, h0);
    let h1: u64 = umulh(d, m[1]);
    let (y2, e2): (u64, u64) = adcs(x2, h1, e1);
    let h2: u64 = umulh(d, m[2]);
    let (y3, e3): (u64, u64) = adcs(x3, h2, e2);
    let h3: u64 = umulh(d, m[3]);
    proof {
        lemma_two_passes(
            *t,
            [l0, l1, l2, l3],
            [h0, h1, h2, h3],
            [x0, x1, x2, x3],
            [c0, c1, c2, c3],
            [0, y1, y2, y3],
            [0, e1, e2, e3],
        );
        lemma_round_close(
            *t,
            *m,
            inv,
            d,
            [l0, l1, l2, l3],
            [h0, h1, h2, h3],
            [y1, y2, y3],
            c3 + h3 + e3,
        );
    }
    let top: u64 = adc(top, h3, e3);
    [y1, y2, y3, top]
}

/// Converts a field element from Montgomery form to standard form: four
/// reduction rounds, each on the registers of the one before, rotated by
/// one. No final subtraction follows: every round maps a canonical value
/// to a canonical one.
pub fn from_mont(a: &[u64; 4], m: &[u64; 4], inv: u64) -> (r: [u64; 4])
    requires
        valid_modulus(val4(*m)),
        valid_inv(m[0], inv),
        canonical(val4(*a), val4(*m)),
    ensures
        val4(r) == mont_reduce(val4(*a), val4(*m)),
        canonical(val4(r), val4(*m)),
{
    proof {
        lemma_low_limb(*m);
        reveal_with_fuel(redc_n, 5);
    }
    // i = 0
    let t: [u64; 4] = reduce_round(a, m, inv);
    // i = 1
    let t: [u64; 4] = reduce_round(&t, m, inv);
    // i = 2
    let t: [u64; 4] = reduce_round(&t, m, inv);
    // i = 3
    let t: [u64; 4] = reduce_round(&t, m, inv);
    proof {
        assert(val4(t) == redc_n(val4(*a), val4(*m), inv, 4));
        lemma_val4_limbs(*a);
        assert(val4(*a) < val4(*m) * radix()) by (nonlinear_arith)
            requires
                0 <= val4(*a) < val4(*m),
                radix() > 0,
        ;
        lemma_redc_correct(val4(*a), val4(*m), m[0], inv);
        lemma_mod_bound(val4(*a) * radix_inverse(val4(*m)), val4(*m));
    }
    t
}

/// The multiplication step for one limb: `a_j * b_i` by `umulh` and `mul`,
/// the running carry added to the low half, the low half added to the
/// accumulator limb, and both carries folded into the high half, which
/// becomes the next running carry.
pub fn multiply_step(t_j: u64, a_j: u64, b_i: u64, acc: u64) -> (r: (u64, u64))
    ensures
        r.0 + base() * r.1 == t_j + a_j * b_i + acc,
{
    let xzr: u64 = 0;
    let mul_hi: u64 = umulh(a_j, b_i);
    let mul_lo: u64 = mul_lo(a_j, b_i);
    proof {
        lemma_mul_carry_fits(a_j, b_i, acc);
        lemma_halves(a_j * b_i);
    }
    let (mul_lo, c): (u64, u64) = adds(mul_lo, acc);
    proof {
        lemma_small_half(mul_hi + c);
    }
    let mul_hi: u64 = adc(mul_hi, xzr, c);
    let (t_j, c): (u64, u64) = adds(t_j, mul_lo);
    proof {
        lemma_small_half(mul_hi + c);
    }
    let acc: u64 = adc(mul_hi, xzr, c);
    (t_j, acc)
}

/// The reduction step for one limb above the lowest: the running carry
/// added to the accumulator limb, then the low half of `d * m_j`, with
/// both carries folded into the high half, which becomes the next running
/// carry. The sum goes to the limb below.
pub fn reduce_step(t_j: u64, fold: u64, d: u64, m_j: u64) -> (r: (u64, u64))
    ensures
        r.0 + base() * r.1 == t_j + fold + d * m_j,
{
    let xzr: u64 = 0;
    let mul_hi: u64 = umulh(d, m_j);
    let mul_lo: u64 = mul_lo(d, m_j);
    proof {
        lemma_mul_carry_fits(d, m_j, 0);
        lemma_halves(d * m_j);
    }
    let (t_below, c): (u64, u64) = adds(t_j, fold);
    proof {
        lemma_small_half(mul_hi + c);
    }
    let fold: u64 = adc(mul_hi, xzr, c);
    let (t_below, c): (u64, u64) = adds(t_below, mul_lo);
    proof {
        lemma_small_half(fold + c);
    }
    let fold: u64 = adc(fold, xzr, c);
    (t_below, fold)
}

/// What the four multiplication steps of a row add up to.
proof fn lemma_multiply_row(t: [u64; 4], p: [int; 4], u: [u64; 4], acc: [u64; 4])
    requires
        u[0] + base() * acc[0] == t[0] + p[0],
        u[1] + base() * acc[1] == t[1] + p[1] + acc[0],
        u[2] + base() * acc[2] == t[2] + p[2] + acc[1],
        u[3] + base() * acc[3] == t[3] + p[3] + acc[2],
    ensures
        val4(u) + radix() * acc[3] == val4(t) + (p[0] + 0x1_0000_0000_0000_0000 * p[1]
            + 0x1_0000_0000_0000_0000_0000_0000_0000_0000int * p[2]
            + 0x1_0000_0000_0000_0000_0000_0000_0000_0000_0000_0000_0000_0000int * p[3]),
{
}

/// What the reduction steps of a row add up to: their sums land one limb
/// lower, and the two running carries meet in the top limb.
proof fn lemma_reduce_row(u: [u64; 4], acc: u64, q: [int; 4], s: [u64; 3], fold: [u64; 4])
    requires
        base() * fold[0] == u[0] + q[0],
        s[0] + base() * fold[1] == u[1] + fold[0] + q[1],
        s[1] + base() * fold[2] == u[2] + fold[1] + q[2],
        s[2] + base() * fold[3] == u[3] + fold[2] + q[3],
    ensures
        base() * (s[0] + 0x1_0000_0000_0000_0000 * s[1]
            + 0x1_0000_0000_0000_0000_0000_0000_0000_0000int * s[2]
            + 0x1_0000_0000_0000_0000_0000_0000_0000_0000_0000_0000_0000_0000int * (acc + fold[3]))
            == val4(u) + radix() * acc + (q[0] + 0x1_0000_0000_0000_0000 * q[1]
            + 0x1_0000_0000_0000_0000_0000_0000_0000_0000int * q[2]
            + 0x1_0000_0000_0000_0000_0000_0000_0000_0000_0000_0000_0000_0000int * q[3]),
{
}

/// The multiplication step of a round: a multiplication step for each limb
/// of `a` with the limb `b_i`, the running carry threaded through and left
/// over as a fifth limb.
pub fn multiply_row(t: &[u64; 4], a: &[u64; 4], b_i: u64) -> (r: ([u64; 4], u64))
    ensures
        val4(r.0) + radix() * r.1 == val4(*t) + val4(*a) * b_i,
{
    let xzr: u64 = 0;
    let acc: u64 = xzr;
    // j = 0
    let (u0, acc0): (u64, u64) = multiply_step(t[0], a[0], b_i, acc);
    // j = 1
    let (u1, acc1): (u64, u64) = multiply_step(t[1], a[1], b_i, acc0);
    // j = 2
    let (u2, acc2): (u64, u64) = multiply_step(t[2], a[2], b_i, acc1);
    // j = 3
    let (u3, acc3): (u64, u64) = multiply_step(t[3], a[3], b_i, acc2);
    proof {
        lemma_multiply_row(
            *t,
            [a[0] * b_i, a[1] * b_i, a[2] * b_i, a[3] * b_i],
            [u0, u1, u2, u3],
            [acc0, acc1, acc2, acc3],
        );
        lemma_scale_val4(b_i as int, *a);
        assert(val4(*a) * b_i == b_i * val4(*a)) by (nonlinear_arith);
        assert(a[0] * b_i == b_i * a[0]) by (nonlinear_arith);
        assert(a[1] * b_i == b_i * a[1]) by (nonlinear_arith);
        assert(a[2] * b_i == b_i * a[2]) by (nonlinear_arith);
        assert(a[3] * b_i == b_i * a[3]) by (nonlinear_arith);
    }
    ([u0, u1, u2, u3], acc3)
}

/// The reduction step of a round: the quotient digit by `mul`, the digit
/// times the lowest limb of the modulus to clear the lowest limb, a
/// reduction step for each limb above it, and a flagless `add` of the two
/// running carries into the top limb.
pub fn reduce_row(u: &[u64; 4], acc: u64, m: &[u64; 4], inv: u64) -> (r: [u64; 4])
    requires
        valid_inv(m[0], inv),
        redc_step(val4(*u) + radix() * acc, val4(*m), inv) < radix(),
    ensures
        val4(r) == redc_step(val4(*u) + radix() * acc, val4(*m), inv),
{
    let xzr: u64 = 0;
    let d: u64 = mul_lo(u[0], inv);
    // m * m[0]
    let mul_hi: u64 = umulh(d, m[0]);
    let mul_lo: u64 = mul_lo(d, m[0]);
    proof {
        lemma_mul_carry_fits(d, m[0], 0);
        lemma_halves(d * m[0]);
    }
    let (t0, c): (u64, u64) = adds(u[0], mul_lo);
    proof {
        lemma_low_cleared(u[0], m[0], inv, d, mul_lo, t0, c);
        lemma_small_half(mul_hi + c);
    }
    let fold0: u64 = adc(mul_hi, xzr, c);
    // m * m[1]
    let (s0, fold1): (u64, u64) = reduce_step(u[1], fold0, d, m[1]);
    // m * m[2]
    let (s1, fold2): (u64, u64) = reduce_step(u[2], fold1, d, m[2]);
    // m * m[3]
    let (s2, fold3): (u64, u64) = reduce_step(u[3], fold2, d, m[3]);
    proof {
        let total: int = val4(*u) + radix() * acc;
        lemma_reduce_row(
            *u,
            acc,
            [d * m[0], d * m[1], d * m[2], d * m[3]],
            [s0, s1, s2],
            [fold0, fold1, fold2, fold3],
        );
        lemma_scale_val4(d as int, *m);
        lemma_digit_of_total(*u, acc, inv, d);
        lemma_round_top(total, *m, inv, d, [s0, s1, s2], acc + fold3);
    }
    let s3: u64 = add_reg(acc, fold3);
    [s0, s1, s2, s3]
}

/// The quotient digit looks only at the lowest limb of the accumulator.
proof fn lemma_digit_of_total(u: [u64; 4], acc: u64, inv: u64, d: u64)
    requires
        d as int == low_half(u[0] * inv),
    ensures
        d as int == redc_digit(val4(u) + radix() * acc, inv),
{
    let rest: int = u[1] + 0x1_0000_0000_0000_0000 * u[2]
        + 0x1_0000_0000_0000_0000_0000_0000_0000_0000int * u[3]
        + 0x1_0000_0000_0000_0000_0000_0000_0000_0000_0000_0000_0000_0000int * acc;
    assert(val4(u) + radix() * acc == base() * rest + u[0]);
    lemma_mod_multiples_vanish(rest, u[0] as int, base());
    lemma_digit(u[0], inv, d);
}

/// Round `i` of the multiplication: the multiplication step with limb `i`
/// of `b`, then the reduction step.
pub fn mul_round(t: &[u64; 4], a: &[u64; 4], b: &[u64; 4], i: usize, m: &[u64; 4], inv: u64) -> (r:
    [u64; 4])
    requires
        valid_modulus(val4(*m)),
        valid_inv(m[0], inv),
        canonical(val4(*a), val4(*m)),
        i < 4,
        val4(*t) == cios(val4(*a), b@, val4(*m), inv, i as nat),
    ensures
        val4(r) == cios(val4(*a), b@, val4(*m), inv, (i + 1) as nat),
{
    // load b[i]
    let b_i: u64 = b[i];
    let (u, acc): ([u64; 4], u64) = multiply_row(t, a, b_i);
    proof {
        lemma_low_limb(*m);
        lemma_cios_bound(val4(*a), b@, val4(*m), m[0], inv, (i + 1) as nat);
    }
    reduce_row(&u, acc, m, inv)
}

/// Multiplies two field elements in Montgomery form: four rounds, one for
/// each limb of `b`, then a `subs`/`sbcs` chain against the modulus and a
/// `csel` per limb that keeps the difference where no borrow occurred.
pub fn mul(a: &[u64; 4], b: &[u64; 4], m: &[u64; 4], inv: u64) -> (r: [u64; 4])
    requires
        valid_modulus(val4(*m)),
        valid_inv(m[0], inv),
        canonical(val4(*a), val4(*m)),
        canonical(val4(*b), val4(*m)),
    ensures
        val4(r) == mont_mul(val4(*a), val4(*b), val4(*m)),
        canonical(val4(r), val4(*m)),
{
    let xzr: u64 = 0;
    let t: [u64; 4] = [xzr, xzr, xzr, xzr];
    proof {
        reveal_with_fuel(cios, 5);
    }
    // i = 0
    let t: [u64; 4] = mul_round(&t, a, b, 0, m, inv);
    // i = 1
    let t: [u64; 4] = mul_round(&t, a, b, 1, m, inv);
    // i = 2
    let t: [u64; 4] = mul_round(&t, a, b, 2, m, inv);
    // i = 3
    let t: [u64; 4] = mul_round(&t, a, b, 3, m, inv);
    proof {
        lemma_low_limb(*m);
        lemma_cios_correct(val4(*a), *b, val4(*m), m[0], inv);
    }
    let (trial, c): ([u64; 4], u64) = sub_chain(&t, m);
    let r: [u64; 4] = csel_all_cs(&trial, &t, c);
    proof {
        lemma_val4_limbs(trial);
        lemma_reduce_once(val4(t), val4(*m), val4(r));
    }
    r
}

} // verus!
