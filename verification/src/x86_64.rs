//! The x86-64 backend: every operation written as the instruction sequence
//! of that platform, with its carry flag, its second carry chain on the
//! overflow flag, its flagless widening multiply and its conditional moves.
//! Registers are local variables and a flag is a limb that holds 0 or 1.

use vstd::prelude::*;
use vstd::arithmetic::div_mod::{
    lemma_fundamental_div_mod_converse, lemma_mod_bound, lemma_small_mod,
};
use crate::limb::{
    add_with_carry, base, either, keep, mask_from_flag, mul_with_carry, nonzero_flag, select,
    sub_with_borrow,
};
use crate::modular::{
    add_mod, canonical, cios, double_mod, lemma_cios_bound, lemma_cios_correct,
    lemma_neg_mod, lemma_redc_correct, lemma_redc_step, lemma_redc_step_high, lemma_reduce_once,
    lemma_sub_mod, mont_mul, mont_reduce, neg_mod, radix_inverse, redc_digit, redc_n, redc_step,
    sub_mod, valid_inv, valid_modulus,
};
use crate::value::{lemma_low_limb, lemma_scale_val4, lemma_val4_limbs, radix, val4};

verus! {

/// `adc`: adds with the carry flag and sets it. `add` is `adc` with the
/// flag clear.
pub fn adc(dst: u64, src: u64, cf: u64) -> (r: (u64, u64))
    requires
        cf <= 1,
    ensures
        r.0 + base() * r.1 == dst + src + cf,
        r.1 <= 1,
{
    add_with_carry(dst, src, cf)
}

/// `sbb`: subtracts with the carry flag as borrow and sets it. `sub` is
/// `sbb` with the flag clear.
pub fn sbb(dst: u64, src: u64, cf: u64) -> (r: (u64, u64))
    requires
        cf <= 1,
    ensures
        r.0 - base() * r.1 == dst - src - cf,
        r.1 <= 1,
{
    sub_with_borrow(dst, src, cf)
}

/// `cmovc`: moves `src` into `dst` where the carry flag is set.
pub fn cmovc(dst: u64, src: u64, cf: u64) -> (r: u64)
    requires
        cf <= 1,
    ensures
        r == if cf == 1 { src } else { dst },
{
    select(mask_from_flag(cf), src, dst)
}

/// The comparison of a register with zero: the zero flag, 1 where the
/// register is zero.
pub fn compare_zero(reg: u64) -> (zf: u64)
    ensures
        zf == if reg == 0 { 1u64 } else { 0u64 },
{
    1 - nonzero_flag(reg)
}

/// `cmove`: moves `src` into `dst` where the zero flag is set.
pub fn cmove(dst: u64, src: u64, zf: u64) -> (r: u64)
    requires
        zf <= 1,
    ensures
        r == if zf == 1 { src } else { dst },
{
    select(mask_from_flag(zf), src, dst)
}

/// `and` with a mask register: everything under a mask of all ones,
/// nothing under a mask of all zeros.
pub fn and_mask(dst: u64, mask: u64) -> (r: u64)
    ensures
        r == dst & mask,
        mask == 0 ==> r == 0,
        mask == u64::MAX ==> r == dst,
{
    keep(mask, dst)
}

/// `or`: the bitwise OR, which is zero exactly when both registers are.
pub fn or(dst: u64, src: u64) -> (r: u64)
    ensures
        r == dst | src,
        r == 0 <==> (dst == 0 && src == 0),
{
    either(dst, src)
}

/// `mulx`: the widening product of `rdx` and `src` as (high, low), with no
/// flag touched.
pub fn mulx(rdx: u64, src: u64) -> (r: (u64, u64))
    ensures
        r.1 + base() * r.0 == rdx * src,
{
    let (low, high): (u64, u64) = mul_with_carry(rdx, src, 0);
    (high, low)
}

/// `adcx`: adds with the carry flag and sets only that flag.
pub fn adcx(dst: u64, src: u64, cf: u64) -> (r: (u64, u64))
    requires
        cf <= 1,
    ensures
        r.0 + base() * r.1 == dst + src + cf,
        r.1 <= 1,
{
    add_with_carry(dst, src, cf)
}

/// `adox`: adds with the overflow flag as a second carry and sets only
/// that flag.
pub fn adox(dst: u64, src: u64, of: u64) -> (r: (u64, u64))
    requires
        of <= 1,
    ensures
        r.0 + base() * r.1 == dst + src + of,
        r.1 <= 1,
{
    add_with_carry(dst, src, of)
}

/// An `add`/`adc` chain over four limbs: the sum modulo 2^256 and the
/// carry flag that the last `adc` leaves.
pub fn add_chain(dst: &[u64; 4], src: &[u64; 4]) -> (r: ([u64; 4], u64))
    ensures
        val4(r.0) + radix() * r.1 == val4(*dst) + val4(*src),
        r.1 <= 1,
{
    let (r0, cf): (u64, u64) = adc(dst[0], src[0], 0);
    let (r1, cf): (u64, u64) = adc(dst[1], src[1], cf);
    let (r2, cf): (u64, u64) = adc(dst[2], src[2], cf);
    let (r3, cf): (u64, u64) = adc(dst[3], src[3], cf);
    ([r0, r1, r2, r3], cf)
}

/// A `sub`/`sbb` chain over four limbs: the difference modulo 2^256 and
/// the carry flag that the last `sbb` leaves, set where it borrowed.
pub fn sub_chain(dst: &[u64; 4], src: &[u64; 4]) -> (r: ([u64; 4], u64))
    ensures
        val4(r.0) - radix() * r.1 == val4(*dst) - val4(*src),
        r.1 <= 1,
{
    let (r0, cf): (u64, u64) = sbb(dst[0], src[0], 0);
    let (r1, cf): (u64, u64) = sbb(dst[1], src[1], cf);
    let (r2, cf): (u64, u64) = sbb(dst[2], src[2], cf);
    let (r3, cf): (u64, u64) = sbb(dst[3], src[3], cf);
    ([r0, r1, r2, r3], cf)
}

/// A `cmovc` per limb: `src` where the carry flag is set, else `dst`.
pub fn cmovc_all(dst: &[u64; 4], src: &[u64; 4], cf: u64) -> (r: [u64; 4])
    requires
        cf <= 1,
    ensures
        r == if cf == 1 { *src } else { *dst },
{
    let r0: u64 = cmovc(dst[0], src[0], cf);
    let r1: u64 = cmovc(dst[1], src[1], cf);
    let r2: u64 = cmovc(dst[2], src[2], cf);
    let r3: u64 = cmovc(dst[3], src[3], cf);
    let r: [u64; 4] = [r0, r1, r2, r3];
    assert(r@ =~= (if cf == 1 { *src } else { *dst })@);
    r
}

/// An `and` per limb with a mask register of all zeros or all ones.
pub fn and_all(dst: &[u64; 4], mask: u64) -> (r: [u64; 4])
    requires
        mask == 0 || mask == u64::MAX,
    ensures
        val4(r) == if mask == 0 { 0 } else { val4(*dst) },
{
    let r0: u64 = and_mask(dst[0], mask);
    let r1: u64 = and_mask(dst[1], mask);
    let r2: u64 = and_mask(dst[2], mask);
    let r3: u64 = and_mask(dst[3], mask);
    [r0, r1, r2, r3]
}

/// Adds two field elements: an `add`/`adc` chain, a `sub`/`sbb` chain
/// against the modulus, and a `cmovc` per limb that restores the sum where
/// the subtraction borrowed.
pub fn add(a: &[u64; 4], b: &[u64; 4], m: &[u64; 4]) -> (r: [u64; 4])
    requires
        valid_modulus(val4(*m)),
        canonical(val4(*a), val4(*m)),
        canonical(val4(*b), val4(*m)),
    ensures
        val4(r) == add_mod(val4(*a), val4(*b), val4(*m)),
        canonical(val4(r), val4(*m)),
{
    let (raw, cf): ([u64; 4], u64) = add_chain(a, b);
    proof {
        lemma_val4_limbs(raw);
    }
    let (trial, cf): ([u64; 4], u64) = sub_chain(&raw, m);
    let r: [u64; 4] = cmovc_all(&trial, &raw, cf);
    proof {
        lemma_val4_limbs(trial);
        lemma_reduce_once(val4(raw), val4(*m), val4(r));
    }
    r
}

/// Doubles a field element: the instruction sequence of `add` with both
/// operands the same register.
pub fn double(a: &[u64; 4], m: &[u64; 4]) -> (r: [u64; 4])
    requires
        valid_modulus(val4(*m)),
        canonical(val4(*a), val4(*m)),
    ensures
        val4(r) == double_mod(val4(*a), val4(*m)),
        canonical(val4(r), val4(*m)),
{
    let (raw, cf): ([u64; 4], u64) = add_chain(a, a);
    proof {
        lemma_val4_limbs(raw);
    }
    let (trial, cf): ([u64; 4], u64) = sub_chain(&raw, m);
    let r: [u64; 4] = cmovc_all(&trial, &raw, cf);
    proof {
        lemma_val4_limbs(trial);
        lemma_reduce_once(val4(raw), val4(*m), val4(r));
    }
    r
}

/// Subtracts one field element from another: a `sub`/`sbb` chain, the
/// borrow spread into a mask by `sbb rax, rax`, the modulus masked by
/// `and`, and an `add`/`adc` chain.
pub fn sub(a: &[u64; 4], b: &[u64; 4], m: &[u64; 4]) -> (r: [u64; 4])
    requires
        valid_modulus(val4(*m)),
        canonical(val4(*a), val4(*m)),
        canonical(val4(*b), val4(*m)),
    ensures
        val4(r) == sub_mod(val4(*a), val4(*b), val4(*m)),
        canonical(val4(r), val4(*m)),
{
    let (diff, cf): ([u64; 4], u64) = sub_chain(a, b);
    let (rax, _cf): (u64, u64) = sbb(0, 0, cf);
    let masked: [u64; 4] = and_all(m, rax);
    let (r, _cf): ([u64; 4], u64) = add_chain(&masked, &diff);
    proof {
        lemma_val4_limbs(diff);
        lemma_val4_limbs(r);
        lemma_sub_mod(val4(*a), val4(*b), val4(*m), val4(r));
    }
    r
}

/// Negates a field element: the modulus minus the element by a
/// `sub`/`sbb` chain, the limbs of the element folded by `or`, and the
/// difference masked to zero where the comparison finds the fold zero.
pub fn neg(a: &[u64; 4], m: &[u64; 4]) -> (r: [u64; 4])
    requires
        valid_modulus(val4(*m)),
        canonical(val4(*a), val4(*m)),
    ensures
        val4(r) == neg_mod(val4(*a), val4(*m)),
        canonical(val4(r), val4(*m)),
{
    let (diff, cf): ([u64; 4], u64) = sub_chain(m, a);

    let r12: u64 = or(a[0], a[1]);
    let r14: u64 = or(a[2], a[3]);
    let r12: u64 = or(r12, r14);

    let r13: u64 = 0xffff_ffff_ffff_ffff;
    let zf: u64 = compare_zero(r12);
    let r13: u64 = cmove(r13, r12, zf);

    let r: [u64; 4] = and_all(&diff, r13);
    proof {
        assert(r12 == 0 <==> val4(*a) == 0);
        lemma_val4_limbs(diff);
        lemma_neg_mod(val4(*a), val4(*m), val4(r));
    }
    r
}

/// What the two interleaved carry chains of one row add up to. The low
/// halves `l` join the chain on the overflow flag (`x`, `o`), the high
/// halves `h` the chain on the carry flag (`y`, `c`), one limb higher.
proof fn lemma_two_chains(
    t: [u64; 4],
    top: u64,
    l: [u64; 4],
    h: [u64; 4],
    x: [u64; 5],
    o: [u64; 5],
    y: [u64; 5],
    c: [u64; 5],
)
    requires
        x[0] + base() * o[0] == t[0] + l[0],
        y[1] + base() * c[1] == t[1] + h[0],
        x[1] + base() * o[1] == y[1] + l[1] + o[0],
        y[2] + base() * c[2] == t[2] + h[1] + c[1],
        x[2] + base() * o[2] == y[2] + l[2] + o[1],
        y[3] + base() * c[3] == t[3] + h[2] + c[2],
        x[3] + base() * o[3] == y[3] + l[3] + o[2],
        y[4] + base() * c[4] == top + h[3] + c[3],
        x[4] + base() * o[4] == y[4] + o[3],
    ensures
        val4([x[0], x[1], x[2], x[3]]) + radix() * (x[4] + base() * (c[4] + o[4])) == val4(t)
            + radix() * top + (l[0] + base() * h[0]) + 0x1_0000_0000_0000_0000 * (l[1] + base()
            * h[1]) + 0x1_0000_0000_0000_0000_0000_0000_0000_0000int * (l[2] + base() * h[2])
            + 0x1_0000_0000_0000_0000_0000_0000_0000_0000_0000_0000_0000_0000int * (l[3] + base()
            * h[3]),
{
}

/// Closing a reduction round: limbs that satisfy the row identity with the
/// right digit are the reduction step, and nothing is carried out.
proof fn lemma_round_exact(t: [u64; 4], m: [u64; 4], inv: u64, d: u64, r: [u64; 4], carry: int)
    requires
        valid_modulus(val4(m)),
        valid_inv(m[0], inv),
        d as int == (t[0] * inv) % base(),
        0 <= carry,
        base() * (val4(r) + radix() * carry) == val4(t) + d * val4(m),
    ensures
        val4(r) == redc_step(val4(t), val4(m), inv),
        carry == 0,
{
    lemma_low_limb(t);
    lemma_low_limb(m);
    assert(d == redc_digit(val4(t), inv));
    lemma_redc_step(val4(t), val4(m), m[0], inv);
    lemma_val4_limbs(t);
    lemma_val4_limbs(m);
    lemma_val4_limbs(r);
    assert(d * val4(m) <= 0xffff_ffff_ffff_ffff * val4(m)) by (nonlinear_arith)
        requires
            0 <= d <= 0xffff_ffff_ffff_ffff,
            0 <= val4(m),
    ;
}

/// One reduction round: the quotient digit from `mulx` by `inv`, then for
/// each limb of the modulus a `mulx` whose low half joins the chain on the
/// overflow flag and whose high half joins the chain on the carry flag.
/// The lowest limb comes out zero and its register takes the top limb.
/// Both flags enter clear and leave clear.
pub fn reduce_round(t: &[u64; 4], m: &[u64; 4], inv: u64, r12: u64, cf: u64, of: u64) -> (r: (
    [u64; 4],
    u64,
    u64,
))
    requires
        valid_modulus(val4(*m)),
        valid_inv(m[0], inv),
        r12 == 0,
        cf == 0,
        of == 0,
    ensures
        val4(r.0) == redc_step(val4(*t), val4(*m), inv),
        r.1 == 0,
        r.2 == 0,
{
    let rdx: u64 = t[0];
    let (rcx, rdx): (u64, u64) = mulx(rdx, inv);
    // j0
    let (h0, l0): (u64, u64) = mulx(rdx, m[0]);
    let (x0, o0): (u64, u64) = adox(t[0], l0, of);
    let (y1, c1): (u64, u64) = adcx(t[1], h0, cf);
    // j1
    let (h1, l1): (u64, u64) = mulx(rdx, m[1]);
    let (x1, o1): (u64, u64) = adox(y1, l1, o0);
    let (y2, c2): (u64, u64) = adcx(t[2], h1, c1);
    // j2
    let (h2, l2): (u64, u64) = mulx(rdx, m[2]);
    let (x2, o2): (u64, u64) = adox(y2, l2, o1);
    let (y3, c3): (u64, u64) = adcx(t[3], h2, c2);
    // j3
    let (h3, l3): (u64, u64) = mulx(rdx, m[3]);
    let (x3, o3): (u64, u64) = adox(y3, l3, o2);
    proof {
        lemma_fundamental_div_mod_converse(t[0] * inv, base(), rcx as int, rdx as int);
        lemma_small_mod(t[0] as nat, base() as nat);
        lemma_small_mod(m[0] as nat, base() as nat);
        lemma_redc_step(t[0] as int, m[0] as int, m[0], inv);
        assert(x0 == 0);
    }
    let (y4, c4): (u64, u64) = adcx(x0, h3, c3);
    let (x4, o4): (u64, u64) = adox(y4, r12, o3);
    proof {
        lemma_two_chains(
            *t,
            0,
            [l0, l1, l2, l3],
            [h0, h1, h2, h3],
            [x0, x1, x2, x3, x4],
            [o0, o1, o2, o3, o4],
            [0, y1, y2, y3, y4],
            [0, c1, c2, c3, c4],
        );
        lemma_scale_val4(rdx as int, *m);
        lemma_round_exact(*t, *m, inv, rdx, [x1, x2, x3, x4], c4 + o4);
    }
    ([x1, x2, x3, x4], c4, o4)
}

/// Converts a field element from Montgomery form to standard form: four
/// reduction rounds, after `xor r12, r12` has cleared both flags. No final
/// subtraction follows: every round maps a canonical value to a canonical
/// one.
pub fn from_mont(a: &[u64; 4], m: &[u64; 4], inv: u64) -> (r: [u64; 4])
    requires
        valid_modulus(val4(*m)),
        valid_inv(m[0], inv),
        canonical(val4(*a), val4(*m)),
    ensures
        val4(r) == mont_reduce(val4(*a), val4(*m)),
        canonical(val4(r), val4(*m)),
{
    let r15: u64 = inv;
    let r12: u64 = 0;
    let cf: u64 = 0;
    let of: u64 = 0;
    proof {
        lemma_low_limb(*m);
        reveal_with_fuel(redc_n, 5);
    }
    // i0
    let (t, cf, of): ([u64; 4], u64, u64) = reduce_round(a, m, r15, r12, cf, of);
    // i1
    let (t, cf, of): ([u64; 4], u64, u64) = reduce_round(&t, m, r15, r12, cf, of);
    // i2
    let (t, cf, of): ([u64; 4], u64, u64) = reduce_round(&t, m, r15, r12, cf, of);
    // i3
    let (t, cf, of): ([u64; 4], u64, u64) = reduce_round(&t, m, r15, r12, cf, of);
    proof {
        assert(val4(t) == redc_n(val4(*a), val4(*m), inv, 4));
        lemma_val4_limbs(*a);
        assert(val4(*a) < val4(*m) * radix()) by (nonlinear_arith)
            requires
                0 <= val4(*a) < val4(*m),
                radix() > 0,
        ;
        lemma_redc_correct(val4(*a), val4(*m), m[0], inv);
        lemma_mod_bound(val4(*a) * radix_inverse(val4(*m)), val4(*m));
    }
    t
}

/// Closing a multiply-accumulate row: the sum fits in five limbs, so
/// nothing is carried out of the fifth.
proof fn lemma_row_fits(t: [u64; 4], a: [u64; 4], rdx: u64, x: [u64; 4], x4: u64, carry: int)
    requires
        0 <= carry,
        val4(x) + radix() * (x4 + base() * carry) == val4(t) + rdx * val4(a),
    ensures
        carry == 0,
        val4(x) + radix() * x4 == val4(t) + val4(a) * rdx,
{
    lemma_val4_limbs(t);
    lemma_val4_limbs(a);
    lemma_val4_limbs(x);
    assert(rdx * val4(a) <= 0xffff_ffff_ffff_ffff * val4(a)) by (nonlinear_arith)
        requires
            0 <= rdx <= 0xffff_ffff_ffff_ffff,
            0 <= val4(a),
    ;
    assert(val4(a) * rdx == rdx * val4(a)) by (nonlinear_arith);
    assert(base() * carry == 0x1_0000_0000_0000_0000 * carry);
    assert(radix() * (x4 + 0x1_0000_0000_0000_0000 * carry) >= radix() * x4
        + 0x1_0000_0000_0000_0000_0000_0000_0000_0000_0000_0000_0000_0000_0000_0000_0000_0000int
        * carry);
}

/// The multiply-accumulate row of one round: `rdx` times each limb of `a`
/// by `mulx`, the low halves added on the overflow-flag chain and the high
/// halves on the carry-flag chain, into the accumulator and a fifth limb.
/// Both flags enter clear and leave clear.
pub fn accumulate_row(t: &[u64; 4], a: &[u64; 4], rdx: u64, cf: u64, of: u64) -> (r: (
    [u64; 4],
    u64,
    u64,
    u64,
))
    requires
        cf == 0,
        of == 0,
    ensures
        val4(r.0) + radix() * r.1 == val4(*t) + val4(*a) * rdx,
        r.2 == 0,
        r.3 == 0,
{
    let r12: u64 = 0;
    // j0
    let (h0, l0): (u64, u64) = mulx(rdx, a[0]);
    let (x0, o0): (u64, u64) = adox(t[0], l0, of);
    let (y1, c1): (u64, u64) = adcx(t[1], h0, cf);
    // j1
    let (h1, l1): (u64, u64) = mulx(rdx, a[1]);
    let (x1, o1): (u64, u64) = adox(y1, l1, o0);
    let (y2, c2): (u64, u64) = adcx(t[2], h1, c1);
    // j2
    let (h2, l2): (u64, u64) = mulx(rdx, a[2]);
    let (x2, o2): (u64, u64) = adox(y2, l2, o1);
    let (y3, c3): (u64, u64) = adcx(t[3], h2, c2);
    // j3
    let (h3, l3): (u64, u64) = mulx(rdx, a[3]);
    let (x3, o3): (u64, u64) = adox(y3, l3, o2);
    let (y4, c4): (u64, u64) = adcx(r12, h3, c3);
    let (x4, o4): (u64, u64) = adox(y4, r12, o3);
    proof {
        lemma_two_chains(
            *t,
            0,
            [l0, l1, l2, l3],
            [h0, h1, h2, h3],
            [x0, x1, x2, x3, x4],
            [o0, o1, o2, o3, o4],
            [0, y1, y2, y3, y4],
            [0, c1, c2, c3, c4],
        );
        lemma_scale_val4(rdx as int, *a);
        lemma_row_fits(*t, *a, rdx, [x0, x1, x2, x3], x4, c4 + o4);
    }
    ([x0, x1, x2, x3], x4, c4, o4)
}

/// Multiplies two field elements in Montgomery form: for each limb of `b`
/// a multiply-accumulate row and a reduction round, the fifth limb folded
/// into the top by `adc`, then an `sub`/`sbb` chain against the modulus
/// and a `cmovc` per limb.
pub fn mul(a: &[u64; 4], b: &[u64; 4], m: &[u64; 4], inv: u64) -> (r: [u64; 4])
    requires
        valid_modulus(val4(*m)),
        valid_inv(m[0], inv),
        canonical(val4(*a), val4(*m)),
        canonical(val4(*b), val4(*m)),
    ensures
        val4(r) == mont_mul(val4(*a), val4(*b), val4(*m)),
        canonical(val4(r), val4(*m)),
{
    let r15: u64 = inv;
    let r12: u64 = 0;
    let cf: u64 = 0;
    let of: u64 = 0;
    let t: [u64; 4] = [0, 0, 0, 0];
    proof {
        reveal_with_fuel(cios, 5);
    }
    // i0
    let (t, cf, of): ([u64; 4], u64, u64) = mul_round(&t, a, b, 0, m, r15, r12, cf, of);
    // i1
    let (t, cf, of): ([u64; 4], u64, u64) = mul_round(&t, a, b, 1, m, r15, r12, cf, of);
    // i2
    let (t, cf, of): ([u64; 4], u64, u64) = mul_round(&t, a, b, 2, m, r15, r12, cf, of);
    // i3
    let (t, cf, of): ([u64; 4], u64, u64) = mul_round(&t, a, b, 3, m, r15, r12, cf, of);
    proof {
        lemma_low_limb(*m);
        lemma_cios_correct(val4(*a), *b, val4(*m), m[0], inv);
    }
    let (trial, cf): ([u64; 4], u64) = sub_chain(&t, m);
    let r: [u64; 4] = cmovc_all(&trial, &t, cf);
    proof {
        lemma_val4_limbs(trial);
        lemma_reduce_once(val4(t), val4(*m), val4(r));
    }
    r
}

/// Round `i` of the multiplication: the multiply-accumulate row for limb
/// `i` of `b`, the reduction round, and the fifth limb added to the top.
pub fn mul_round(
    t: &[u64; 4],
    a: &[u64; 4],
    b: &[u64; 4],
    i: usize,
    m: &[u64; 4],
    inv: u64,
    r12: u64,
    cf: u64,
    of: u64,
) -> (r: ([u64; 4], u64, u64))
    requires
        valid_modulus(val4(*m)),
        valid_inv(m[0], inv),
        canonical(val4(*a), val4(*m)),
        i < 4,
        val4(*t) == cios(val4(*a), b@, val4(*m), inv, i as nat),
        r12 == 0,
        cf == 0,
        of == 0,
    ensures
        val4(r.0) == cios(val4(*a), b@, val4(*m), inv, (i + 1) as nat),
        r.1 == 0,
        r.2 == 0,
{
    let rdx: u64 = b[i];
    let (u, r13, cf, of): ([u64; 4], u64, u64, u64) = accumulate_row(t, a, rdx, cf, of);
    let (v, cf, of): ([u64; 4], u64, u64) = reduce_round(&u, m, inv, r12, cf, of);
    let (r11, cf): (u64, u64) = adc(v[3], r13, cf);
    proof {
        lemma_low_limb(*m);
        lemma_val4_limbs(*a);
        lemma_cios_bound(val4(*a), b@, val4(*m), m[0], inv, (i + 1) as nat);
        lemma_redc_step_high(
            val4(u),
            0x1_0000_0000_0000_0000_0000_0000_0000_0000_0000_0000_0000_0000int * r13,
            val4(*m),
            m[0],
            inv,
        );
        lemma_val4_limbs([v[0], v[1], v[2], r11]);
    }
    ([v[0], v[1], v[2], r11], cf, of)
}

} // verus!
