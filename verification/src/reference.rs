//! The portable backend: every operation built from the limb primitives
//! alone, as loops over the limb index. It defines what any other backend
//! must compute.

use vstd::prelude::*;
use vstd::arithmetic::div_mod::{
    lemma_fundamental_div_mod_converse, lemma_mod_bound, lemma_mod_multiples_vanish,
    lemma_small_mod,
};
use crate::limb::{
    add_with_carry, base, either, keep, lemma_mul_carry_fits, mask_from_flag, mul_with_carry,
    nonzero_flag, select, sub_with_borrow,
};
use crate::modular::{
    add_mod, canonical, cios, double_mod, lemma_cios_bound, lemma_cios_correct,
    lemma_redc_correct, lemma_redc_n_bound, lemma_redc_step, lemma_redc_step_high, mont_mul,
    mont_reduce, mont_square, neg_mod, radix_inverse, redc_digit, redc_n, redc_step, sub_mod,
    valid_inv, valid_modulus,
};
use crate::value::{
    lemma_limbs_val_prefix, lemma_low_limb, lemma_val4_limbs, lemma_val8_split,
    lemma_weight_positive, lemma_weights, limbs_val, radix, upper_val, val4, val8, weight,
};

verus! {

/// Selects between two four-limb values limb by limb, without a branch.
pub fn select4(mask: u64, on_set: &[u64; 4], on_clear: &[u64; 4]) -> (r: [u64; 4])
    requires
        mask == 0 || mask == u64::MAX,
    ensures
        r == if mask == 0 { *on_clear } else { *on_set },
{
    let mut r: [u64; 4] = [0u64; 4];
    let mut i: usize = 0;
    while i < 4
        invariant
            i <= 4,
            mask == 0 || mask == u64::MAX,
            forall|k: int| 0 <= k < i ==> r[k] == (if mask == 0 { on_clear[k] } else { on_set[k] }),
        decreases 4 - i,
    {
        r[i] = select(mask, on_set[i], on_clear[i]);
        i += 1;
    }
    assert(r@ =~= (if mask == 0 { *on_clear } else { *on_set })@);
    r
}

/// Computes `a - b` modulo 2^256 with a borrow chain, and the borrow out.
pub fn sub_limbs(a: &[u64; 4], b: &[u64; 4]) -> (r: ([u64; 4], u64))
    ensures
        val4(r.0) - radix() * r.1 == val4(*a) - val4(*b),
        r.1 <= 1,
{
    let mut d: [u64; 4] = [0u64; 4];
    let mut borrow: u64 = 0;
    let mut i: usize = 0;
    while i < 4
        invariant
            i <= 4,
            borrow <= 1,
            limbs_val(d@, i as nat) - weight(i as nat) * borrow == limbs_val(a@, i as nat)
                - limbs_val(b@, i as nat),
        decreases 4 - i,
    {
        let ghost before: Seq<u64> = d@;
        let (diff, borrow_out): (u64, u64) = sub_with_borrow(a[i], b[i], borrow);
        d[i] = diff;
        proof {
            lemma_limbs_val_prefix(before, d@, i as nat);
            lemma_weight_positive(i as nat);
            let w: int = weight(i as nat);
            assert(w * diff - (base() * w) * borrow_out == w * a[i as int] - w * b[i as int] - w
                * borrow) by (nonlinear_arith)
                requires
                    diff - base() * borrow_out == a[i as int] - b[i as int] - borrow,
            ;
        }
        borrow = borrow_out;
        i += 1;
    }
    proof {
        lemma_val4_limbs(d);
        lemma_val4_limbs(*a);
        lemma_val4_limbs(*b);
        lemma_weights();
    }
    (d, borrow)
}

/// Computes `a + b` modulo 2^256 with a carry chain, and the carry out.
pub fn add_limbs(a: &[u64; 4], b: &[u64; 4]) -> (r: ([u64; 4], u64))
    ensures
        val4(r.0) + radix() * r.1 == val4(*a) + val4(*b),
        r.1 <= 1,
{
    let mut s: [u64; 4] = [0u64; 4];
    let mut carry: u64 = 0;
    let mut i: usize = 0;
    while i < 4
        invariant
            i <= 4,
            carry <= 1,
            limbs_val(s@, i as nat) + weight(i as nat) * carry == limbs_val(a@, i as nat)
                + limbs_val(b@, i as nat),
        decreases 4 - i,
    {
        let ghost before: Seq<u64> = s@;
        let (sum, carry_out): (u64, u64) = add_with_carry(a[i], b[i], carry);
        s[i] = sum;
        proof {
            lemma_limbs_val_prefix(before, s@, i as nat);
            lemma_weight_positive(i as nat);
            let w: int = weight(i as nat);
            assert(w * sum + (base() * w) * carry_out == w * a[i as int] + w * b[i as int] + w
                * carry) by (nonlinear_arith)
                requires
                    sum + base() * carry_out == a[i as int] + b[i as int] + carry,
            ;
            assert(carry_out <= 1);
        }
        carry = carry_out;
        i += 1;
    }
    proof {
        lemma_val4_limbs(s);
        lemma_val4_limbs(*a);
        lemma_val4_limbs(*b);
        lemma_weights();
    }
    (s, carry)
}

/// One conditional subtraction of the modulus: brings a value below `2 m`
/// into the canonical range.
pub fn reduce_once(t: &[u64; 4], m: &[u64; 4]) -> (r: [u64; 4])
    requires
        0 < val4(*m),
        val4(*t) < 2 * val4(*m),
    ensures
        val4(r) == val4(*t) % val4(*m),
        val4(r) == if val4(*t) < val4(*m) { val4(*t) } else { val4(*t) - val4(*m) },
{
    let (trial, borrow): ([u64; 4], u64) = sub_limbs(t, m);
    let mask: u64 = mask_from_flag(borrow);
    let r: [u64; 4] = select4(mask, t, &trial);
    proof {
        lemma_val4_limbs(trial);
        lemma_val4_limbs(*t);
        lemma_val4_limbs(*m);
        if val4(*t) < val4(*m) {
            lemma_small_mod(val4(*t) as nat, val4(*m) as nat);
        } else {
            lemma_fundamental_div_mod_converse(val4(*t), val4(*m), 1, val4(*t) - val4(*m));
        }
    }
    r
}

/// Adds two field elements.
pub fn add(a: &[u64; 4], b: &[u64; 4], m: &[u64; 4]) -> (r: [u64; 4])
    requires
        valid_modulus(val4(*m)),
        canonical(val4(*a), val4(*m)),
        canonical(val4(*b), val4(*m)),
    ensures
        val4(r) == add_mod(val4(*a), val4(*b), val4(*m)),
        canonical(val4(r), val4(*m)),
{
    let (raw, carry): ([u64; 4], u64) = add_limbs(a, b);
    proof {
        lemma_val4_limbs(raw);
    }
    reduce_once(&raw, m)
}

/// The multiply-accumulate pass of one round: adds `a * bi` to the
/// accumulator `t`, limb by limb, and folds the running carry into a fifth
/// limb.
pub fn accumulate_row(t: &[u64; 4], a: &[u64; 4], bi: u64) -> (u: [u64; 5])
    ensures
        limbs_val(u@, 5) == val4(*t) + val4(*a) * bi,
{
    let mut u: [u64; 5] = [0u64; 5];
    let mut acc: u64 = 0;
    let mut j: usize = 0;
    while j < 4
        invariant
            j <= 4,
            limbs_val(u@, j as nat) + weight(j as nat) * acc == limbs_val(t@, j as nat) + limbs_val(
                a@,
                j as nat,
            ) * bi,
        decreases 4 - j,
    {
        let ghost before: Seq<u64> = u@;
        let (mul_low, mul_high): (u64, u64) = mul_with_carry(a[j], bi, acc);
        let (sum, carry): (u64, u64) = add_with_carry(t[j], mul_low, 0);
        proof {
            lemma_mul_carry_fits(a[j as int], bi, acc);
        }
        let acc_out: u64 = mul_high + carry;
        u[j] = sum;
        proof {
            lemma_limbs_val_prefix(before, u@, j as nat);
            lemma_weight_positive(j as nat);
            let w: int = weight(j as nat);
            let l: int = limbs_val(a@, j as nat);
            let aj: int = a[j as int] as int;
            assert(w * sum + (base() * w) * acc_out == w * t[j as int] + (w * aj) * bi + w * acc)
                by (nonlinear_arith)
                requires
                    sum + base() * acc_out == t[j as int] + aj * bi + acc,
            ;
            assert((l + w * aj) * bi == l * bi + (w * aj) * bi) by (nonlinear_arith);
        }
        acc = acc_out;
        j += 1;
    }
    let ghost before: Seq<u64> = u@;
    u[4] = acc;
    proof {
        lemma_limbs_val_prefix(before, u@, 4);
        lemma_val4_limbs(*t);
        lemma_val4_limbs(*a);
    }
    u
}

/// The quotient digit clears the lowest limb: the sum of the limb and the
/// low half of the digit times the modulus limb is a multiple of 2^64.
proof fn lemma_first_fold(u0: u64, m0: u64, inv: u64, digit: u64, low: u64, high: u64, sum: u64,
    carry: u64)
    requires
        valid_inv(m0, inv),
        digit as int == (u0 * inv) % 0x1_0000_0000_0000_0000,
        low + base() * high == digit * m0,
        sum + base() * carry == u0 + low,
    ensures
        sum == 0,
        base() * (high + carry) == u0 + digit * m0,
        high + carry < base(),
{
    lemma_small_mod(u0 as nat, base() as nat);
    lemma_small_mod(m0 as nat, base() as nat);
    lemma_redc_step(u0 as int, m0 as int, m0, inv);
    lemma_mul_carry_fits(digit, m0, 0);
    let q: int = redc_step(u0 as int, m0 as int, inv);
    assert(q * base() == u0 + digit * m0);
    assert(sum == base() * (q - high - carry));
}

/// Closing the reduction pass: with the top limb folded in, the limbs of
/// the shifted window and the carry out are the reduction step.
proof fn lemma_reduce_row_close(
    u: [u64; 5],
    m: [u64; 4],
    inv: u64,
    digit: u64,
    before: Seq<u64>,
    t: [u64; 4],
    fold: u64,
    carry_out: u64,
)
    requires
        valid_inv(m[0], inv),
        digit as int == (u[0] * inv) % 0x1_0000_0000_0000_0000,
        before.len() == 4,
        base() * limbs_val(before, 3) + weight(4) * fold == limbs_val(u@, 4) + digit * limbs_val(
            m@,
            4,
        ),
        forall|k: int| 0 <= k < 3 ==> t[k] == before[k],
        t[3] + base() * carry_out == u[4] + fold,
    ensures
        val4(t) + radix() * carry_out == redc_step(limbs_val(u@, 5), val4(m), inv),
{
    lemma_limbs_val_prefix(before, t@, 3);
    lemma_val4_limbs(t);
    lemma_val4_limbs(m);
    lemma_weights();
    lemma_low_limb(m);
    let total: int = limbs_val(u@, 5);
    let shifted: int = val4(t) + radix() * carry_out;
    let low: int = limbs_val(before, 3);
    let t3: int = t[3] as int;
    // Every product with a weight, written with the weight as a number.
    assert(weight(4) * fold
        == 0x1_0000_0000_0000_0000_0000_0000_0000_0000_0000_0000_0000_0000_0000_0000_0000_0000int
        * fold);
    assert(weight(4) * u[4]
        == 0x1_0000_0000_0000_0000_0000_0000_0000_0000_0000_0000_0000_0000_0000_0000_0000_0000int
        * u[4]);
    assert(weight(3) * t3 == 0x1_0000_0000_0000_0000_0000_0000_0000_0000_0000_0000_0000_0000int
        * t3);
    assert(base() * carry_out == 0x1_0000_0000_0000_0000 * carry_out);
    assert(base() * shifted == 0x1_0000_0000_0000_0000 * shifted);
    assert(total == limbs_val(u@, 4)
        + 0x1_0000_0000_0000_0000_0000_0000_0000_0000_0000_0000_0000_0000_0000_0000_0000_0000int
        * u[4]);
    assert(val4(t) == low + 0x1_0000_0000_0000_0000_0000_0000_0000_0000_0000_0000_0000_0000int
        * t3);
    assert(0x1_0000_0000_0000_0000 * low
        + 0x1_0000_0000_0000_0000_0000_0000_0000_0000_0000_0000_0000_0000_0000_0000_0000_0000int
        * fold == limbs_val(u@, 4) + digit * val4(m));
    assert(0x1_0000_0000_0000_0000 * shifted == 0x1_0000_0000_0000_0000 * low
        + 0x1_0000_0000_0000_0000_0000_0000_0000_0000_0000_0000_0000_0000_0000_0000_0000_0000int
        * (t3 + 0x1_0000_0000_0000_0000 * carry_out));
    assert(base() * shifted == total + digit * val4(m));
    // The digit depends on the lowest limb alone.
    lemma_limbs_low(u@, 5);
    assert(redc_digit(total, inv) == digit as int);
    lemma_redc_step(total, val4(m), m[0], inv);
}

/// The value of a limb sequence is congruent to its lowest limb.
proof fn lemma_limbs_low(s: Seq<u64>, k: nat)
    requires
        1 <= k,
    ensures
        limbs_val(s, k) % base() == s[0] as int,
    decreases k,
{
    if k == 1 {
        reveal_with_fuel(limbs_val, 2);
        lemma_weights();
        lemma_small_mod(s[0] as nat, base() as nat);
    } else {
        let j: nat = (k - 1) as nat;
        lemma_limbs_low(s, j);
        lemma_weight_positive((j - 1) as nat);
        let w: int = weight((j - 1) as nat);
        let x: int = s[j as int] as int;
        assert(weight(j) * x == base() * (w * x)) by (nonlinear_arith)
            requires
                weight(j) == base() * w,
        ;
        lemma_mod_multiples_vanish(w * x, limbs_val(s, j), base());
    }
}

/// The reduction pass of one round: adds the multiple of the modulus that
/// clears the lowest limb of `u`, and shifts the window down by one limb.
/// The carry out of the top limb is returned beside the four limbs.
pub fn reduce_row(u: &[u64; 5], m: &[u64; 4], inv: u64) -> (r: ([u64; 4], u64))
    requires
        valid_inv(m[0], inv),
    ensures
        val4(r.0) + radix() * r.1 == redc_step(limbs_val(u@, 5), val4(*m), inv),
        r.1 <= 1,
{
    let mut t: [u64; 4] = [0u64; 4];
    let digit: u64 = u[0].wrapping_mul(inv);
    let (mul_low, mul_high): (u64, u64) = mul_with_carry(digit, m[0], 0);
    let (sum, carry): (u64, u64) = add_with_carry(u[0], mul_low, 0);
    proof {
        lemma_first_fold(u[0], m[0], inv, digit, mul_low, mul_high, sum, carry);
    }
    let mut fold: u64 = mul_high + carry;
    let mut j: usize = 1;
    proof {
        reveal_with_fuel(limbs_val, 2);
        lemma_weights();
    }
    while j < 4
        invariant
            1 <= j <= 4,
            base() * limbs_val(t@, (j - 1) as nat) + weight(j as nat) * fold == limbs_val(
                u@,
                j as nat,
            ) + digit * limbs_val(m@, j as nat),
        decreases 4 - j,
    {
        let ghost before: Seq<u64> = t@;
        let (mul_low, mul_high): (u64, u64) = mul_with_carry(digit, m[j], 0);
        let (sum, carry): (u64, u64) = add_with_carry(u[j], mul_low, fold);
        proof {
            lemma_mul_carry_fits(digit, m[j as int], 0);
        }
        let fold_out: u64 = mul_high + carry;
        t[j - 1] = sum;
        proof {
            lemma_limbs_val_prefix(before, t@, (j - 1) as nat);
            lemma_weight_positive((j - 1) as nat);
            lemma_weight_positive(j as nat);
            let w: int = weight(j as nat);
            let l: int = limbs_val(m@, j as nat);
            let mj: int = m[j as int] as int;
            assert(w * sum + (base() * w) * fold_out == w * u[j as int] + digit * (w * mj) + w
                * fold) by (nonlinear_arith)
                requires
                    sum + base() * fold_out == u[j as int] + digit * mj + fold,
            ;
            assert(digit * (l + w * mj) == digit * l + digit * (w * mj)) by (nonlinear_arith);
            assert(base() * (weight((j - 1) as nat) * sum) == w * sum) by (nonlinear_arith)
                requires
                    w == base() * weight((j - 1) as nat),
            ;
        }
        fold = fold_out;
        j += 1;
    }
    let ghost before: Seq<u64> = t@;
    let (top, carry_out): (u64, u64) = add_with_carry(u[4], fold, 0);
    t[3] = top;
    proof {
        lemma_reduce_row_close(*u, *m, inv, digit, before, t, fold, carry_out);
    }
    (t, carry_out)
}

/// Montgomery multiplication by coarsely integrated operand scanning: four
/// rounds of a multiply-accumulate pass and a reduction pass, then one
/// conditional subtraction.
pub fn montgomery_mul(a: &[u64; 4], b: &[u64; 4], m: &[u64; 4], inv: u64) -> (r: [u64; 4])
    requires
        valid_modulus(val4(*m)),
        valid_inv(m[0], inv),
        canonical(val4(*a), val4(*m)),
        canonical(val4(*b), val4(*m)),
    ensures
        val4(r) == mont_mul(val4(*a), val4(*b), val4(*m)),
        canonical(val4(r), val4(*m)),
{
    let mut t: [u64; 4] = [0u64; 4];
    let mut i: usize = 0;
    proof {
        lemma_val4_limbs(*m);
        lemma_val4_limbs(*a);
        lemma_low_limb(*m);
    }
    while i < 4
        invariant
            i <= 4,
            valid_modulus(val4(*m)),
            valid_inv(m[0], inv),
            val4(*m) % base() == m[0],
            canonical(val4(*a), val4(*m)),
            val4(t) == cios(val4(*a), b@, val4(*m), inv, i as nat),
        decreases 4 - i,
    {
        let u: [u64; 5] = accumulate_row(&t, a, b[i]);
        let (next, carry): ([u64; 4], u64) = reduce_row(&u, m, inv);
        proof {
            lemma_cios_bound(val4(*a), b@, val4(*m), m[0], inv, (i + 1) as nat);
            lemma_val4_limbs(next);
        }
        t = next;
        i += 1;
    }
    proof {
        lemma_cios_correct(val4(*a), *b, val4(*m), m[0], inv);
        lemma_mod_bound(val4(t), val4(*m));
    }
    reduce_once(&t, m)
}

/// Multiplies two field elements in Montgomery form.
pub fn mul(a: &[u64; 4], b: &[u64; 4], m: &[u64; 4], inv: u64) -> (r: [u64; 4])
    requires
        valid_modulus(val4(*m)),
        valid_inv(m[0], inv),
        canonical(val4(*a), val4(*m)),
        canonical(val4(*b), val4(*m)),
    ensures
        val4(r) == mont_mul(val4(*a), val4(*b), val4(*m)),
        canonical(val4(r), val4(*m)),
{
    montgomery_mul(a, b, m, inv)
}

/// Squares a field element in Montgomery form: the product of the element
/// with itself.
pub fn square(a: &[u64; 4], m: &[u64; 4], inv: u64) -> (r: [u64; 4])
    requires
        valid_modulus(val4(*m)),
        valid_inv(m[0], inv),
        canonical(val4(*a), val4(*m)),
    ensures
        val4(r) == mont_square(val4(*a), val4(*m)),
        canonical(val4(r), val4(*m)),
{
    self::mul(a, a, m, inv)
}

/// Doubles a field element: the sum of the element with itself.
pub fn double(a: &[u64; 4], m: &[u64; 4]) -> (r: [u64; 4])
    requires
        valid_modulus(val4(*m)),
        canonical(val4(*a), val4(*m)),
    ensures
        val4(r) == double_mod(val4(*a), val4(*m)),
        canonical(val4(r), val4(*m)),
{
    self::add(a, a, m)
}

/// Keeps a four-limb value where the mask is all ones and gives zero where
/// it is all zeros.
pub fn keep4(mask: u64, x: &[u64; 4]) -> (r: [u64; 4])
    requires
        mask == 0 || mask == u64::MAX,
    ensures
        val4(r) == if mask == 0 { 0 } else { val4(*x) },
{
    let mut r: [u64; 4] = [0u64; 4];
    let mut i: usize = 0;
    while i < 4
        invariant
            i <= 4,
            mask == 0 || mask == u64::MAX,
            forall|k: int| 0 <= k < i ==> r[k] == (if mask == 0 { 0 } else { x[k] }),
        decreases 4 - i,
    {
        r[i] = keep(mask, x[i]);
        i += 1;
    }
    r
}

/// Subtracts one field element from another: the difference with a borrow
/// chain, then the modulus added back under a mask where a borrow occurred.
pub fn sub(a: &[u64; 4], b: &[u64; 4], m: &[u64; 4]) -> (r: [u64; 4])
    requires
        valid_modulus(val4(*m)),
        canonical(val4(*a), val4(*m)),
        canonical(val4(*b), val4(*m)),
    ensures
        val4(r) == sub_mod(val4(*a), val4(*b), val4(*m)),
        canonical(val4(r), val4(*m)),
{
    let (diff, borrow): ([u64; 4], u64) = sub_limbs(a, b);
    let mask: u64 = mask_from_flag(borrow);
    let addend: [u64; 4] = keep4(mask, m);
    let (r, carry): ([u64; 4], u64) = add_limbs(&diff, &addend);
    proof {
        lemma_val4_limbs(diff);
        lemma_val4_limbs(r);
        let x: int = val4(*a) - val4(*b);
        if borrow == 0 {
            lemma_small_mod(x as nat, val4(*m) as nat);
        } else {
            lemma_fundamental_div_mod_converse(x, val4(*m), -1, x + val4(*m));
        }
    }
    r
}

/// Negates a field element: the modulus minus the element, masked to zero
/// where the element is zero.
pub fn neg(a: &[u64; 4], m: &[u64; 4]) -> (r: [u64; 4])
    requires
        valid_modulus(val4(*m)),
        canonical(val4(*a), val4(*m)),
    ensures
        val4(r) == neg_mod(val4(*a), val4(*m)),
        canonical(val4(r), val4(*m)),
{
    let (diff, borrow): ([u64; 4], u64) = sub_limbs(m, a);
    let mut any: u64 = 0;
    let mut i: usize = 0;
    while i < 4
        invariant
            i <= 4,
            any == 0 <==> (forall|k: int| 0 <= k < i ==> a[k] == 0),
        decreases 4 - i,
    {
        any = either(any, a[i]);
        i += 1;
    }
    let mask: u64 = mask_from_flag(nonzero_flag(any));
    let r: [u64; 4] = keep4(mask, &diff);
    proof {
        lemma_val4_limbs(diff);
        if any == 0 {
            assert(val4(*a) == 0);
            lemma_small_mod(0, val4(*m) as nat);
        } else {
            assert(val4(*a) != 0);
            lemma_fundamental_div_mod_converse(0 - val4(*a), val4(*m), -1, val4(*m) - val4(*a));
        }
    }
    r
}

/// Appends a fifth limb to a four-limb value.
pub fn widen(t: &[u64; 4], top: u64) -> (u: [u64; 5])
    ensures
        u@ == t@.push(top),
        limbs_val(u@, 5) == val4(*t) + radix() * top,
{
    let u: [u64; 5] = [t[0], t[1], t[2], t[3], top];
    proof {
        reveal_with_fuel(limbs_val, 6);
        lemma_weights();
        assert(u@ =~= t@.push(top));
    }
    u
}

/// Converts a field element from Montgomery form to standard form: four
/// reduction passes over the zero-extended element. No final subtraction
/// is needed, since every pass maps a canonical value to a canonical one.
pub fn from_mont(a: &[u64; 4], m: &[u64; 4], inv: u64) -> (r: [u64; 4])
    requires
        valid_modulus(val4(*m)),
        valid_inv(m[0], inv),
        canonical(val4(*a), val4(*m)),
    ensures
        val4(r) == mont_reduce(val4(*a), val4(*m)),
        canonical(val4(r), val4(*m)),
{
    let mut t: [u64; 4] = *a;
    let mut i: usize = 0;
    proof {
        lemma_val4_limbs(*m);
        lemma_val4_limbs(*a);
        lemma_low_limb(*m);
    }
    while i < 4
        invariant
            i <= 4,
            valid_modulus(val4(*m)),
            valid_inv(m[0], inv),
            val4(*m) % base() == m[0],
            canonical(val4(*a), val4(*m)),
            val4(t) == redc_n(val4(*a), val4(*m), inv, i as nat),
        decreases 4 - i,
    {
        let u: [u64; 5] = widen(&t, 0);
        let (next, carry): ([u64; 4], u64) = reduce_row(&u, m, inv);
        proof {
            lemma_weight_positive((i + 1) as nat);
            assert(val4(*a) < val4(*m) * weight((i + 1) as nat)) by (nonlinear_arith)
                requires
                    0 <= val4(*a) < val4(*m),
                    weight((i + 1) as nat) > 0,
            ;
            lemma_redc_n_bound(val4(*a), val4(*m), m[0], inv, (i + 1) as nat, val4(*m));
            lemma_val4_limbs(next);
        }
        t = next;
        i += 1;
    }
    proof {
        assert(val4(*a) < val4(*m) * radix()) by (nonlinear_arith)
            requires
                0 <= val4(*a) < val4(*m),
                radix() > 0,
        ;
        lemma_redc_correct(val4(*a), val4(*m), m[0], inv);
        lemma_mod_bound(val4(*a) * radix_inverse(val4(*m)), val4(*m));
    }
    t
}

/// Reduces an eight-limb value below `m * 2^256` to the canonical residue
/// of its quotient by 2^256: four reduction passes, each taking in the next
/// upper limb, then one conditional subtraction.
pub fn montgomery_reduce(w: &[u64; 8], m: &[u64; 4], inv: u64) -> (r: [u64; 4])
    requires
        valid_modulus(val4(*m)),
        valid_inv(m[0], inv),
        val8(*w) < val4(*m) * radix(),
    ensures
        val4(r) == mont_reduce(val8(*w), val4(*m)),
        canonical(val4(r), val4(*m)),
{
    let mut t: [u64; 4] = [w[0], w[1], w[2], w[3]];
    let mut pending: u64 = 0;
    let mut i: usize = 0;
    proof {
        lemma_val4_limbs(*m);
        lemma_low_limb(*m);
        lemma_val8_split(*w);
        lemma_val4_limbs(t);
        lemma_limbs_val_prefix(t@, w@, 4);
    }
    while i < 4
        invariant
            i <= 4,
            pending <= 2,
            valid_inv(m[0], inv),
            val4(*m) % base() == m[0],
            val4(t) + radix() * (pending + upper_val(w@, (4 + i) as nat, 8)) == redc_n(
                val8(*w),
                val4(*m),
                inv,
                i as nat,
            ),
        decreases 4 - i,
    {
        let (top, carry): (u64, u64) = add_with_carry(w[4 + i], pending, 0);
        let u: [u64; 5] = widen(&t, top);
        let (next, carry_out): ([u64; 4], u64) = reduce_row(&u, m, inv);
        proof {
            let rest: int = upper_val(w@, (5 + i) as nat, 8);
            assert(upper_val(w@, (4 + i) as nat, 8) == w[4 + i] + base() * rest);
            lemma_redc_step_high(
                limbs_val(u@, 5),
                radix() * (carry + rest),
                val4(*m),
                m[0],
                inv,
            );
        }
        t = next;
        pending = carry_out + carry;
        i += 1;
    }
    proof {
        lemma_redc_correct(val8(*w), val4(*m), m[0], inv);
        lemma_val4_limbs(t);
        assert(pending == 0);
        lemma_mod_bound(val4(t), val4(*m));
    }
    reduce_once(&t, m)
}

} // verus!
