//! What holds of the field operations: closure, the algebraic laws of
//! addition and of Montgomery multiplication, the consistency of the
//! shorthand operations, and the round trip through Montgomery form. Each
//! is stated over the functions that the contracts of the operations use,
//! so that with `lemma_val4_injective` it holds of their results limb for
//! limb.

use vstd::prelude::*;
use vstd::arithmetic::div_mod::{
    lemma_add_mod_noop, lemma_add_mod_noop_right, lemma_mod_bound, lemma_mod_twice,
    lemma_mul_mod_noop_general, lemma_small_mod,
};
use crate::modular::{
    add_mod, canonical, double_mod, lemma_mont_reduce_unique, mont_mul, mont_one, mont_reduce,
    mont_square, neg_mod, radix_inverse, sub_mod, to_mont, valid_modulus,
};
use crate::value::{lemma_val4_injective, radix, val4};

verus! {

/// Agreement of the backends: two results that stand for the same value
/// are the same, limb for limb. Every backend states the value of its
/// result by the same function of the operands, so on the same operands
/// an optimized backend and the portable one give the same limbs.
pub proof fn lemma_backends_agree(optimized: [u64; 4], portable: [u64; 4])
    requires
        val4(optimized) == val4(portable),
    ensures
        optimized == portable,
{
    lemma_val4_injective(optimized, portable);
}

/// Closure: on canonical operands every operation gives a canonical
/// result.
pub proof fn lemma_closure(a: int, b: int, m: int)
    requires
        valid_modulus(m),
        canonical(a, m),
        canonical(b, m),
    ensures
        canonical(add_mod(a, b, m), m),
        canonical(sub_mod(a, b, m), m),
        canonical(neg_mod(a, m), m),
        canonical(double_mod(a, m), m),
        canonical(mont_mul(a, b, m), m),
        canonical(mont_square(a, m), m),
        canonical(mont_reduce(a, m), m),
{
    lemma_mod_bound(a + b, m);
    lemma_mod_bound(a - b, m);
    lemma_mod_bound(0 - a, m);
    lemma_mod_bound(2 * a, m);
    lemma_mod_bound((a * b) * radix_inverse(m), m);
    lemma_mod_bound((a * a) * radix_inverse(m), m);
    lemma_mod_bound(a * radix_inverse(m), m);
}

/// Additive inverse: an element plus its negation is zero, and the
/// negation of zero is zero.
pub proof fn lemma_additive_inverse(a: int, m: int)
    requires
        valid_modulus(m),
        canonical(a, m),
    ensures
        add_mod(a, neg_mod(a, m), m) == 0,
        neg_mod(0, m) == 0,
{
    lemma_add_mod_noop_right(a, 0 - a, m);
    lemma_small_mod(0, m as nat);
}

/// Addition is commutative.
pub proof fn lemma_add_commutative(a: int, b: int, m: int)
    requires
        valid_modulus(m),
        canonical(a, m),
        canonical(b, m),
    ensures
        add_mod(a, b, m) == add_mod(b, a, m),
{
}

/// Addition is associative.
pub proof fn lemma_add_associative(a: int, b: int, c: int, m: int)
    requires
        valid_modulus(m),
        canonical(a, m),
        canonical(b, m),
        canonical(c, m),
    ensures
        add_mod(add_mod(a, b, m), c, m) == add_mod(a, add_mod(b, c, m), m),
{
    lemma_small_mod(a as nat, m as nat);
    lemma_small_mod(c as nat, m as nat);
    lemma_add_mod_noop(a + b, c, m);
    lemma_add_mod_noop(a, b + c, m);
}

/// Values that are congruent modulo `m` have the same Montgomery
/// reduction.
pub proof fn lemma_mont_reduce_congruent(u: int, v: int, m: int)
    requires
        0 < m,
        u % m == v % m,
    ensures
        mont_reduce(u, m) == mont_reduce(v, m),
{
    lemma_mul_mod_noop_general(u, radix_inverse(m), m);
    lemma_mul_mod_noop_general(v, radix_inverse(m), m);
}

/// Montgomery multiplication is commutative.
pub proof fn lemma_mul_commutative(a: int, b: int, m: int)
    requires
        valid_modulus(m),
        canonical(a, m),
        canonical(b, m),
    ensures
        mont_mul(a, b, m) == mont_mul(b, a, m),
{
    assert(a * b == b * a) by (nonlinear_arith);
}

/// Montgomery multiplication is associative.
pub proof fn lemma_mul_associative(a: int, b: int, c: int, m: int)
    requires
        valid_modulus(m),
        canonical(a, m),
        canonical(b, m),
        canonical(c, m),
    ensures
        mont_mul(mont_mul(a, b, m), c, m) == mont_mul(a, mont_mul(b, c, m), m),
{
    let k: int = radix_inverse(m);
    let ab: int = (a * b) * k;
    let bc: int = (b * c) * k;
    // On the left, (ab % m) * c is congruent to ab * c.
    lemma_mul_mod_noop_general(ab, c, m);
    lemma_mont_reduce_congruent((ab % m) * c, ab * c, m);
    // On the right, a * (bc % m) is congruent to a * bc.
    lemma_mul_mod_noop_general(a, bc, m);
    lemma_mont_reduce_congruent(a * (bc % m), a * bc, m);
    assert(ab * c == a * bc) by {
        assert((a * b) * k == a * (b * k)) by (nonlinear_arith);
        assert((a * (b * k)) * c == a * ((b * k) * c)) by (nonlinear_arith);
        assert((b * k) * c == (b * c) * k) by (nonlinear_arith);
    }
}

/// Doubling is adding an element to itself.
pub proof fn lemma_double_is_add(a: int, m: int)
    requires
        valid_modulus(m),
        canonical(a, m),
    ensures
        double_mod(a, m) == add_mod(a, a, m),
{
}

/// Squaring is multiplying an element by itself.
pub proof fn lemma_square_is_mul(a: int, m: int)
    requires
        valid_modulus(m),
        canonical(a, m),
    ensures
        mont_square(a, m) == mont_mul(a, a, m),
{
}

/// An element minus itself is zero.
pub proof fn lemma_sub_self(a: int, m: int)
    requires
        valid_modulus(m),
        canonical(a, m),
    ensures
        sub_mod(a, a, m) == 0,
{
    lemma_small_mod(0, m as nat);
}

/// Zero is the identity of addition.
pub proof fn lemma_add_identity(a: int, m: int)
    requires
        valid_modulus(m),
        canonical(a, m),
    ensures
        add_mod(a, 0, m) == a,
{
    lemma_small_mod(a as nat, m as nat);
}

/// The Montgomery form of 1 is the identity of Montgomery multiplication.
pub proof fn lemma_mul_identity(a: int, m: int)
    requires
        valid_modulus(m),
        canonical(a, m),
    ensures
        canonical(mont_one(m), m),
        mont_mul(a, mont_one(m), m) == a,
{
    lemma_mod_bound(radix(), m);
    lemma_mul_mod_noop_general(a, radix(), m);
    lemma_mont_reduce_unique(a, a * mont_one(m), m);
}

/// Round trip: a standard-form element taken to Montgomery form and back
/// is the element itself.
pub proof fn lemma_round_trip(x: int, m: int)
    requires
        valid_modulus(m),
        canonical(x, m),
    ensures
        canonical(to_mont(x, m), m),
        mont_reduce(to_mont(x, m), m) == x,
{
    lemma_mod_bound(x * radix(), m);
    lemma_mod_twice(x * radix(), m);
    lemma_mont_reduce_unique(x, to_mont(x, m), m);
}

/// The Montgomery form of an element can be computed by the engine
/// itself: it is the Montgomery product of the element and the residue of
/// 2^512. Converting that product back recovers the element.
pub proof fn lemma_to_mont_by_mul(x: int, m: int)
    requires
        valid_modulus(m),
        canonical(x, m),
    ensures
        mont_mul(x, (radix() * radix()) % m, m) == to_mont(x, m),
        mont_reduce(mont_mul(x, (radix() * radix()) % m, m), m) == x,
{
    let r: int = radix();
    let t: int = to_mont(x, m);
    lemma_mod_bound(x * r, m);
    // t * R is congruent to x * R * R, and so is x * (R R % m).
    lemma_mul_mod_noop_general(x * r, r, m);
    lemma_mul_mod_noop_general(x, r * r, m);
    assert((x * r) * r == x * (r * r)) by (nonlinear_arith);
    lemma_mont_reduce_unique(t, x * ((r * r) % m), m);
    lemma_round_trip(x, m);
}

} // verus!
