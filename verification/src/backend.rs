//! Choosing a backend for the host platform, and running an optimized
//! backend beside the portable one to compare their results.

use vstd::prelude::*;
use crate::limb::{either, nonzero_flag};
use crate::modular::{
    add_mod, canonical, double_mod, mont_mul, mont_reduce, mont_square, neg_mod, sub_mod,
    valid_inv, valid_modulus,
};
use crate::reference::sub_limbs;
use crate::value::{
    lemma_limbs_val_bound, lemma_val4_injective, lemma_val4_limbs, lemma_val8_split,
    lemma_weights, limbs_val, radix, upper_val, val4, val8,
};

verus! {

/// The family of the host platform.
#[derive(Clone, Copy, Debug, PartialEq, Eq, Structural)]
pub enum Platform {
    X86_64,
    Aarch64,
    /// Any platform for which no optimized backend exists.
    Other,
}

/// An implementation of the operation set.
#[derive(Clone, Copy, Debug, PartialEq, Eq, Structural)]
pub enum Backend {
    /// The portable backend, built from the limb primitives alone.
    Reference,
    X86_64,
    Aarch64,
}

/// What can go wrong. Neither is a condition to recover from: the first is
/// a fault of the configuration, the second a fault of a backend.
#[derive(Clone, Copy, Debug, PartialEq, Eq)]
pub enum ArithError {
    /// No optimized backend matches the host platform.
    UnsupportedPlatform,
    /// An optimized backend and the portable backend disagree on a result.
    BackendMismatch { optimized: [u64; 4], reference: [u64; 4] },
}

/// The optimized backend of a platform family, where it has one.
pub open spec fn backend_for(platform: Platform) -> Option<Backend> {
    match platform {
        Platform::X86_64 => Some(Backend::X86_64),
        Platform::Aarch64 => Some(Backend::Aarch64),
        Platform::Other => None,
    }
}

/// Chooses the optimized backend of a platform family. A platform without
/// one is refused: nothing falls back to the portable backend silently.
pub fn select_backend(platform: Platform) -> (r: Result<Backend, ArithError>)
    ensures
        r == match backend_for(platform) {
            Some(backend) => Ok::<Backend, ArithError>(backend),
            None => Err::<Backend, ArithError>(ArithError::UnsupportedPlatform),
        },
{
    match platform {
        Platform::X86_64 => Ok(Backend::X86_64),
        Platform::Aarch64 => Ok(Backend::Aarch64),
        Platform::Other => Err(ArithError::UnsupportedPlatform),
    }
}

/// Tells whether two four-limb values are the same, by folding the limb
/// differences together instead of comparing limb by limb.
pub fn limbs_equal(a: &[u64; 4], b: &[u64; 4]) -> (eq: bool)
    ensures
        eq == (*a == *b),
{
    let mut diff: u64 = 0;
    let mut i: usize = 0;
    while i < 4
        invariant
            i <= 4,
            diff == 0 <==> (forall|k: int| 0 <= k < i ==> a[k] == b[k]),
        decreases 4 - i,
    {
        let x: u64 = a[i];
        let y: u64 = b[i];
        let limb_diff: u64 = x ^ y;
        assert((x ^ y) == 0 <==> x == y) by (bit_vector);
        diff = either(diff, limb_diff);
        i += 1;
    }
    proof {
        if diff == 0 {
            assert(a@ =~= b@);
        }
        if *a == *b {
            assert(forall|k: int| 0 <= k < 4 ==> a[k] == b[k]);
        }
    }
    let flag: u64 = nonzero_flag(diff);
    assert(diff == 0 ==> *a == *b);
    assert(diff != 0 ==> *a != *b);
    flag == 0
}

/// Compares the result of an optimized backend with that of the portable
/// backend: the result where they agree, else a report of both.
pub fn cross_validate(optimized: [u64; 4], reference: [u64; 4]) -> (r: Result<
    [u64; 4],
    ArithError,
>)
    ensures
        optimized == reference ==> r == Ok::<[u64; 4], ArithError>(optimized),
        optimized != reference ==> r == Err::<[u64; 4], ArithError>(
            (ArithError::BackendMismatch { optimized, reference }),
        ),
{
    if limbs_equal(&optimized, &reference) {
        Ok(optimized)
    } else {
        Err(ArithError::BackendMismatch { optimized, reference })
    }
}

/// What makes a modulus one that the engine accepts, read off its limbs:
/// the lowest limb is odd, the value is not 1, and the top bit is clear.
proof fn lemma_valid_modulus_limbs(m: [u64; 4])
    ensures
        valid_modulus(val4(m)) <==> (m[0] % 2 == 1 && (m[0] >= 3 || m[1] != 0 || m[2] != 0 || m[3]
            != 0) && m[3] < 0x8000_0000_0000_0000),
{
    let v: int = val4(m);
    let low: int = m[0] + 0x1_0000_0000_0000_0000 * m[1]
        + 0x1_0000_0000_0000_0000_0000_0000_0000_0000int * m[2];
    let above: int = m[1] + 0x1_0000_0000_0000_0000 * m[2]
        + 0x1_0000_0000_0000_0000_0000_0000_0000_0000int * m[3];
    assert(v == low + 0x1_0000_0000_0000_0000_0000_0000_0000_0000_0000_0000_0000_0000int * m[3]);
    assert(0 <= low < 0x1_0000_0000_0000_0000_0000_0000_0000_0000_0000_0000_0000_0000int);
    assert(v == m[0] + 2 * (0x8000_0000_0000_0000 * above));
    assert(v % 2 == m[0] % 2);
    if m[0] % 2 == 1 {
        if m[3] < 0x8000_0000_0000_0000 {
            assert(2 * v <= radix());
        } else {
            // At least 2^255, and odd, so more than 2^255.
            assert(v
                >= 0x8000_0000_0000_0000_0000_0000_0000_0000_0000_0000_0000_0000_0000_0000_0000_0000int);
            assert(2 * v > radix());
        }
        if m[1] != 0 || m[2] != 0 || m[3] != 0 {
            assert(above >= 1);
            assert(v >= 3);
        }
    }
}

/// Tells whether a modulus and a Montgomery constant make a field that the
/// engine accepts.
pub fn valid_params(modulus: &[u64; 4], inv: u64) -> (ok: bool)
    ensures
        ok == (valid_modulus(val4(*modulus)) && valid_inv(modulus[0], inv)),
{
    let odd: bool = modulus[0] % 2 == 1;
    let at_least_three: bool = modulus[0] >= 3 || modulus[1] != 0 || modulus[2] != 0
        || modulus[3] != 0;
    let headroom: bool = modulus[3] < 0x8000_0000_0000_0000;
    let product: u64 = modulus[0].wrapping_mul(inv);
    proof {
        lemma_valid_modulus_limbs(*modulus);
    }
    odd && at_least_three && headroom && product == 0xffff_ffff_ffff_ffff
}

/// Tells whether a four-limb value is a canonical field element: below the
/// modulus. The comparison is made by the borrow of a subtraction.
pub fn is_canonical(a: &[u64; 4], modulus: &[u64; 4]) -> (ok: bool)
    ensures
        ok == canonical(val4(*a), val4(*modulus)),
{
    let (diff, borrow): ([u64; 4], u64) = sub_limbs(a, modulus);
    proof {
        lemma_val4_limbs(diff);
        lemma_val4_limbs(*a);
    }
    borrow == 1
}

/// Tells whether an eight-limb value is below `modulus * 2^256`, as the
/// wide reduction asks: its upper half is below the modulus.
pub fn is_reducible(w: &[u64; 8], modulus: &[u64; 4]) -> (ok: bool)
    ensures
        ok == (val8(*w) < val4(*modulus) * radix()),
{
    let upper: [u64; 4] = [w[4], w[5], w[6], w[7]];
    let ok: bool = is_canonical(&upper, modulus);
    proof {
        lemma_val8_split(*w);
        lemma_limbs_val_bound(w@, 4);
        lemma_weights();
        reveal_with_fuel(upper_val, 5);
        let high: int = upper_val(w@, 4, 8);
        let low: int = limbs_val(w@, 4);
        assert(high == val4(upper));
        let m: int = val4(*modulus);
        assert(m * radix() == radix() * m) by (nonlinear_arith);
        if high < m {
            assert(radix() * high + radix() <= radix() * m) by (nonlinear_arith)
                requires
                    high + 1 <= m,
                    radix() > 0,
            ;
        } else {
            assert(radix() * m <= radix() * high) by (nonlinear_arith)
                requires
                    m <= high,
                    radix() > 0,
            ;
        }
    }
    ok
}

/// A field with the backend that computes in it.
#[derive(Clone, Copy, Debug)]
pub struct Engine {
    /// The modulus, least significant limb first.
    pub modulus: [u64; 4],
    /// The Montgomery constant of the modulus.
    pub inv: u64,
    /// The backend that every operation runs on.
    pub backend: Backend,
    /// Whether each result of an optimized backend is compared with that
    /// of the portable backend.
    pub verify: bool,
}

impl Engine {
    /// The field is one that the engine accepts.
    pub open spec fn wf(&self) -> bool {
        valid_modulus(val4(self.modulus)) && valid_inv(self.modulus[0], self.inv)
    }

    /// The value of the modulus.
    pub open spec fn m(&self) -> int {
        val4(self.modulus)
    }

    /// `a` is a canonical element of the field.
    pub open spec fn holds(&self, a: [u64; 4]) -> bool {
        canonical(val4(a), val4(self.modulus))
    }

    /// Makes the engine of a field for a platform family, on the optimized
    /// backend of that family.
    pub fn configure(platform: Platform, modulus: [u64; 4], inv: u64, verify: bool) -> (r: Result<
        Engine,
        ArithError,
    >)
        requires
            valid_modulus(val4(modulus)),
            valid_inv(modulus[0], inv),
        ensures
            r == match backend_for(platform) {
                Some(backend) => Ok::<Engine, ArithError>(
                    (Engine { modulus, inv, backend, verify }),
                ),
                None => Err::<Engine, ArithError>(ArithError::UnsupportedPlatform),
            },
            r is Ok ==> r->Ok_0.wf(),
    {
        match select_backend(platform) {
            Ok(backend) => Ok(Engine { modulus, inv, backend, verify }),
            Err(e) => Err(ArithError::UnsupportedPlatform),
        }
    }

    /// Makes the engine of a field on the portable backend.
    pub fn portable(modulus: [u64; 4], inv: u64) -> (r: Engine)
        requires
            valid_modulus(val4(modulus)),
            valid_inv(modulus[0], inv),
        ensures
            r.wf(),
            r.modulus == modulus,
            r.inv == inv,
            r.backend == Backend::Reference,
            !r.verify,
    {
        Engine { modulus, inv, backend: Backend::Reference, verify: false }
    }

    /// Hands out the result of the chosen backend. Where the engine
    /// verifies, the result is first compared with that of the portable
    /// backend, and a difference is reported with both results in its place.
    fn confirm(&self, out: [u64; 4], oracle: [u64; 4]) -> (r: Result<[u64; 4], ArithError>)
        ensures
            !self.verify ==> r == Ok::<[u64; 4], ArithError>(out),
            self.verify && out == oracle ==> r == Ok::<[u64; 4], ArithError>(out),
            self.verify && out != oracle ==> r == Err::<[u64; 4], ArithError>(
                (ArithError::BackendMismatch { optimized: out, reference: oracle }),
            ),
    {
        if self.verify {
            cross_validate(out, oracle)
        } else {
            Ok(out)
        }
    }

    /// Adds two field elements.
    pub fn add(&self, a: &[u64; 4], b: &[u64; 4]) -> (r: Result<[u64; 4], ArithError>)
        requires
            self.wf(),
            self.holds(*a),
            self.holds(*b),
        ensures
            r is Ok,
            val4(r->Ok_0) == add_mod(val4(*a), val4(*b), self.m()),
            self.holds(r->Ok_0),
    {
        match self.backend {
            Backend::Reference => Ok(crate::reference::add(a, b, &self.modulus)),
            Backend::X86_64 => {
                let out: [u64; 4] = crate::x86_64::add(a, b, &self.modulus);
                if self.verify {
                    let oracle: [u64; 4] = crate::reference::add(a, b, &self.modulus);
                    proof {
                        lemma_val4_injective(out, oracle);
                    }
                    self.confirm(out, oracle)
                } else {
                    Ok(out)
                }
            },
            Backend::Aarch64 => {
                let out: [u64; 4] = crate::aarch64::add(a, b, &self.modulus);
                if self.verify {
                    let oracle: [u64; 4] = crate::reference::add(a, b, &self.modulus);
                    proof {
                        lemma_val4_injective(out, oracle);
                    }
                    self.confirm(out, oracle)
                } else {
                    Ok(out)
                }
            },
        }
    }

    /// Subtracts one field element from another.
    pub fn sub(&self, a: &[u64; 4], b: &[u64; 4]) -> (r: Result<[u64; 4], ArithError>)
        requires
            self.wf(),
            self.holds(*a),
            self.holds(*b),
        ensures
            r is Ok,
            val4(r->Ok_0) == sub_mod(val4(*a), val4(*b), self.m()),
            self.holds(r->Ok_0),
    {
        match self.backend {
            Backend::Reference => Ok(crate::reference::sub(a, b, &self.modulus)),
            Backend::X86_64 => {
                let out: [u64; 4] = crate::x86_64::sub(a, b, &self.modulus);
                if self.verify {
                    let oracle: [u64; 4] = crate::reference::sub(a, b, &self.modulus);
                    proof {
                        lemma_val4_injective(out, oracle);
                    }
                    self.confirm(out, oracle)
                } else {
                    Ok(out)
                }
            },
            Backend::Aarch64 => {
                let out: [u64; 4] = crate::aarch64::sub(a, b, &self.modulus);
                if self.verify {
                    let oracle: [u64; 4] = crate::reference::sub(a, b, &self.modulus);
                    proof {
                        lemma_val4_injective(out, oracle);
                    }
                    self.confirm(out, oracle)
                } else {
                    Ok(out)
                }
            },
        }
    }

    /// Negates a field element.
    pub fn neg(&self, a: &[u64; 4]) -> (r: Result<[u64; 4], ArithError>)
        requires
            self.wf(),
            self.holds(*a),
        ensures
            r is Ok,
            val4(r->Ok_0) == neg_mod(val4(*a), self.m()),
            self.holds(r->Ok_0),
    {
        match self.backend {
            Backend::Reference => Ok(crate::reference::neg(a, &self.modulus)),
            Backend::X86_64 => {
                let out: [u64; 4] = crate::x86_64::neg(a, &self.modulus);
                if self.verify {
                    let oracle: [u64; 4] = crate::reference::neg(a, &self.modulus);
                    proof {
                        lemma_val4_injective(out, oracle);
                    }
                    self.confirm(out, oracle)
                } else {
                    Ok(out)
                }
            },
            Backend::Aarch64 => {
                let out: [u64; 4] = crate::aarch64::neg(a, &self.modulus);
                if self.verify {
                    let oracle: [u64; 4] = crate::reference::neg(a, &self.modulus);
                    proof {
                        lemma_val4_injective(out, oracle);
                    }
                    self.confirm(out, oracle)
                } else {
                    Ok(out)
                }
            },
        }
    }

    /// Doubles a field element.
    pub fn double(&self, a: &[u64; 4]) -> (r: Result<[u64; 4], ArithError>)
        requires
            self.wf(),
            self.holds(*a),
        ensures
            r is Ok,
            val4(r->Ok_0) == double_mod(val4(*a), self.m()),
            self.holds(r->Ok_0),
    {
        match self.backend {
            Backend::Reference => Ok(crate::reference::double(a, &self.modulus)),
            Backend::X86_64 => {
                let out: [u64; 4] = crate::x86_64::double(a, &self.modulus);
                if self.verify {
                    let oracle: [u64; 4] = crate::reference::double(a, &self.modulus);
                    proof {
                        lemma_val4_injective(out, oracle);
                    }
                    self.confirm(out, oracle)
                } else {
                    Ok(out)
                }
            },
            Backend::Aarch64 => {
                let out: [u64; 4] = crate::aarch64::double(a, &self.modulus);
                if self.verify {
                    let oracle: [u64; 4] = crate::reference::double(a, &self.modulus);
                    proof {
                        lemma_val4_injective(out, oracle);
                    }
                    self.confirm(out, oracle)
                } else {
                    Ok(out)
                }
            },
        }
    }

    /// Multiplies two field elements in Montgomery form.
    pub fn mul(&self, a: &[u64; 4], b: &[u64; 4]) -> (r: Result<[u64; 4], ArithError>)
        requires
            self.wf(),
            self.holds(*a),
            self.holds(*b),
        ensures
            r is Ok,
            val4(r->Ok_0) == mont_mul(val4(*a), val4(*b), self.m()),
            self.holds(r->Ok_0),
    {
        match self.backend {
            Backend::Reference => Ok(crate::reference::mul(a, b, &self.modulus, self.inv)),
            Backend::X86_64 => {
                let out: [u64; 4] = crate::x86_64::mul(a, b, &self.modulus, self.inv);
                if self.verify {
                    let oracle: [u64; 4] = crate::reference::mul(a, b, &self.modulus, self.inv);
                    proof {
                        lemma_val4_injective(out, oracle);
                    }
                    self.confirm(out, oracle)
                } else {
                    Ok(out)
                }
            },
            Backend::Aarch64 => {
                let out: [u64; 4] = crate::aarch64::mul(a, b, &self.modulus, self.inv);
                if self.verify {
                    let oracle: [u64; 4] = crate::reference::mul(a, b, &self.modulus, self.inv);
                    proof {
                        lemma_val4_injective(out, oracle);
                    }
                    self.confirm(out, oracle)
                } else {
                    Ok(out)
                }
            },
        }
    }

    /// Converts a field element from Montgomery form to standard form.
    pub fn from_mont(&self, a: &[u64; 4]) -> (r: Result<[u64; 4], ArithError>)
        requires
            self.wf(),
            self.holds(*a),
        ensures
            r is Ok,
            val4(r->Ok_0) == mont_reduce(val4(*a), self.m()),
            self.holds(r->Ok_0),
    {
        match self.backend {
            Backend::Reference => Ok(crate::reference::from_mont(a, &self.modulus, self.inv)),
            Backend::X86_64 => {
                let out: [u64; 4] = crate::x86_64::from_mont(a, &self.modulus, self.inv);
                if self.verify {
                    let oracle: [u64; 4] = crate::reference::from_mont(a, &self.modulus, self.inv);
                    proof {
                        lemma_val4_injective(out, oracle);
                    }
                    self.confirm(out, oracle)
                } else {
                    Ok(out)
                }
            },
            Backend::Aarch64 => {
                let out: [u64; 4] = crate::aarch64::from_mont(a, &self.modulus, self.inv);
                if self.verify {
                    let oracle: [u64; 4] = crate::reference::from_mont(a, &self.modulus, self.inv);
                    proof {
                        lemma_val4_injective(out, oracle);
                    }
                    self.confirm(out, oracle)
                } else {
                    Ok(out)
                }
            },
        }
    }

    /// Squares a field element in Montgomery form: the product of the
    /// element with itself, on the same path as any other product.
    pub fn square(&self, a: &[u64; 4]) -> (r: Result<[u64; 4], ArithError>)
        requires
            self.wf(),
            self.holds(*a),
        ensures
            r is Ok,
            val4(r->Ok_0) == mont_square(val4(*a), self.m()),
            self.holds(r->Ok_0),
    {
        self.mul(a, a)
    }

    /// Reduces an eight-limb value below `modulus * 2^256` to the canonical
    /// residue of its quotient by 2^256. Only the portable backend has
    /// this operation, so it runs there whatever backend was chosen.
    pub fn montgomery_reduce(&self, w: &[u64; 8]) -> (r: [u64; 4])
        requires
            self.wf(),
            val8(*w) < self.m() * radix(),
        ensures
            val4(r) == mont_reduce(val8(*w), self.m()),
            self.holds(r),
    {
        crate::reference::montgomery_reduce(w, &self.modulus, self.inv)
    }
}

} // verus!
