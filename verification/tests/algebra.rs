use mont_field::aarch64;
use mont_field::backend::is_canonical;
use mont_field::reference;
use mont_field::x86_64;

const M: [u64; 4] =
    [0xffffffff00000001, 0x53bda402fffe5bfe, 0x3339d80809a1d805, 0x73eda753299d7d48];
const INV: u64 = 0xfffffffeffffffff;
const ONE_MONT: [u64; 4] =
    [0x00000001fffffffe, 0x5884b7fa00034802, 0x998c4fefecbc4ff5, 0x1824b159acc5056f];
const ZERO: [u64; 4] = [0, 0, 0, 0];

/// Canonical elements: the boundary values and a run of a fixed generator.
fn elements() -> Vec<[u64; 4]> {
    let mut out: Vec<[u64; 4]> = vec![
        ZERO,
        [1, 0, 0, 0],
        [M[0] - 1, M[1], M[2], M[3]],
        [0x00000001fffffffd, 0x5884b7fa00034802, 0x998c4fefecbc4ff5, 0x1824b159acc5056f],
        ONE_MONT,
    ];
    let mut state: u64 = 0x9e3779b97f4a7c15;
    for _ in 0..12 {
        let mut x: [u64; 4] = [0; 4];
        for limb in x.iter_mut() {
            state = state.wrapping_mul(6364136223846793005).wrapping_add(1442695040888963407);
            *limb = state ^ (state >> 29);
        }
        x[3] &= 0x3fff_ffff_ffff_ffff;
        out.push(x);
    }
    for x in out.iter() {
        assert!(is_canonical(x, &M));
    }
    out
}

#[test]
fn results_are_canonical() {
    for a in elements() {
        for b in elements() {
            assert!(is_canonical(&reference::add(&a, &b, &M), &M));
            assert!(is_canonical(&reference::sub(&a, &b, &M), &M));
            assert!(is_canonical(&reference::mul(&a, &b, &M, INV), &M));
            assert!(is_canonical(&x86_64::add(&a, &b, &M), &M));
            assert!(is_canonical(&x86_64::sub(&a, &b, &M), &M));
            assert!(is_canonical(&x86_64::mul(&a, &b, &M, INV), &M));
            assert!(is_canonical(&aarch64::add(&a, &b, &M), &M));
            assert!(is_canonical(&aarch64::sub(&a, &b, &M), &M));
            assert!(is_canonical(&aarch64::mul(&a, &b, &M, INV), &M));
        }
        assert!(is_canonical(&reference::neg(&a, &M), &M));
        assert!(is_canonical(&reference::double(&a, &M), &M));
        assert!(is_canonical(&reference::square(&a, &M, INV), &M));
        assert!(is_canonical(&reference::from_mont(&a, &M, INV), &M));
        assert!(is_canonical(&x86_64::neg(&a, &M), &M));
        assert!(is_canonical(&x86_64::double(&a, &M), &M));
        assert!(is_canonical(&x86_64::from_mont(&a, &M, INV), &M));
        assert!(is_canonical(&aarch64::neg(&a, &M), &M));
        assert!(is_canonical(&aarch64::double(&a, &M), &M));
        assert!(is_canonical(&aarch64::from_mont(&a, &M, INV), &M));
    }
}

#[test]
fn element_plus_its_negation_is_zero() {
    for a in elements() {
        assert_eq!(reference::add(&a, &reference::neg(&a, &M), &M), ZERO);
        assert_eq!(x86_64::add(&a, &x86_64::neg(&a, &M), &M), ZERO);
        assert_eq!(aarch64::add(&a, &aarch64::neg(&a, &M), &M), ZERO);
    }
}

#[test]
fn negation_of_zero_is_zero() {
    assert_eq!(reference::neg(&ZERO, &M), ZERO);
    assert_eq!(x86_64::neg(&ZERO, &M), ZERO);
    assert_eq!(aarch64::neg(&ZERO, &M), ZERO);
}

#[test]
fn negation_of_one_is_modulus_minus_one() {
    let expected: [u64; 4] = [M[0] - 1, M[1], M[2], M[3]];
    assert_eq!(reference::neg(&[1, 0, 0, 0], &M), expected);
    assert_eq!(x86_64::neg(&[1, 0, 0, 0], &M), expected);
    assert_eq!(aarch64::neg(&[1, 0, 0, 0], &M), expected);
}

#[test]
fn addition_is_commutative() {
    for a in elements() {
        for b in elements() {
            assert_eq!(reference::add(&a, &b, &M), reference::add(&b, &a, &M));
            assert_eq!(x86_64::add(&a, &b, &M), x86_64::add(&b, &a, &M));
            assert_eq!(aarch64::add(&a, &b, &M), aarch64::add(&b, &a, &M));
        }
    }
}

#[test]
fn addition_is_associative() {
    let xs: Vec<[u64; 4]> = elements();
    for a in xs.iter().take(7) {
        for b in xs.iter().skip(2).take(7) {
            for c in xs.iter().skip(4).take(7) {
                assert_eq!(
                    reference::add(&reference::add(a, b, &M), c, &M),
                    reference::add(a, &reference::add(b, c, &M), &M)
                );
                assert_eq!(
                    x86_64::add(&x86_64::add(a, b, &M), c, &M),
                    x86_64::add(a, &x86_64::add(b, c, &M), &M)
                );
                assert_eq!(
                    aarch64::add(&aarch64::add(a, b, &M), c, &M),
                    aarch64::add(a, &aarch64::add(b, c, &M), &M)
                );
            }
        }
    }
}

#[test]
fn multiplication_is_commutative() {
    for a in elements() {
        for b in elements() {
            assert_eq!(reference::mul(&a, &b, &M, INV), reference::mul(&b, &a, &M, INV));
            assert_eq!(x86_64::mul(&a, &b, &M, INV), x86_64::mul(&b, &a, &M, INV));
            assert_eq!(aarch64::mul(&a, &b, &M, INV), aarch64::mul(&b, &a, &M, INV));
        }
    }
}

#[test]
fn multiplication_is_associative() {
    let xs: Vec<[u64; 4]> = elements();
    for a in xs.iter().take(7) {
        for b in xs.iter().skip(2).take(7) {
            for c in xs.iter().skip(4).take(7) {
                assert_eq!(
                    reference::mul(&reference::mul(a, b, &M, INV), c, &M, INV),
                    reference::mul(a, &reference::mul(b, c, &M, INV), &M, INV)
                );
                assert_eq!(
                    x86_64::mul(&x86_64::mul(a, b, &M, INV), c, &M, INV),
                    x86_64::mul(a, &x86_64::mul(b, c, &M, INV), &M, INV)
                );
                assert_eq!(
                    aarch64::mul(&aarch64::mul(a, b, &M, INV), c, &M, INV),
                    aarch64::mul(a, &aarch64::mul(b, c, &M, INV), &M, INV)
                );
            }
        }
    }
}

#[test]
fn double_is_add_to_itself() {
    for a in elements() {
        assert_eq!(reference::double(&a, &M), reference::add(&a, &a, &M));
        assert_eq!(x86_64::double(&a, &M), x86_64::add(&a, &a, &M));
        assert_eq!(aarch64::double(&a, &M), aarch64::add(&a, &a, &M));
    }
}

#[test]
fn square_is_mul_by_itself() {
    for a in elements() {
        assert_eq!(reference::square(&a, &M, INV), reference::mul(&a, &a, &M, INV));
        assert_eq!(reference::square(&a, &M, INV), x86_64::mul(&a, &a, &M, INV));
        assert_eq!(reference::square(&a, &M, INV), aarch64::mul(&a, &a, &M, INV));
    }
}

#[test]
fn element_minus_itself_is_zero() {
    for a in elements() {
        assert_eq!(reference::sub(&a, &a, &M), ZERO);
        assert_eq!(x86_64::sub(&a, &a, &M), ZERO);
        assert_eq!(aarch64::sub(&a, &a, &M), ZERO);
    }
}

#[test]
fn zero_is_the_identity_of_addition() {
    for a in elements() {
        assert_eq!(reference::add(&a, &ZERO, &M), a);
        assert_eq!(x86_64::add(&a, &ZERO, &M), a);
        assert_eq!(aarch64::add(&a, &ZERO, &M), a);
    }
}

#[test]
fn montgomery_one_is_the_identity_of_multiplication() {
    for a in elements() {
        assert_eq!(reference::mul(&a, &ONE_MONT, &M, INV), a);
        assert_eq!(x86_64::mul(&a, &ONE_MONT, &M, INV), a);
        assert_eq!(aarch64::mul(&a, &ONE_MONT, &M, INV), a);
    }
}

#[test]
fn optimized_backends_equal_the_portable_one() {
    for a in elements() {
        for b in elements() {
            assert_eq!(x86_64::add(&a, &b, &M), reference::add(&a, &b, &M));
            assert_eq!(aarch64::add(&a, &b, &M), reference::add(&a, &b, &M));
            assert_eq!(x86_64::sub(&a, &b, &M), reference::sub(&a, &b, &M));
            assert_eq!(aarch64::sub(&a, &b, &M), reference::sub(&a, &b, &M));
            assert_eq!(x86_64::mul(&a, &b, &M, INV), reference::mul(&a, &b, &M, INV));
            assert_eq!(aarch64::mul(&a, &b, &M, INV), reference::mul(&a, &b, &M, INV));
        }
        assert_eq!(x86_64::neg(&a, &M), reference::neg(&a, &M));
        assert_eq!(aarch64::neg(&a, &M), reference::neg(&a, &M));
        assert_eq!(x86_64::double(&a, &M), reference::double(&a, &M));
        assert_eq!(aarch64::double(&a, &M), reference::double(&a, &M));
        assert_eq!(x86_64::from_mont(&a, &M, INV), reference::from_mont(&a, &M, INV));
        assert_eq!(aarch64::from_mont(&a, &M, INV), reference::from_mont(&a, &M, INV));
    }
}

#[test]
fn montgomery_mul_is_mul() {
    for a in elements() {
        for b in elements() {
            assert_eq!(
                reference::montgomery_mul(&a, &b, &M, INV),
                reference::mul(&a, &b, &M, INV)
            );
        }
    }
}
