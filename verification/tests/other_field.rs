use mont_field::aarch64;
use mont_field::backend::valid_params;
use mont_field::reference;
use mont_field::x86_64;

const P: [u64; 4] = [0xffffffffffffffed, 0xffffffffffffffff, 0xffffffffffffffff, 0x7fffffffffffffff];
const P_INV: u64 = 0x86bca1af286bca1b;

#[test]
fn second_field_is_valid() {
    assert!(valid_params(&P, P_INV));
}

#[test]
fn second_field_p_minus_one_p_minus_one() {
    let a: [u64; 4] = [0xffffffffffffffec, 0xffffffffffffffff, 0xffffffffffffffff, 0x7fffffffffffffff];
    let b: [u64; 4] = [0xffffffffffffffec, 0xffffffffffffffff, 0xffffffffffffffff, 0x7fffffffffffffff];
    assert_eq!(reference::add(&a, &b, &P), [0xffffffffffffffeb, 0xffffffffffffffff, 0xffffffffffffffff, 0x7fffffffffffffff]);
    assert_eq!(x86_64::add(&a, &b, &P), [0xffffffffffffffeb, 0xffffffffffffffff, 0xffffffffffffffff, 0x7fffffffffffffff]);
    assert_eq!(aarch64::add(&a, &b, &P), [0xffffffffffffffeb, 0xffffffffffffffff, 0xffffffffffffffff, 0x7fffffffffffffff]);
    assert_eq!(reference::sub(&a, &b, &P), [0x0000000000000000, 0x0000000000000000, 0x0000000000000000, 0x0000000000000000]);
    assert_eq!(x86_64::sub(&a, &b, &P), [0x0000000000000000, 0x0000000000000000, 0x0000000000000000, 0x0000000000000000]);
    assert_eq!(aarch64::sub(&a, &b, &P), [0x0000000000000000, 0x0000000000000000, 0x0000000000000000, 0x0000000000000000]);
    assert_eq!(reference::mul(&a, &b, &P, P_INV), [0x435e50d79435e50a, 0x5e50d79435e50d79, 0x50d79435e50d7943, 0x179435e50d79435e]);
    assert_eq!(x86_64::mul(&a, &b, &P, P_INV), [0x435e50d79435e50a, 0x5e50d79435e50d79, 0x50d79435e50d7943, 0x179435e50d79435e]);
    assert_eq!(aarch64::mul(&a, &b, &P, P_INV), [0x435e50d79435e50a, 0x5e50d79435e50d79, 0x50d79435e50d7943, 0x179435e50d79435e]);
    assert_eq!(reference::from_mont(&a, &P, P_INV), [0xbca1af286bca1ae3, 0xa1af286bca1af286, 0xaf286bca1af286bc, 0x686bca1af286bca1]);
    assert_eq!(x86_64::from_mont(&a, &P, P_INV), [0xbca1af286bca1ae3, 0xa1af286bca1af286, 0xaf286bca1af286bc, 0x686bca1af286bca1]);
    assert_eq!(aarch64::from_mont(&a, &P, P_INV), [0xbca1af286bca1ae3, 0xa1af286bca1af286, 0xaf286bca1af286bc, 0x686bca1af286bca1]);
}

#[test]
fn second_field_p_minus_one_p_minus_two() {
    let a: [u64; 4] = [0xffffffffffffffec, 0xffffffffffffffff, 0xffffffffffffffff, 0x7fffffffffffffff];
    let b: [u64; 4] = [0xffffffffffffffeb, 0xffffffffffffffff, 0xffffffffffffffff, 0x7fffffffffffffff];
    assert_eq!(reference::add(&a, &b, &P), [0xffffffffffffffea, 0xffffffffffffffff, 0xffffffffffffffff, 0x7fffffffffffffff]);
    assert_eq!(x86_64::add(&a, &b, &P), [0xffffffffffffffea, 0xffffffffffffffff, 0xffffffffffffffff, 0x7fffffffffffffff]);
    assert_eq!(aarch64::add(&a, &b, &P), [0xffffffffffffffea, 0xffffffffffffffff, 0xffffffffffffffff, 0x7fffffffffffffff]);
    assert_eq!(reference::sub(&a, &b, &P), [0x0000000000000001, 0x0000000000000000, 0x0000000000000000, 0x0000000000000000]);
    assert_eq!(x86_64::sub(&a, &b, &P), [0x0000000000000001, 0x0000000000000000, 0x0000000000000000, 0x0000000000000000]);
    assert_eq!(aarch64::sub(&a, &b, &P), [0x0000000000000001, 0x0000000000000000, 0x0000000000000000, 0x0000000000000000]);
    assert_eq!(reference::mul(&a, &b, &P, P_INV), [0x86bca1af286bca14, 0xbca1af286bca1af2, 0xa1af286bca1af286, 0x2f286bca1af286bc]);
    assert_eq!(x86_64::mul(&a, &b, &P, P_INV), [0x86bca1af286bca14, 0xbca1af286bca1af2, 0xa1af286bca1af286, 0x2f286bca1af286bc]);
    assert_eq!(aarch64::mul(&a, &b, &P, P_INV), [0x86bca1af286bca14, 0xbca1af286bca1af2, 0xa1af286bca1af286, 0x2f286bca1af286bc]);
    assert_eq!(reference::from_mont(&a, &P, P_INV), [0xbca1af286bca1ae3, 0xa1af286bca1af286, 0xaf286bca1af286bc, 0x686bca1af286bca1]);
    assert_eq!(x86_64::from_mont(&a, &P, P_INV), [0xbca1af286bca1ae3, 0xa1af286bca1af286, 0xaf286bca1af286bc, 0x686bca1af286bca1]);
    assert_eq!(aarch64::from_mont(&a, &P, P_INV), [0xbca1af286bca1ae3, 0xa1af286bca1af286, 0xaf286bca1af286bc, 0x686bca1af286bca1]);
}

#[test]
fn second_field_p_minus_one_q0() {
    let a: [u64; 4] = [0xffffffffffffffec, 0xffffffffffffffff, 0xffffffffffffffff, 0x7fffffffffffffff];
    let b: [u64; 4] = [0xca1ab21554c6c4b3, 0x0f4bf777e1030fe1, 0x908a3e291dd257d5, 0x170093189a72180d];
    assert_eq!(reference::add(&a, &b, &P), [0xca1ab21554c6c4b2, 0x0f4bf777e1030fe1, 0x908a3e291dd257d5, 0x170093189a72180d]);
    assert_eq!(x86_64::add(&a, &b, &P), [0xca1ab21554c6c4b2, 0x0f4bf777e1030fe1, 0x908a3e291dd257d5, 0x170093189a72180d]);
    assert_eq!(aarch64::add(&a, &b, &P), [0xca1ab21554c6c4b2, 0x0f4bf777e1030fe1, 0x908a3e291dd257d5, 0x170093189a72180d]);
    assert_eq!(reference::sub(&a, &b, &P), [0x35e54deaab393b39, 0xf0b408881efcf01e, 0x6f75c1d6e22da82a, 0x68ff6ce7658de7f2]);
    assert_eq!(x86_64::sub(&a, &b, &P), [0x35e54deaab393b39, 0xf0b408881efcf01e, 0x6f75c1d6e22da82a, 0x68ff6ce7658de7f2]);
    assert_eq!(aarch64::sub(&a, &b, &P), [0x35e54deaab393b39, 0xf0b408881efcf01e, 0x6f75c1d6e22da82a, 0x68ff6ce7658de7f2]);
    assert_eq!(reference::mul(&a, &b, &P, P_INV), [0x5fbbedd70481818b, 0x9a8b797cd864f8d8, 0xbf90929320e6410e, 0x1db5e12e82ac27c9]);
    assert_eq!(x86_64::mul(&a, &b, &P, P_INV), [0x5fbbedd70481818b, 0x9a8b797cd864f8d8, 0xbf90929320e6410e, 0x1db5e12e82ac27c9]);
    assert_eq!(aarch64::mul(&a, &b, &P, P_INV), [0x5fbbedd70481818b, 0x9a8b797cd864f8d8, 0xbf90929320e6410e, 0x1db5e12e82ac27c9]);
    assert_eq!(reference::from_mont(&a, &P, P_INV), [0xbca1af286bca1ae3, 0xa1af286bca1af286, 0xaf286bca1af286bc, 0x686bca1af286bca1]);
    assert_eq!(x86_64::from_mont(&a, &P, P_INV), [0xbca1af286bca1ae3, 0xa1af286bca1af286, 0xaf286bca1af286bc, 0x686bca1af286bca1]);
    assert_eq!(aarch64::from_mont(&a, &P, P_INV), [0xbca1af286bca1ae3, 0xa1af286bca1af286, 0xaf286bca1af286bc, 0x686bca1af286bca1]);
}

#[test]
fn second_field_p_minus_two_p_minus_one() {
    let a: [u64; 4] = [0xffffffffffffffeb, 0xffffffffffffffff, 0xffffffffffffffff, 0x7fffffffffffffff];
    let b: [u64; 4] = [0xffffffffffffffec, 0xffffffffffffffff, 0xffffffffffffffff, 0x7fffffffffffffff];
    assert_eq!(reference::add(&a, &b, &P), [0xffffffffffffffea, 0xffffffffffffffff, 0xffffffffffffffff, 0x7fffffffffffffff]);
    assert_eq!(x86_64::add(&a, &b, &P), [0xffffffffffffffea, 0xffffffffffffffff, 0xffffffffffffffff, 0x7fffffffffffffff]);
    assert_eq!(aarch64::add(&a, &b, &P), [0xffffffffffffffea, 0xffffffffffffffff, 0xffffffffffffffff, 0x7fffffffffffffff]);
    assert_eq!(reference::sub(&a, &b, &P), [0xffffffffffffffec, 0xffffffffffffffff, 0xffffffffffffffff, 0x7fffffffffffffff]);
    assert_eq!(x86_64::sub(&a, &b, &P), [0xffffffffffffffec, 0xffffffffffffffff, 0xffffffffffffffff, 0x7fffffffffffffff]);
    assert_eq!(aarch64::sub(&a, &b, &P), [0xffffffffffffffec, 0xffffffffffffffff, 0xffffffffffffffff, 0x7fffffffffffffff]);
    assert_eq!(reference::mul(&a, &b, &P, P_INV), [0x86bca1af286bca14, 0xbca1af286bca1af2, 0xa1af286bca1af286, 0x2f286bca1af286bc]);
    assert_eq!(x86_64::mul(&a, &b, &P, P_INV), [0x86bca1af286bca14, 0xbca1af286bca1af2, 0xa1af286bca1af286, 0x2f286bca1af286bc]);
    assert_eq!(aarch64::mul(&a, &b, &P, P_INV), [0x86bca1af286bca14, 0xbca1af286bca1af2, 0xa1af286bca1af286, 0x2f286bca1af286bc]);
    assert_eq!(reference::from_mont(&a, &P, P_INV), [0x79435e50d79435d9, 0x435e50d79435e50d, 0x5e50d79435e50d79, 0x50d79435e50d7943]);
    assert_eq!(x86_64::from_mont(&a, &P, P_INV), [0x79435e50d79435d9, 0x435e50d79435e50d, 0x5e50d79435e50d79, 0x50d79435e50d7943]);
    assert_eq!(aarch64::from_mont(&a, &P, P_INV), [0x79435e50d79435d9, 0x435e50d79435e50d, 0x5e50d79435e50d79, 0x50d79435e50d7943]);
}

#[test]
fn second_field_p_minus_two_p_minus_two() {
    let a: [u64; 4] = [0xffffffffffffffeb, 0xffffffffffffffff, 0xffffffffffffffff, 0x7fffffffffffffff];
    let b: [u64; 4] = [0xffffffffffffffeb, 0xffffffffffffffff, 0xffffffffffffffff, 0x7fffffffffffffff];
    assert_eq!(reference::add(&a, &b, &P), [0xffffffffffffffe9, 0xffffffffffffffff, 0xffffffffffffffff, 0x7fffffffffffffff]);
    assert_eq!(x86_64::add(&a, &b, &P), [0xffffffffffffffe9, 0xffffffffffffffff, 0xffffffffffffffff, 0x7fffffffffffffff]);
    assert_eq!(aarch64::add(&a, &b, &P), [0xffffffffffffffe9, 0xffffffffffffffff, 0xffffffffffffffff, 0x7fffffffffffffff]);
    assert_eq!(reference::sub(&a, &b, &P), [0x0000000000000000, 0x0000000000000000, 0x0000000000000000, 0x0000000000000000]);
    assert_eq!(x86_64::sub(&a, &b, &P), [0x0000000000000000, 0x0000000000000000, 0x0000000000000000, 0x0000000000000000]);
    assert_eq!(aarch64::sub(&a, &b, &P), [0x0000000000000000, 0x0000000000000000, 0x0000000000000000, 0x0000000000000000]);
    assert_eq!(reference::mul(&a, &b, &P, P_INV), [0x0d79435e50d79428, 0x79435e50d79435e5, 0x435e50d79435e50d, 0x5e50d79435e50d79]);
    assert_eq!(x86_64::mul(&a, &b, &P, P_INV), [0x0d79435e50d79428, 0x79435e50d79435e5, 0x435e50d79435e50d, 0x5e50d79435e50d79]);
    assert_eq!(aarch64::mul(&a, &b, &P, P_INV), [0x0d79435e50d79428, 0x79435e50d79435e5, 0x435e50d79435e50d, 0x5e50d79435e50d79]);
    assert_eq!(reference::from_mont(&a, &P, P_INV), [0x79435e50d79435d9, 0x435e50d79435e50d, 0x5e50d79435e50d79, 0x50d79435e50d7943]);
    assert_eq!(x86_64::from_mont(&a, &P, P_INV), [0x79435e50d79435d9, 0x435e50d79435e50d, 0x5e50d79435e50d79, 0x50d79435e50d7943]);
    assert_eq!(aarch64::from_mont(&a, &P, P_INV), [0x79435e50d79435d9, 0x435e50d79435e50d, 0x5e50d79435e50d79, 0x50d79435e50d7943]);
}

#[test]
fn second_field_p_minus_two_q0() {
    let a: [u64; 4] = [0xffffffffffffffeb, 0xffffffffffffffff, 0xffffffffffffffff, 0x7fffffffffffffff];
    let b: [u64; 4] = [0xca1ab21554c6c4b3, 0x0f4bf777e1030fe1, 0x908a3e291dd257d5, 0x170093189a72180d];
    assert_eq!(reference::add(&a, &b, &P), [0xca1ab21554c6c4b1, 0x0f4bf777e1030fe1, 0x908a3e291dd257d5, 0x170093189a72180d]);
    assert_eq!(x86_64::add(&a, &b, &P), [0xca1ab21554c6c4b1, 0x0f4bf777e1030fe1, 0x908a3e291dd257d5, 0x170093189a72180d]);
    assert_eq!(aarch64::add(&a, &b, &P), [0xca1ab21554c6c4b1, 0x0f4bf777e1030fe1, 0x908a3e291dd257d5, 0x170093189a72180d]);
    assert_eq!(reference::sub(&a, &b, &P), [0x35e54deaab393b38, 0xf0b408881efcf01e, 0x6f75c1d6e22da82a, 0x68ff6ce7658de7f2]);
    assert_eq!(x86_64::sub(&a, &b, &P), [0x35e54deaab393b38, 0xf0b408881efcf01e, 0x6f75c1d6e22da82a, 0x68ff6ce7658de7f2]);
    assert_eq!(aarch64::sub(&a, &b, &P), [0x35e54deaab393b38, 0xf0b408881efcf01e, 0x6f75c1d6e22da82a, 0x68ff6ce7658de7f2]);
    assert_eq!(reference::mul(&a, &b, &P, P_INV), [0xbf77dbae09030316, 0x3516f2f9b0c9f1b0, 0x7f21252641cc821d, 0x3b6bc25d05584f93]);
    assert_eq!(x86_64::mul(&a, &b, &P, P_INV), [0xbf77dbae09030316, 0x3516f2f9b0c9f1b0, 0x7f21252641cc821d, 0x3b6bc25d05584f93]);
    assert_eq!(aarch64::mul(&a, &b, &P, P_INV), [0xbf77dbae09030316, 0x3516f2f9b0c9f1b0, 0x7f21252641cc821d, 0x3b6bc25d05584f93]);
    assert_eq!(reference::from_mont(&a, &P, P_INV), [0x79435e50d79435d9, 0x435e50d79435e50d, 0x5e50d79435e50d79, 0x50d79435e50d7943]);
    assert_eq!(x86_64::from_mont(&a, &P, P_INV), [0x79435e50d79435d9, 0x435e50d79435e50d, 0x5e50d79435e50d79, 0x50d79435e50d7943]);
    assert_eq!(aarch64::from_mont(&a, &P, P_INV), [0x79435e50d79435d9, 0x435e50d79435e50d, 0x5e50d79435e50d79, 0x50d79435e50d7943]);
}

#[test]
fn second_field_q0_p_minus_one() {
    let a: [u64; 4] = [0xca1ab21554c6c4b3, 0x0f4bf777e1030fe1, 0x908a3e291dd257d5, 0x170093189a72180d];
    let b: [u64; 4] = [0xffffffffffffffec, 0xffffffffffffffff, 0xffffffffffffffff, 0x7fffffffffffffff];
    assert_eq!(reference::add(&a, &b, &P), [0xca1ab21554c6c4b2, 0x0f4bf777e1030fe1, 0x908a3e291dd257d5, 0x170093189a72180d]);
    assert_eq!(x86_64::add(&a, &b, &P), [0xca1ab21554c6c4b2, 0x0f4bf777e1030fe1, 0x908a3e291dd257d5, 0x170093189a72180d]);
    assert_eq!(aarch64::add(&a, &b, &P), [0xca1ab21554c6c4b2, 0x0f4bf777e1030fe1, 0x908a3e291dd257d5, 0x170093189a72180d]);
    assert_eq!(reference::sub(&a, &b, &P), [0xca1ab21554c6c4b4, 0x0f4bf777e1030fe1, 0x908a3e291dd257d5, 0x170093189a72180d]);
    assert_eq!(x86_64::sub(&a, &b, &P), [0xca1ab21554c6c4b4, 0x0f4bf777e1030fe1, 0x908a3e291dd257d5, 0x170093189a72180d]);
    assert_eq!(aarch64::sub(&a, &b, &P), [0xca1ab21554c6c4b4, 0x0f4bf777e1030fe1, 0x908a3e291dd257d5, 0x170093189a72180d]);
    assert_eq!(reference::mul(&a, &b, &P, P_INV), [0x5fbbedd70481818b, 0x9a8b797cd864f8d8, 0xbf90929320e6410e, 0x1db5e12e82ac27c9]);
    assert_eq!(x86_64::mul(&a, &b, &P, P_INV), [0x5fbbedd70481818b, 0x9a8b797cd864f8d8, 0xbf90929320e6410e, 0x1db5e12e82ac27c9]);
    assert_eq!(aarch64::mul(&a, &b, &P, P_INV), [0x5fbbedd70481818b, 0x9a8b797cd864f8d8, 0xbf90929320e6410e, 0x1db5e12e82ac27c9]);
    assert_eq!(reference::from_mont(&a, &P, P_INV), [0xa0441228fb7e7e62, 0x65748683279b0727, 0x406f6d6cdf19bef1, 0x624a1ed17d53d836]);
    assert_eq!(x86_64::from_mont(&a, &P, P_INV), [0xa0441228fb7e7e62, 0x65748683279b0727, 0x406f6d6cdf19bef1, 0x624a1ed17d53d836]);
    assert_eq!(aarch64::from_mont(&a, &P, P_INV), [0xa0441228fb7e7e62, 0x65748683279b0727, 0x406f6d6cdf19bef1, 0x624a1ed17d53d836]);
}

#[test]
fn second_field_q0_p_minus_two() {
    let a: [u64; 4] = [0xca1ab21554c6c4b3, 0x0f4bf777e1030fe1, 0x908a3e291dd257d5, 0x170093189a72180d];
    let b: [u64; 4] = [0xffffffffffffffeb, 0xffffffffffffffff, 0xffffffffffffffff, 0x7fffffffffffffff];
    assert_eq!(reference::add(&a, &b, &P), [0xca1ab21554c6c4b1, 0x0f4bf777e1030fe1, 0x908a3e291dd257d5, 0x170093189a72180d]);
    assert_eq!(x86_64::add(&a, &b, &P), [0xca1ab21554c6c4b1, 0x0f4bf777e1030fe1, 0x908a3e291dd257d5, 0x170093189a72180d]);
    assert_eq!(aarch64::add(&a, &b, &P), [0xca1ab21554c6c4b1, 0x0f4bf777e1030fe1, 0x908a3e291dd257d5, 0x170093189a72180d]);
    assert_eq!(reference::sub(&a, &b, &P), [0xca1ab21554c6c4b5, 0x0f4bf777e1030fe1, 0x908a3e291dd257d5, 0x170093189a72180d]);
    assert_eq!(x86_64::sub(&a, &b, &P), [0xca1ab21554c6c4b5, 0x0f4bf777e1030fe1, 0x908a3e291dd257d5, 0x170093189a72180d]);
    assert_eq!(aarch64::sub(&a, &b, &P), [0xca1ab21554c6c4b5, 0x0f4bf777e1030fe1, 0x908a3e291dd257d5, 0x170093189a72180d]);
    assert_eq!(reference::mul(&a, &b, &P, P_INV), [0xbf77dbae09030316, 0x3516f2f9b0c9f1b0, 0x7f21252641cc821d, 0x3b6bc25d05584f93]);
    assert_eq!(x86_64::mul(&a, &b, &P, P_INV), [0xbf77dbae09030316, 0x3516f2f9b0c9f1b0, 0x7f21252641cc821d, 0x3b6bc25d05584f93]);
    assert_eq!(aarch64::mul(&a, &b, &P, P_INV), [0xbf77dbae09030316, 0x3516f2f9b0c9f1b0, 0x7f21252641cc821d, 0x3b6bc25d05584f93]);
    assert_eq!(reference::from_mont(&a, &P, P_INV), [0xa0441228fb7e7e62, 0x65748683279b0727, 0x406f6d6cdf19bef1, 0x624a1ed17d53d836]);
    assert_eq!(x86_64::from_mont(&a, &P, P_INV), [0xa0441228fb7e7e62, 0x65748683279b0727, 0x406f6d6cdf19bef1, 0x624a1ed17d53d836]);
    assert_eq!(aarch64::from_mont(&a, &P, P_INV), [0xa0441228fb7e7e62, 0x65748683279b0727, 0x406f6d6cdf19bef1, 0x624a1ed17d53d836]);
}

#[test]
fn second_field_q0_q0() {
    let a: [u64; 4] = [0xca1ab21554c6c4b3, 0x0f4bf777e1030fe1, 0x908a3e291dd257d5, 0x170093189a72180d];
    let b: [u64; 4] = [0xca1ab21554c6c4b3, 0x0f4bf777e1030fe1, 0x908a3e291dd257d5, 0x170093189a72180d];
    assert_eq!(reference::add(&a, &b, &P), [0x9435642aa98d8966, 0x1e97eeefc2061fc3, 0x21147c523ba4afaa, 0x2e01263134e4301b]);
    assert_eq!(x86_64::add(&a, &b, &P), [0x9435642aa98d8966, 0x1e97eeefc2061fc3, 0x21147c523ba4afaa, 0x2e01263134e4301b]);
    assert_eq!(aarch64::add(&a, &b, &P), [0x9435642aa98d8966, 0x1e97eeefc2061fc3, 0x21147c523ba4afaa, 0x2e01263134e4301b]);
    assert_eq!(reference::sub(&a, &b, &P), [0x0000000000000000, 0x0000000000000000, 0x0000000000000000, 0x0000000000000000]);
    assert_eq!(x86_64::sub(&a, &b, &P), [0x0000000000000000, 0x0000000000000000, 0x0000000000000000, 0x0000000000000000]);
    assert_eq!(aarch64::sub(&a, &b, &P), [0x0000000000000000, 0x0000000000000000, 0x0000000000000000, 0x0000000000000000]);
    assert_eq!(reference::mul(&a, &b, &P, P_INV), [0xe87916155d4b6521, 0x9e99acb6e82c6f84, 0xb5c451bf00a8b522, 0x7f3fb34eaaaefb4a]);
    assert_eq!(x86_64::mul(&a, &b, &P, P_INV), [0xe87916155d4b6521, 0x9e99acb6e82c6f84, 0xb5c451bf00a8b522, 0x7f3fb34eaaaefb4a]);
    assert_eq!(aarch64::mul(&a, &b, &P, P_INV), [0xe87916155d4b6521, 0x9e99acb6e82c6f84, 0xb5c451bf00a8b522, 0x7f3fb34eaaaefb4a]);
    assert_eq!(reference::from_mont(&a, &P, P_INV), [0xa0441228fb7e7e62, 0x65748683279b0727, 0x406f6d6cdf19bef1, 0x624a1ed17d53d836]);
    assert_eq!(x86_64::from_mont(&a, &P, P_INV), [0xa0441228fb7e7e62, 0x65748683279b0727, 0x406f6d6cdf19bef1, 0x624a1ed17d53d836]);
    assert_eq!(aarch64::from_mont(&a, &P, P_INV), [0xa0441228fb7e7e62, 0x65748683279b0727, 0x406f6d6cdf19bef1, 0x624a1ed17d53d836]);
}

#[test]
fn second_field_q1_p_minus_one() {
    let a: [u64; 4] = [0xfed5ce26af1ac6da, 0xcc31d7b90ff191f0, 0xf768f221a91b4e9d, 0x25335931ab8474cc];
    let b: [u64; 4] = [0xffffffffffffffec, 0xffffffffffffffff, 0xffffffffffffffff, 0x7fffffffffffffff];
    assert_eq!(reference::add(&a, &b, &P), [0xfed5ce26af1ac6d9, 0xcc31d7b90ff191f0, 0xf768f221a91b4e9d, 0x25335931ab8474cc]);
    assert_eq!(x86_64::add(&a, &b, &P), [0xfed5ce26af1ac6d9, 0xcc31d7b90ff191f0, 0xf768f221a91b4e9d, 0x25335931ab8474cc]);
    assert_eq!(aarch64::add(&a, &b, &P), [0xfed5ce26af1ac6d9, 0xcc31d7b90ff191f0, 0xf768f221a91b4e9d, 0x25335931ab8474cc]);
    assert_eq!(reference::sub(&a, &b, &P), [0xfed5ce26af1ac6db, 0xcc31d7b90ff191f0, 0xf768f221a91b4e9d, 0x25335931ab8474cc]);
    assert_eq!(x86_64::sub(&a, &b, &P), [0xfed5ce26af1ac6db, 0xcc31d7b90ff191f0, 0xf768f221a91b4e9d, 0x25335931ab8474cc]);
    assert_eq!(aarch64::sub(&a, &b, &P), [0xfed5ce26af1ac6db, 0xcc31d7b90ff191f0, 0xf768f221a91b4e9d, 0x25335931ab8474cc]);
    assert_eq!(reference::mul(&a, &b, &P, P_INV), [0xc36629bb9d138171, 0x523495453c364643, 0x8db3220c967f4809, 0x6acf7da71d2bac15]);
    assert_eq!(x86_64::mul(&a, &b, &P, P_INV), [0xc36629bb9d138171, 0x523495453c364643, 0x8db3220c967f4809, 0x6acf7da71d2bac15]);
    assert_eq!(aarch64::mul(&a, &b, &P, P_INV), [0xc36629bb9d138171, 0x523495453c364643, 0x8db3220c967f4809, 0x6acf7da71d2bac15]);
    assert_eq!(reference::from_mont(&a, &P, P_INV), [0x3c99d64462ec7e7c, 0xadcb6abac3c9b9bc, 0x724cddf36980b7f6, 0x15308258e2d453ea]);
    assert_eq!(x86_64::from_mont(&a, &P, P_INV), [0x3c99d64462ec7e7c, 0xadcb6abac3c9b9bc, 0x724cddf36980b7f6, 0x15308258e2d453ea]);
    assert_eq!(aarch64::from_mont(&a, &P, P_INV), [0x3c99d64462ec7e7c, 0xadcb6abac3c9b9bc, 0x724cddf36980b7f6, 0x15308258e2d453ea]);
}

#[test]
fn second_field_q1_p_minus_two() {
    let a: [u64; 4] = [0xfed5ce26af1ac6da, 0xcc31d7b90ff191f0, 0xf768f221a91b4e9d, 0x25335931ab8474cc];
    let b: [u64; 4] = [0xffffffffffffffeb, 0xffffffffffffffff, 0xffffffffffffffff, 0x7fffffffffffffff];
    assert_eq!(reference::add(&a, &b, &P), [0xfed5ce26af1ac6d8, 0xcc31d7b90ff191f0, 0xf768f221a91b4e9d, 0x25335931ab8474cc]);
    assert_eq!(x86_64::add(&a, &b, &P), [0xfed5ce26af1ac6d8, 0xcc31d7b90ff191f0, 0xf768f221a91b4e9d, 0x25335931ab8474cc]);
    assert_eq!(aarch64::add(&a, &b, &P), [0xfed5ce26af1ac6d8, 0xcc31d7b90ff191f0, 0xf768f221a91b4e9d, 0x25335931ab8474cc]);
    assert_eq!(reference::sub(&a, &b, &P), [0xfed5ce26af1ac6dc, 0xcc31d7b90ff191f0, 0xf768f221a91b4e9d, 0x25335931ab8474cc]);
    assert_eq!(x86_64::sub(&a, &b, &P), [0xfed5ce26af1ac6dc, 0xcc31d7b90ff191f0, 0xf768f221a91b4e9d, 0x25335931ab8474cc]);
    assert_eq!(aarch64::sub(&a, &b, &P), [0xfed5ce26af1ac6dc, 0xcc31d7b90ff191f0, 0xf768f221a91b4e9d, 0x25335931ab8474cc]);
    assert_eq!(reference::mul(&a, &b, &P, P_INV), [0x86cc53773a2702f5, 0xa4692a8a786c8c87, 0x1b6644192cfe9012, 0x559efb4e3a57582b]);
    assert_eq!(x86_64::mul(&a, &b, &P, P_INV), [0x86cc53773a2702f5, 0xa4692a8a786c8c87, 0x1b6644192cfe9012, 0x559efb4e3a57582b]);
    assert_eq!(aarch64::mul(&a, &b, &P, P_INV), [0x86cc53773a2702f5, 0xa4692a8a786c8c87, 0x1b6644192cfe9012, 0x559efb4e3a57582b]);
    assert_eq!(reference::from_mont(&a, &P, P_INV), [0x3c99d64462ec7e7c, 0xadcb6abac3c9b9bc, 0x724cddf36980b7f6, 0x15308258e2d453ea]);
    assert_eq!(x86_64::from_mont(&a, &P, P_INV), [0x3c99d64462ec7e7c, 0xadcb6abac3c9b9bc, 0x724cddf36980b7f6, 0x15308258e2d453ea]);
    assert_eq!(aarch64::from_mont(&a, &P, P_INV), [0x3c99d64462ec7e7c, 0xadcb6abac3c9b9bc, 0x724cddf36980b7f6, 0x15308258e2d453ea]);
}

#[test]
fn second_field_q1_q0() {
    let a: [u64; 4] = [0xfed5ce26af1ac6da, 0xcc31d7b90ff191f0, 0xf768f221a91b4e9d, 0x25335931ab8474cc];
    let b: [u64; 4] = [0xca1ab21554c6c4b3, 0x0f4bf777e1030fe1, 0x908a3e291dd257d5, 0x170093189a72180d];
    assert_eq!(reference::add(&a, &b, &P), [0xc8f0803c03e18b8d, 0xdb7dcf30f0f4a1d2, 0x87f3304ac6eda672, 0x3c33ec4a45f68cda]);
    assert_eq!(x86_64::add(&a, &b, &P), [0xc8f0803c03e18b8d, 0xdb7dcf30f0f4a1d2, 0x87f3304ac6eda672, 0x3c33ec4a45f68cda]);
    assert_eq!(aarch64::add(&a, &b, &P), [0xc8f0803c03e18b8d, 0xdb7dcf30f0f4a1d2, 0x87f3304ac6eda672, 0x3c33ec4a45f68cda]);
    assert_eq!(reference::sub(&a, &b, &P), [0x34bb1c115a540227, 0xbce5e0412eee820f, 0x66deb3f88b48f6c8, 0x0e32c61911125cbf]);
    assert_eq!(x86_64::sub(&a, &b, &P), [0x34bb1c115a540227, 0xbce5e0412eee820f, 0x66deb3f88b48f6c8, 0x0e32c61911125cbf]);
    assert_eq!(aarch64::sub(&a, &b, &P), [0x34bb1c115a540227, 0xbce5e0412eee820f, 0x66deb3f88b48f6c8, 0x0e32c61911125cbf]);
    assert_eq!(reference::mul(&a, &b, &P, P_INV), [0x49e56a210f57438f, 0x905ad04f0eefbbd8, 0xd846fda087f2f403, 0x7d59e1e97301f37e]);
    assert_eq!(x86_64::mul(&a, &b, &P, P_INV), [0x49e56a210f57438f, 0x905ad04f0eefbbd8, 0xd846fda087f2f403, 0x7d59e1e97301f37e]);
    assert_eq!(aarch64::mul(&a, &b, &P, P_INV), [0x49e56a210f57438f, 0x905ad04f0eefbbd8, 0xd846fda087f2f403, 0x7d59e1e97301f37e]);
    assert_eq!(reference::from_mont(&a, &P, P_INV), [0x3c99d64462ec7e7c, 0xadcb6abac3c9b9bc, 0x724cddf36980b7f6, 0x15308258e2d453ea]);
    assert_eq!(x86_64::from_mont(&a, &P, P_INV), [0x3c99d64462ec7e7c, 0xadcb6abac3c9b9bc, 0x724cddf36980b7f6, 0x15308258e2d453ea]);
    assert_eq!(aarch64::from_mont(&a, &P, P_INV), [0x3c99d64462ec7e7c, 0xadcb6abac3c9b9bc, 0x724cddf36980b7f6, 0x15308258e2d453ea]);
}

#[test]
fn second_field_q2_p_minus_one() {
    let a: [u64; 4] = [0xc689c846b6b81ec6, 0x535f2002b9f7f89e, 0x355cca5db3c7b88e, 0x42be7035f9a21be1];
    let b: [u64; 4] = [0xffffffffffffffec, 0xffffffffffffffff, 0xffffffffffffffff, 0x7fffffffffffffff];
    assert_eq!(reference::add(&a, &b, &P), [0xc689c846b6b81ec5, 0x535f2002b9f7f89e, 0x355cca5db3c7b88e, 0x42be7035f9a21be1]);
    assert_eq!(x86_64::add(&a, &b, &P), [0xc689c846b6b81ec5, 0x535f2002b9f7f89e, 0x355cca5db3c7b88e, 0x42be7035f9a21be1]);
    assert_eq!(aarch64::add(&a, &b, &P), [0xc689c846b6b81ec5, 0x535f2002b9f7f89e, 0x355cca5db3c7b88e, 0x42be7035f9a21be1]);
    assert_eq!(reference::sub(&a, &b, &P), [0xc689c846b6b81ec7, 0x535f2002b9f7f89e, 0x355cca5db3c7b88e, 0x42be7035f9a21be1]);
    assert_eq!(x86_64::sub(&a, &b, &P), [0xc689c846b6b81ec7, 0x535f2002b9f7f89e, 0x355cca5db3c7b88e, 0x42be7035f9a21be1]);
    assert_eq!(aarch64::sub(&a, &b, &P), [0xc689c846b6b81ec7, 0x535f2002b9f7f89e, 0x355cca5db3c7b88e, 0x42be7035f9a21be1]);
    assert_eq!(reference::mul(&a, &b, &P, P_INV), [0xd25ab09fd2c54285, 0x92043bca08946bfb, 0x7e98816952d90f5a, 0x419cac34796e42a2]);
    assert_eq!(x86_64::mul(&a, &b, &P, P_INV), [0xd25ab09fd2c54285, 0x92043bca08946bfb, 0x7e98816952d90f5a, 0x419cac34796e42a2]);
    assert_eq!(aarch64::mul(&a, &b, &P, P_INV), [0xd25ab09fd2c54285, 0x92043bca08946bfb, 0x7e98816952d90f5a, 0x419cac34796e42a2]);
    assert_eq!(reference::from_mont(&a, &P, P_INV), [0x2da54f602d3abd68, 0x6dfbc435f76b9404, 0x81677e96ad26f0a5, 0x3e6353cb8691bd5d]);
    assert_eq!(x86_64::from_mont(&a, &P, P_INV), [0x2da54f602d3abd68, 0x6dfbc435f76b9404, 0x81677e96ad26f0a5, 0x3e6353cb8691bd5d]);
    assert_eq!(aarch64::from_mont(&a, &P, P_INV), [0x2da54f602d3abd68, 0x6dfbc435f76b9404, 0x81677e96ad26f0a5, 0x3e6353cb8691bd5d]);
}

#[test]
fn second_field_q2_p_minus_two() {
    let a: [u64; 4] = [0xc689c846b6b81ec6, 0x535f2002b9f7f89e, 0x355cca5db3c7b88e, 0x42be7035f9a21be1];
    let b: [u64; 4] = [0xffffffffffffffeb, 0xffffffffffffffff, 0xffffffffffffffff, 0x7fffffffffffffff];
    assert_eq!(reference::add(&a, &b, &P), [0xc689c846b6b81ec4, 0x535f2002b9f7f89e, 0x355cca5db3c7b88e, 0x42be7035f9a21be1]);
    assert_eq!(x86_64::add(&a, &b, &P), [0xc689c846b6b81ec4, 0x535f2002b9f7f89e, 0x355cca5db3c7b88e, 0x42be7035f9a21be1]);
    assert_eq!(aarch64::add(&a, &b, &P), [0xc689c846b6b81ec4, 0x535f2002b9f7f89e, 0x355cca5db3c7b88e, 0x42be7035f9a21be1]);
    assert_eq!(reference::sub(&a, &b, &P), [0xc689c846b6b81ec8, 0x535f2002b9f7f89e, 0x355cca5db3c7b88e, 0x42be7035f9a21be1]);
    assert_eq!(x86_64::sub(&a, &b, &P), [0xc689c846b6b81ec8, 0x535f2002b9f7f89e, 0x355cca5db3c7b88e, 0x42be7035f9a21be1]);
    assert_eq!(aarch64::sub(&a, &b, &P), [0xc689c846b6b81ec8, 0x535f2002b9f7f89e, 0x355cca5db3c7b88e, 0x42be7035f9a21be1]);
    assert_eq!(reference::mul(&a, &b, &P, P_INV), [0xa4b5613fa58a851d, 0x240877941128d7f7, 0xfd3102d2a5b21eb5, 0x03395868f2dc8544]);
    assert_eq!(x86_64::mul(&a, &b, &P, P_INV), [0xa4b5613fa58a851d, 0x240877941128d7f7, 0xfd3102d2a5b21eb5, 0x03395868f2dc8544]);
    assert_eq!(aarch64::mul(&a, &b, &P, P_INV), [0xa4b5613fa58a851d, 0x240877941128d7f7, 0xfd3102d2a5b21eb5, 0x03395868f2dc8544]);
    assert_eq!(reference::from_mont(&a, &P, P_INV), [0x2da54f602d3abd68, 0x6dfbc435f76b9404, 0x81677e96ad26f0a5, 0x3e6353cb8691bd5d]);
    assert_eq!(x86_64::from_mont(&a, &P, P_INV), [0x2da54f602d3abd68, 0x6dfbc435f76b9404, 0x81677e96ad26f0a5, 0x3e6353cb8691bd5d]);
    assert_eq!(aarch64::from_mont(&a, &P, P_INV), [0x2da54f602d3abd68, 0x6dfbc435f76b9404, 0x81677e96ad26f0a5, 0x3e6353cb8691bd5d]);
}

#[test]
fn second_field_q2_q0() {
    let a: [u64; 4] = [0xc689c846b6b81ec6, 0x535f2002b9f7f89e, 0x355cca5db3c7b88e, 0x42be7035f9a21be1];
    let b: [u64; 4] = [0xca1ab21554c6c4b3, 0x0f4bf777e1030fe1, 0x908a3e291dd257d5, 0x170093189a72180d];
    assert_eq!(reference::add(&a, &b, &P), [0x90a47a5c0b7ee379, 0x62ab177a9afb0880, 0xc5e70886d19a1063, 0x59bf034e941433ee]);
    assert_eq!(x86_64::add(&a, &b, &P), [0x90a47a5c0b7ee379, 0x62ab177a9afb0880, 0xc5e70886d19a1063, 0x59bf034e941433ee]);
    assert_eq!(aarch64::add(&a, &b, &P), [0x90a47a5c0b7ee379, 0x62ab177a9afb0880, 0xc5e70886d19a1063, 0x59bf034e941433ee]);
    assert_eq!(reference::sub(&a, &b, &P), [0xfc6f163161f15a13, 0x4413288ad8f4e8bc, 0xa4d28c3495f560b9, 0x2bbddd1d5f3003d3]);
    assert_eq!(x86_64::sub(&a, &b, &P), [0xfc6f163161f15a13, 0x4413288ad8f4e8bc, 0xa4d28c3495f560b9, 0x2bbddd1d5f3003d3]);
    assert_eq!(aarch64::sub(&a, &b, &P), [0xfc6f163161f15a13, 0x4413288ad8f4e8bc, 0xa4d28c3495f560b9, 0x2bbddd1d5f3003d3]);
    assert_eq!(reference::mul(&a, &b, &P, P_INV), [0x60ebc33f97445b6d, 0x3c658f9df38b068f, 0xc22631f29d26d8fc, 0x3d8cf2cdd2211c44]);
    assert_eq!(x86_64::mul(&a, &b, &P, P_INV), [0x60ebc33f97445b6d, 0x3c658f9df38b068f, 0xc22631f29d26d8fc, 0x3d8cf2cdd2211c44]);
    assert_eq!(aarch64::mul(&a, &b, &P, P_INV), [0x60ebc33f97445b6d, 0x3c658f9df38b068f, 0xc22631f29d26d8fc, 0x3d8cf2cdd2211c44]);
    assert_eq!(reference::from_mont(&a, &P, P_INV), [0x2da54f602d3abd68, 0x6dfbc435f76b9404, 0x81677e96ad26f0a5, 0x3e6353cb8691bd5d]);
    assert_eq!(x86_64::from_mont(&a, &P, P_INV), [0x2da54f602d3abd68, 0x6dfbc435f76b9404, 0x81677e96ad26f0a5, 0x3e6353cb8691bd5d]);
    assert_eq!(aarch64::from_mont(&a, &P, P_INV), [0x2da54f602d3abd68, 0x6dfbc435f76b9404, 0x81677e96ad26f0a5, 0x3e6353cb8691bd5d]);
}

