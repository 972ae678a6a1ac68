use mont_field::aarch64;
use mont_field::x86_64;

const MAX: u64 = 0xffff_ffff_ffff_ffff;

#[test]
fn x86_adc_and_sbb() {
    assert_eq!(x86_64::adc(MAX, 0, 1), (0, 1));
    assert_eq!(x86_64::adc(1, 2, 0), (3, 0));
    assert_eq!(x86_64::sbb(0, 0, 1), (MAX, 1));
    assert_eq!(x86_64::sbb(9, 4, 1), (4, 0));
    assert_eq!(x86_64::adcx(MAX, MAX, 1), (MAX, 1));
    assert_eq!(x86_64::adox(MAX, 1, 0), (0, 1));
}

#[test]
fn x86_mulx_gives_high_then_low() {
    assert_eq!(x86_64::mulx(1 << 63, 4), (2, 0));
    assert_eq!(x86_64::mulx(MAX, MAX), (MAX - 1, 1));
    assert_eq!(x86_64::mulx(6, 7), (0, 42));
}

#[test]
fn x86_conditional_moves() {
    assert_eq!(x86_64::cmovc(1, 2, 1), 2);
    assert_eq!(x86_64::cmovc(1, 2, 0), 1);
    assert_eq!(x86_64::compare_zero(0), 1);
    assert_eq!(x86_64::compare_zero(5), 0);
    assert_eq!(x86_64::cmove(1, 2, 1), 2);
    assert_eq!(x86_64::cmove(1, 2, 0), 1);
    assert_eq!(x86_64::and_mask(77, MAX), 77);
    assert_eq!(x86_64::and_mask(77, 0), 0);
    assert_eq!(x86_64::or(0, 0), 0);
    assert_ne!(x86_64::or(0, 2), 0);
}

#[test]
fn aarch64_carry_is_set_without_borrow() {
    assert_eq!(aarch64::subs(5, 3), (2, 1));
    assert_eq!(aarch64::subs(3, 5), (MAX - 1, 0));
    assert_eq!(aarch64::subs(4, 4), (0, 1));
    // a clear carry flag is a borrow of one
    assert_eq!(aarch64::sbcs(5, 3, 0), (1, 1));
    assert_eq!(aarch64::sbcs(5, 3, 1), (2, 1));
    assert_eq!(aarch64::sbcs(0, 0, 0), (MAX, 0));
}

#[test]
fn aarch64_additions() {
    assert_eq!(aarch64::adds(MAX, 1), (0, 1));
    assert_eq!(aarch64::adcs(MAX, 0, 1), (0, 1));
    assert_eq!(aarch64::adcs(1, 1, 1), (3, 0));
    // the flagless forms lose the carry out
    assert_eq!(aarch64::adc(MAX, 1, 1), 1);
    assert_eq!(aarch64::adc(2, 3, 0), 5);
    assert_eq!(aarch64::add_reg(MAX, 2), 1);
}

#[test]
fn aarch64_product_halves() {
    assert_eq!(aarch64::mul_lo(MAX, MAX), 1);
    assert_eq!(aarch64::umulh(MAX, MAX), MAX - 1);
    assert_eq!(aarch64::mul_lo(1 << 63, 4), 0);
    assert_eq!(aarch64::umulh(1 << 63, 4), 2);
}

#[test]
fn aarch64_selections() {
    assert_eq!(aarch64::csel_cc(1, 2, 0), 1);
    assert_eq!(aarch64::csel_cc(1, 2, 1), 2);
    assert_eq!(aarch64::csel_cs(1, 2, 1), 1);
    assert_eq!(aarch64::csel_cs(1, 2, 0), 2);
    assert_eq!(aarch64::compare_zero(0), 1);
    assert_eq!(aarch64::compare_zero(9), 0);
    assert_eq!(aarch64::csel_eq(1, 2, 1), 1);
    assert_eq!(aarch64::csel_eq(1, 2, 0), 2);
    assert_eq!(aarch64::orr(0, 0), 0);
    assert_ne!(aarch64::orr(1, 0), 0);
    assert_eq!(aarch64::and_mask(5, MAX), 5);
    assert_eq!(aarch64::and_mask(5, 0), 0);
}

#[test]
fn aarch64_steps() {
    // 1 + 2 * 3 + 4 = 11
    assert_eq!(aarch64::multiply_step(1, 2, 3, 4), (11, 0));
    // (2^64 - 1) + (2^64 - 1)^2 + (2^64 - 1) = 2^128 - 1
    assert_eq!(aarch64::multiply_step(MAX, MAX, MAX, MAX), (MAX, MAX));
    // 5 + 6 + 7 * 8 = 67
    assert_eq!(aarch64::reduce_step(5, 6, 7, 8), (67, 0));
    assert_eq!(aarch64::reduce_step(MAX, MAX, MAX, MAX), (MAX, MAX));
}
