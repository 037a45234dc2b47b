use clamm::error::Error;
use clamm::fullmath::{mul_div, mul_div_rounding_up, mul_mod, overflow_sub_u160,
    unsafe_div_rounding_up, q128, q96};
use clamm::u256::U256;

fn u256(lo: u128) -> U256 {
    U256 { lo, hi: 0 }
}

fn u256_max() -> U256 {
    U256 { lo: u128::MAX, hi: u128::MAX }
}

fn u256_dec(s: &str) -> U256 {
    let mut r = U256 { lo: 0, hi: 0 };
    for c in s.bytes() {
        let d = (c - b'0') as u128;
        r = r.wrapping_mul(&U256 { lo: 10, hi: 0 }).wrapping_add(&U256 { lo: d, hi: 0 });
    }
    r
}

fn mul_small(a: &U256, k: u128) -> U256 {
    a.wrapping_mul(&u256(k))
}

#[test]
fn muldiv_reverts_if_denominator_zero() {
    assert_eq!(mul_div(&q128(), &u256(5), &u256(0)), Err(Error::InvalidMulDiv));
}

#[test]
fn muldiv_reverts_if_denominator_zero_numerator_overflow() {
    assert_eq!(mul_div(&q128(), &q128(), &u256(0)), Err(Error::InvalidMulDiv));
}

#[test]
fn muldiv_reverts_if_output_overflow() {
    assert_eq!(mul_div(&q128(), &q128(), &u256(1)), Err(Error::InvalidMulDiv));
}

#[test]
fn muldiv_all_max_inputs() {
    assert_eq!(mul_div(&u256_max(), &u256_max(), &u256_max()), Ok(u256_max()));
}

#[test]
fn muldiv_accurate_without_phantom_overflow() {
    let b = mul_small(&q128(), 50).div_u(&u256(100));
    let d = mul_small(&q128(), 150).div_u(&u256(100));
    assert_eq!(mul_div(&q128(), &b, &d), Ok(q128().div_u(&u256(3))));
}

#[test]
fn muldiv_accurate_with_phantom_overflow() {
    let b = mul_small(&q128(), 35);
    let d = mul_small(&q128(), 8);
    let expected = mul_small(&q128(), 4375).div_u(&u256(1000));
    assert_eq!(mul_div(&q128(), &b, &d), Ok(expected));
}

#[test]
fn muldiv_accurate_with_phantom_overflow_repeating_decimal() {
    let b = mul_small(&q128(), 1000);
    let d = mul_small(&q128(), 3000);
    assert_eq!(mul_div(&q128(), &b, &d), Ok(q128().div_u(&u256(3))));
}

#[test]
fn muldiv_rounding_up_reverts_if_denominator_zero() {
    assert_eq!(mul_div_rounding_up(&q128(), &u256(5), &u256(0)), Err(Error::InvalidMulDiv));
}

#[test]
fn muldiv_rounding_up_reverts_if_denominator_zero_numerator_overflow() {
    assert_eq!(mul_div_rounding_up(&q128(), &q128(), &u256(0)), Err(Error::InvalidMulDiv));
}

#[test]
fn muldiv_rounding_up_reverts_if_output_overflow() {
    assert_eq!(mul_div_rounding_up(&q128(), &q128(), &u256(1)), Err(Error::InvalidMulDiv));
}

#[test]
fn muldiv_rounding_up_reverts_overflow_all_max_inputs() {
    let almost = u256_max().sub_u(&u256(1));
    assert_eq!(mul_div_rounding_up(&u256_max(), &u256_max(), &almost), Err(Error::InvalidMulDiv));
}

#[test]
fn muldiv_rounding_up_reverts_overflow_256bits_after_rounding_up() {
    let a = u256_dec("535006138814359");
    let b = u256_dec("432862656469423142931042426214547535783388063929571229938474969");
    assert_eq!(mul_div_rounding_up(&a, &b, &u256(2)), Err(Error::InvalidMulDiv));
}

#[test]
fn muldiv_rounding_up_reverts_overflow_256bits_after_rounding_up_2() {
    let a = u256_dec("115792089237316195423570985008687907853269984659341747863450311749907997002549");
    let b = u256_dec("115792089237316195423570985008687907853269984659341747863450311749907997002550");
    let d = u256_dec("115792089237316195423570985008687907853269984653042931687443039491902864365164");
    assert_eq!(mul_div_rounding_up(&a, &b, &d), Err(Error::InvalidMulDiv));
}

#[test]
fn muldiv_rounding_up_all_max_inputs() {
    assert_eq!(mul_div_rounding_up(&u256_max(), &u256_max(), &u256_max()), Ok(u256_max()));
}

#[test]
fn muldiv_rounding_up_accurate_without_phantom_overflow() {
    let b = mul_small(&q128(), 50).div_u(&u256(100));
    let d = mul_small(&q128(), 150).div_u(&u256(100));
    let expected = q128().div_u(&u256(3)).add_u(&u256(1));
    assert_eq!(mul_div_rounding_up(&q128(), &b, &d), Ok(expected));
}

#[test]
fn muldiv_rounding_up_accurate_with_phantom_overflow() {
    let b = mul_small(&q128(), 35);
    let d = mul_small(&q128(), 8);
    let expected = mul_small(&q128(), 4375).div_u(&u256(1000));
    assert_eq!(mul_div_rounding_up(&q128(), &b, &d), Ok(expected));
}

#[test]
fn muldiv_rounding_up_accurate_with_phantom_overflow_repeating_decimal() {
    let b = mul_small(&q128(), 1000);
    let d = mul_small(&q128(), 3000);
    let expected = q128().div_u(&u256(3)).add_u(&u256(1));
    assert_eq!(mul_div_rounding_up(&q128(), &b, &d), Ok(expected));
}

#[test]
fn mul_mod_matches_remainder() {
    let r = mul_mod(&u256(7), &u256(9), &u256(5));
    assert_eq!(r.lo, 3);
    assert_eq!(r.hi, 0);
}

#[test]
fn unsafe_div_rounding_up_rounds_up_inexact_quotients() {
    assert_eq!(unsafe_div_rounding_up(&u256(7), &u256(2)).lo, 4);
    assert_eq!(unsafe_div_rounding_up(&u256(8), &u256(2)).lo, 4);
}

#[test]
fn overflow_sub_u160_wraps_at_160_bits() {
    let a = u256(5);
    let b = u256(7);
    let wrapped = overflow_sub_u160(&a, &b);
    let two_pow_160 = U256 { lo: 0, hi: 1u128 << 32 };
    assert_eq!(wrapped, two_pow_160.sub_u(&u256(2)));
    assert_eq!(overflow_sub_u160(&b, &a), u256(2));
}

#[test]
fn q_constants_have_expected_magnitudes() {
    assert_eq!(q96().lo, 1u128 << 96);
    assert_eq!(q96().hi, 0);
    assert_eq!(q128().lo, 0);
    assert_eq!(q128().hi, 1);
}
