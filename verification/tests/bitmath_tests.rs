use clamm::bitmath::{least_significant_bit, most_significant_bit};
use clamm::error::Error;
use clamm::u256::U256;

fn u256(lo: u128) -> U256 {
    U256 { lo, hi: 0 }
}

fn pow2(k: u32) -> U256 {
    if k < 128 {
        U256 { lo: 1u128 << k, hi: 0 }
    } else {
        U256 { lo: 0, hi: 1u128 << (k - 128) }
    }
}

#[test]
fn test_most_significant_bit_0() {
    assert_eq!(most_significant_bit(u256(0)), Err(Error::ErrMoreThan));
}

#[test]
fn test_most_significant_bit_1() {
    assert_eq!(most_significant_bit(u256(1)), Ok(0));
}

#[test]
fn test_most_significant_bit_2() {
    assert_eq!(most_significant_bit(u256(2)), Ok(1));
}

#[test]
fn test_most_significant_bit_all_powers_of_2() {
    for i in 0..60u32 {
        assert_eq!(most_significant_bit(pow2(i)), Ok(i as u8));
    }
}

#[test]
fn test_most_significant_bit_all_powers_of_2_2() {
    for i in 100..110u32 {
        assert_eq!(most_significant_bit(pow2(i)), Ok(i as u8));
    }
}

#[test]
fn test_most_significant_bit_uint256_max() {
    assert_eq!(most_significant_bit(U256 { lo: u128::MAX, hi: u128::MAX }), Ok(255));
}

#[test]
fn test_least_significant_bit_1() {
    assert_eq!(least_significant_bit(u256(1)), Ok(0));
}

#[test]
fn test_least_significant_bit_2() {
    assert_eq!(least_significant_bit(u256(2)), Ok(1));
}

#[test]
fn test_least_significant_bi_all_powers_of_2() {
    for i in 0..60u32 {
        assert_eq!(least_significant_bit(pow2(i)), Ok(i as u8));
    }
}

#[test]
fn test_least_significant_bi_all_powers_of_2_2() {
    for i in 100..110u32 {
        assert_eq!(least_significant_bit(pow2(i)), Ok(i as u8));
    }
}

#[test]
fn test_least_significant_bit_uint256_max() {
    assert_eq!(least_significant_bit(U256 { lo: u128::MAX, hi: u128::MAX }), Ok(0));
}

#[test]
fn msb_and_lsb_agree_on_high_powers_of_two() {
    for i in [128u32, 160, 200, 255] {
        assert_eq!(most_significant_bit(pow2(i)), Ok(i as u8));
        assert_eq!(least_significant_bit(pow2(i)), Ok(i as u8));
    }
}
