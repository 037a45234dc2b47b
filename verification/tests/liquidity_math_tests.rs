use clamm::error::Error;
use clamm::liquidity_math::add_delta;

#[test]
fn test_no_reverts() {
    assert_eq!(add_delta(1, 0), Ok(1));
    assert_eq!(add_delta(1, -1), Ok(0));
    assert_eq!(add_delta(1, 1), Ok(2));
}

#[test]
fn test_revert_overflow() {
    assert_eq!(add_delta(u128::MAX - 14, 15), Err(Error::ErrLA));
}

#[test]
fn test_revert_underflow() {
    assert_eq!(add_delta(0, -1), Err(Error::ErrLS));
}

#[test]
fn test_revert_underflow_2() {
    assert_eq!(add_delta(3, -4), Err(Error::ErrLS));
}
