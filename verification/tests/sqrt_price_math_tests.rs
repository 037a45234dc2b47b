use clamm::error::Error;
use clamm::sqrt_price_math::{get_amount0_delta, get_amount1_delta,
    get_next_sqrt_price_from_input, get_next_sqrt_price_from_output};
use clamm::u256::{U256, div_rem_512, mul_full};

fn u256(lo: u128) -> U256 {
    U256 { lo, hi: 0 }
}

fn u256_dec(s: &str) -> U256 {
    let mut r = U256 { lo: 0, hi: 0 };
    for c in s.bytes() {
        let d = (c - b'0') as u128;
        r = r.wrapping_mul(&U256 { lo: 10, hi: 0 }).wrapping_add(&U256 { lo: d, hi: 0 });
    }
    r
}

fn expand18(x: u128) -> U256 {
    u256(x * 1_000_000_000_000_000_000)
}

fn isqrt(x: &U256) -> U256 {
    let mut lo: u128 = 0;
    let mut hi: u128 = u128::MAX - 1;
    while lo < hi {
        let mid = lo + (hi - lo + 1) / 2;
        let sq = mul_full(&u256(mid), &u256(mid));
        let fits = sq.w2 == 0 && sq.w3 == 0 && !(U256 { lo: sq.w0, hi: sq.w1 }.gt_u(x));
        if fits {
            lo = mid;
        } else {
            hi = mid - 1;
        }
    }
    u256(lo)
}

fn encode_price_sqrt(reserve1: u128, reserve0: u128) -> U256 {
    let two_pow_192 = U256 { lo: 0, hi: 1u128 << 64 };
    let wide = mul_full(&u256(reserve1), &two_pow_192);
    let (q, _) = div_rem_512(&wide, &u256(reserve0));
    isqrt(&U256 { lo: q.w0, hi: q.w1 })
}

#[test]
fn test_get_next_sqrt_price_from_input_fail_price_zero() {
    let r = get_next_sqrt_price_from_input(&u256(0), 0, &expand18(1).div_u(&u256(10)), false);
    assert_eq!(r, Err(Error::SqrtRatioInternalError));
}

#[test]
fn test_get_next_sqrt_price_from_input_fail_liquidity_zero() {
    let r = get_next_sqrt_price_from_input(&u256(1), 0, &expand18(1).div_u(&u256(10)), true);
    assert_eq!(r, Err(Error::SqrtRatioInternalError));
}

#[test]
fn test_get_next_sqrt_price_from_input_fail_input_amount_overflow_price() {
    let price = U256 { lo: 0, hi: 1u128 << 32 }.sub_u(&u256(1));
    let r = get_next_sqrt_price_from_input(&price, 1024, &u256(1024), false);
    assert_eq!(r, Err(Error::ConvertU160Overflow));
}

#[test]
fn test_get_next_sqrt_price_from_input_any_input_amount_cannot_underflow_price() {
    let amount = U256 { lo: 0, hi: 1u128 << 127 };
    let r = get_next_sqrt_price_from_input(&u256(1), 1, &amount, true);
    assert_eq!(r, Ok(u256(1)));
}

#[test]
fn test_get_next_sqrt_price_from_input_returns_input_price_amountin_zero_and_zeroforone_true() {
    let price = encode_price_sqrt(1, 1);
    let liquidity = (expand18(1).div_u(&u256(10))).lo;
    let r = get_next_sqrt_price_from_input(&price, liquidity, &u256(0), true);
    assert_eq!(r, Ok(price));
}

#[test]
fn test_get_next_sqrt_price_from_input_returns_input_price_amountin_zero_and_zeroforone_false() {
    let price = encode_price_sqrt(1, 1);
    let liquidity = (expand18(1).div_u(&u256(10))).lo;
    let r = get_next_sqrt_price_from_input(&price, liquidity, &u256(0), false);
    assert_eq!(r, Ok(price));
}

#[test]
fn test_get_next_sqrt_price_from_input_returns_minimum_price_for_max_inputs() {
    let price = U256 { lo: 0, hi: 1u128 << 32 }.sub_u(&u256(1));
    let liquidity = u128::MAX;
    let shifted = U256 { lo: 0, hi: u128::MAX >> 32 };  // u128::MAX << 96
    let max = U256 { lo: u128::MAX, hi: u128::MAX };
    let amount = max.sub_u(&shifted.div_u(&price));
    let r = get_next_sqrt_price_from_input(&price, liquidity, &amount, true);
    assert_eq!(r, Ok(u256(1)));
}

#[test]
fn test_get_next_sqrt_price_from_input_input_amount_0_dot_1_token1() {
    let price = encode_price_sqrt(1, 1);
    let r = get_next_sqrt_price_from_input(&price, expand18(1).lo, &expand18(1).div_u(&u256(10)), false);
    assert_eq!(r, Ok(u256_dec("87150978765690771352898345369")));
}

#[test]
fn test_get_next_sqrt_price_from_input_input_amount_0_dot_1_token0() {
    let price = encode_price_sqrt(1, 1);
    let r = get_next_sqrt_price_from_input(&price, expand18(1).lo, &expand18(1).div_u(&u256(10)), true);
    assert_eq!(r, Ok(u256_dec("72025602285694852357767227579")));
}

#[test]
fn test_get_next_sqrt_price_from_input_can_return_1_with_enough_amountin_zero_for_one_true() {
    let price = encode_price_sqrt(1, 1);
    let half_max = U256 { lo: u128::MAX, hi: u128::MAX }.div_u(&u256(2));
    let r = get_next_sqrt_price_from_input(&price, 1, &half_max, true);
    assert_eq!(r, Ok(u256(1)));
}

#[test]
fn test_fail_if_price_zero() {
    let r = get_next_sqrt_price_from_output(&u256(0), 0, &expand18(1).div_u(&u256(10)), false);
    assert_eq!(r, Err(Error::SqrtRatioInternalError));
}

#[test]
fn test_fail_if_liquidity_zero() {
    let r = get_next_sqrt_price_from_output(&u256(1), 0, &expand18(1).div_u(&u256(10)), true);
    assert_eq!(r, Err(Error::SqrtRatioInternalError));
}

#[test]
fn test_fails_output_amount_exactly_virtual_reserves_token0() {
    let price = u256_dec("20282409603651670423947251286016");
    let r = get_next_sqrt_price_from_output(&price, 1024, &u256(4), false);
    assert_eq!(r, Err(Error::SqrtRatioInternalError));
}

#[test]
fn test_fails_output_amount_greater_than_virtual_reserves_token0() {
    let price = u256_dec("20282409603651670423947251286016");
    let r = get_next_sqrt_price_from_output(&price, 1024, &u256(5), false);
    assert_eq!(r, Err(Error::SqrtRatioInternalError));
}

#[test]
fn test_fails_output_amount_greater_than_virtual_reserves_token1() {
    let price = u256_dec("20282409603651670423947251286016");
    let r = get_next_sqrt_price_from_output(&price, 1024, &u256(262145), true);
    assert_eq!(r, Err(Error::SqrtRatioInternalError));
}

#[test]
fn test_fails_output_amount_exactly_virtual_reserves_token1() {
    let price = u256_dec("20282409603651670423947251286016");
    let r = get_next_sqrt_price_from_output(&price, 1024, &u256(262144), true);
    assert_eq!(r, Err(Error::SqrtRatioInternalError));
}

#[test]
fn test_succeeds_output_amount_just_less_than_virtual_reserves_token1() {
    let price = u256_dec("20282409603651670423947251286016");
    let r = get_next_sqrt_price_from_output(&price, 1024, &u256(262143), true);
    assert_eq!(r, Ok(u256_dec("77371252455336267181195264")));
}

#[test]
fn test_returns_input_price_amount_zero_and_zero_for_one_false() {
    let price = encode_price_sqrt(1, 1);
    let liquidity = (expand18(1).div_u(&u256(10))).lo;
    let r = get_next_sqrt_price_from_output(&price, liquidity, &u256(0), false);
    assert_eq!(r, Ok(price));
}

#[test]
fn test_output_amount_0_dot_1_token1() {
    let price = encode_price_sqrt(1, 1);
    let r = get_next_sqrt_price_from_output(&price, expand18(1).lo, &expand18(1).div_u(&u256(10)), false);
    assert_eq!(r, Ok(u256_dec("88031291682515930659493278152")));
}

#[test]
fn test_output_amount_0_dot_1_token0() {
    let price = encode_price_sqrt(1, 1);
    let r = get_next_sqrt_price_from_output(&price, expand18(1).lo, &expand18(1).div_u(&u256(10)), true);
    assert_eq!(r, Ok(u256_dec("71305346262837903834189555302")));
}

#[test]
fn test_reverts_amountout_impossible_zero_for_one_direction() {
    let price = encode_price_sqrt(1, 1);
    let max = U256 { lo: u128::MAX, hi: u128::MAX };
    assert!(get_next_sqrt_price_from_output(&price, 1, &max, true).is_err());
}

#[test]
fn test_reverts_amountout_impossible_one_for_zero_direction() {
    let price = encode_price_sqrt(1, 1);
    let max = U256 { lo: u128::MAX, hi: u128::MAX };
    assert!(get_next_sqrt_price_from_output(&price, 1, &max, false).is_err());
}

#[test]
fn test_return_0_if_liquidity_0() {
    let r = get_amount0_delta(&encode_price_sqrt(1, 1), &encode_price_sqrt(2, 1), 0, true);
    assert_eq!(r, Ok(u256(0)));
}

#[test]
fn test_return_0_if_price_equal() {
    let r = get_amount0_delta(&encode_price_sqrt(1, 1), &encode_price_sqrt(1, 1), 0, true);
    assert_eq!(r, Ok(u256(0)));
}

#[test]
fn test_return_correct() {
    let a = encode_price_sqrt(1, 1);
    let b = encode_price_sqrt(121, 100);
    let up = get_amount0_delta(&a, &b, expand18(1).lo, true).unwrap();
    assert_eq!(up, u256_dec("90909090909090910"));
    let down = get_amount0_delta(&a, &b, expand18(1).lo, false).unwrap();
    assert_eq!(down, u256_dec("90909090909090910").sub_u(&u256(1)));
}

#[test]
fn test_work_for_prices_overflow() {
    let a = U256 { lo: (1u128 << 90) - 1, hi: 0 };
    let b = U256 { lo: (1u128 << 96) - 1, hi: 0 };
    let up = get_amount0_delta(&a, &b, expand18(1).lo, true).unwrap();
    let down = get_amount0_delta(&a, &b, expand18(1).lo, false).unwrap();
    assert_eq!(up, down.add_u(&u256(1)));
}

#[test]
fn test_amount1_return_0_if_liquidity_0() {
    let r = get_amount1_delta(&encode_price_sqrt(1, 1), &encode_price_sqrt(2, 1), 0, true);
    assert_eq!(r, Ok(u256(0)));
}

#[test]
fn test_amount1_return_0_if_price_equal() {
    let r = get_amount1_delta(&encode_price_sqrt(1, 1), &encode_price_sqrt(1, 1), 0, true);
    assert_eq!(r, Ok(u256(0)));
}

#[test]
fn test_amount1_return_correct() {
    let a = encode_price_sqrt(1, 1);
    let b = encode_price_sqrt(121, 100);
    let up = get_amount1_delta(&a, &b, expand18(1).lo, true).unwrap();
    assert_eq!(up, u256_dec("100000000000000000"));
    let down = get_amount1_delta(&a, &b, expand18(1).lo, false).unwrap();
    assert_eq!(down, u256_dec("100000000000000000").sub_u(&u256(1)));
}

#[test]
fn test_overflow() {
    let price = u256_dec("1025574284609383690408304870162715216695788925244");
    let liquidity: u128 = 50015962439936049619261659728067971248;
    let sqrt_q = get_next_sqrt_price_from_input(&price, liquidity, &u256(406), true).unwrap();
    assert_eq!(sqrt_q, u256_dec("1025574284609383582644711336373707553698163132913"));
    let amount0 = get_amount0_delta(&sqrt_q, &price, liquidity, true).unwrap();
    assert_eq!(amount0, u256(406));
}
