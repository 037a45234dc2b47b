use clamm::i128::I128;
use clamm::i256::I256;
use clamm::liquidity_amounts::{get_amount0_for_liquidity, get_amount1_for_liquidity,
    get_amounts_for_liquidity, get_liquidity_for_amount0, get_liquidity_for_amount1,
    get_liquidity_for_amounts, to_u128};
use clamm::safe_cast::{to_i128, to_i256, to_u160};
use clamm::u256::{U256, div_rem_u256, mul_full};

fn u256(lo: u128) -> U256 {
    U256 { lo, hi: 0 }
}

fn isqrt(x: &U256) -> U256 {
    let mut lo: u128 = 0;
    let mut hi: u128 = u128::MAX - 1;
    while lo < hi {
        let mid = lo + (hi - lo + 1) / 2;
        let sq = mul_full(&u256(mid), &u256(mid));
        let fits = sq.w2 == 0 && sq.w3 == 0 && !(U256 { lo: sq.w0, hi: sq.w1 }.gt_u(x));
        if fits {
            lo = mid;
        } else {
            hi = mid - 1;
        }
    }
    u256(lo)
}

fn encode_price_sqrt(reserve1: u128, reserve0: u128) -> U256 {
    let two_pow_192 = U256 { lo: 0, hi: 1u128 << 64 };
    let wide = mul_full(&u256(reserve1), &two_pow_192);
    let (q, _) = clamm::u256::div_rem_512(&wide, &u256(reserve0));
    isqrt(&U256 { lo: q.w0, hi: q.w1 })
}

#[test]
fn wide_multiplication_and_division_agree() {
    let a = U256 { lo: 0xdead_beef, hi: 0x1234 };
    let b = U256 { lo: 0xffff_ffff_ffff_ffff, hi: 7 };
    let product = mul_full(&a, &b);
    let (q, r) = clamm::u256::div_rem_512(&product, &b);
    assert_eq!(U256 { lo: q.w0, hi: q.w1 }, a);
    assert!(r.is_zero());
}

#[test]
fn division_produces_quotient_and_remainder() {
    let a = U256 { lo: 1000, hi: 5 };
    let b = u256(7);
    let (q, r) = div_rem_u256(&a, &b);
    let back = q.wrapping_mul(&b).add_u(&r);
    assert_eq!(back, a);
    assert!(r.lt_u(&b));
}

#[test]
fn signed_values_add_and_compare() {
    let five = I256::from_i128(5);
    let minus_two = I256::from_i128(-2);
    let three = five.add_i(&minus_two);
    assert_eq!(three, I256::from_i128(3));
    assert!(minus_two.lt_i(&three));
    assert_eq!(five.sub_i(&five), I256::zero());
    assert_eq!(I128(5).sub_i(7), I128(-2));
}

#[test]
fn casts_narrow_when_the_value_fits() {
    assert_eq!(to_i128(I256::from_i128(-9)), I128(-9));
    let twelve = to_i256(u256(12));
    assert!(!twelve.neg);
    assert_eq!(twelve.mag, u256(12));
    assert_eq!(to_u160(u256(1)), Ok(u256(1)));
    let big = U256 { lo: 0, hi: 1u128 << 33 };
    assert!(to_u160(big).is_err());
}

#[test]
fn liquidity_amount_round_trip_inside_range() {
    let current = encode_price_sqrt(1, 1);
    let lower = encode_price_sqrt(100, 110);
    let upper = encode_price_sqrt(110, 100);
    let amount0 = u256(1_000_000_000_000_000_000);
    let amount1 = u256(1_000_000_000_000_000_000);
    let liquidity =
        get_liquidity_for_amounts(&current, &lower, &upper, &amount0, &amount1).unwrap();
    assert!(liquidity > 0);
    let (back0, back1) = get_amounts_for_liquidity(&current, &lower, &upper, liquidity).unwrap();
    assert!(!back0.gt_u(&amount0));
    assert!(!back1.gt_u(&amount1));
    let l0 = get_liquidity_for_amount0(&current, &upper, &amount0).unwrap();
    let l1 = get_liquidity_for_amount1(&lower, &current, &amount1).unwrap();
    assert_eq!(liquidity, l0.min(l1));
    let a0 = get_amount0_for_liquidity(&current, &upper, liquidity).unwrap();
    let a1 = get_amount1_for_liquidity(&lower, &current, liquidity).unwrap();
    assert!(to_u128(&a0) <= amount0.lo);
    assert!(to_u128(&a1) <= amount1.lo);
}
