use clamm::i256::I256;
use clamm::swap_math::compute_swap_step;
use clamm::u256::{U256, div_rem_512, mul_full};

fn u256(lo: u128) -> U256 {
    U256 { lo, hi: 0 }
}

fn u256_dec(s: &str) -> U256 {
    let mut r = U256 { lo: 0, hi: 0 };
    for c in s.bytes() {
        let d = (c - b'0') as u128;
        r = r.wrapping_mul(&U256 { lo: 10, hi: 0 }).wrapping_add(&U256 { lo: d, hi: 0 });
    }
    r
}

fn expand18(x: u128) -> U256 {
    u256(x * 1_000_000_000_000_000_000)
}

fn isqrt(x: &U256) -> U256 {
    let mut lo: u128 = 0;
    let mut hi: u128 = u128::MAX - 1;
    while lo < hi {
        let mid = lo + (hi - lo + 1) / 2;
        let sq = mul_full(&u256(mid), &u256(mid));
        let fits = sq.w2 == 0 && sq.w3 == 0 && !(U256 { lo: sq.w0, hi: sq.w1 }.gt_u(x));
        if fits {
            lo = mid;
        } else {
            hi = mid - 1;
        }
    }
    u256(lo)
}

fn encode_price_sqrt(reserve1: u128, reserve0: u128) -> U256 {
    let two_pow_192 = U256 { lo: 0, hi: 1u128 << 64 };
    let wide = mul_full(&u256(reserve1), &two_pow_192);
    let (q, _) = div_rem_512(&wide, &u256(reserve0));
    isqrt(&U256 { lo: q.w0, hi: q.w1 })
}

fn pos(x: U256) -> I256 {
    I256::from_u256(x)
}

fn neg(x: U256) -> I256 {
    I256::neg_of_u256(x)
}

#[test]
fn exact_amount_in_that_gets_capped_price_target_one_for_zero() {
    let price = encode_price_sqrt(1, 1);
    let price_target = encode_price_sqrt(101, 100);
    let liquidity = expand18(2).lo;
    let amount = expand18(1);
    let (sqrt_q, amount_in, amount_out, fee_amount) =
        compute_swap_step(&price, &price_target, liquidity, pos(amount), 600).unwrap();
    assert_eq!(amount_in, u256_dec("9975124224178055"));
    assert_eq!(fee_amount, u256_dec("5988667735148"));
    assert_eq!(amount_out, u256_dec("9925619580021728"));
    assert!(amount_in.add_u(&fee_amount).lt_u(&amount));
    assert_eq!(sqrt_q, price_target);
}

#[test]
fn exact_amount_out_that_gets_capped_price_target_one_for_zero() {
    let price = encode_price_sqrt(1, 1);
    let price_target = encode_price_sqrt(101, 100);
    let liquidity = expand18(2).lo;
    let amount = expand18(1);
    let (sqrt_q, amount_in, amount_out, fee_amount) =
        compute_swap_step(&price, &price_target, liquidity, neg(amount), 600).unwrap();
    assert_eq!(amount_in, u256_dec("9975124224178055"));
    assert_eq!(fee_amount, u256_dec("5988667735148"));
    assert_eq!(amount_out, u256_dec("9925619580021728"));
    assert!(amount_out.lt_u(&amount));
    assert_eq!(sqrt_q, price_target);
}

#[test]
fn exact_amount_in_that_fully_spent_one_for_zero() {
    let price = encode_price_sqrt(1, 1);
    let price_target = encode_price_sqrt(1000, 100);
    let liquidity = expand18(2).lo;
    let amount = expand18(1);
    let (sqrt_q, amount_in, amount_out, fee_amount) =
        compute_swap_step(&price, &price_target, liquidity, pos(amount), 600).unwrap();
    assert_eq!(amount_in, u256_dec("999400000000000000"));
    assert_eq!(fee_amount, u256_dec("600000000000000"));
    assert_eq!(amount_out, u256_dec("666399946655997866"));
    assert_eq!(amount_in.add_u(&fee_amount), amount);
    assert!(sqrt_q.lt_u(&price_target));
}

#[test]
fn exact_amount_out_that_fully_received_one_for_zero() {
    let price = encode_price_sqrt(1, 1);
    let price_target = encode_price_sqrt(1000, 100);
    let liquidity = expand18(2).lo;
    let amount = expand18(1);
    let (sqrt_q, amount_in, amount_out, fee_amount) =
        compute_swap_step(&price, &price_target, liquidity, neg(amount), 600).unwrap();
    assert_eq!(amount_in, u256_dec("2000000000000000000"));
    assert_eq!(fee_amount, u256_dec("1200720432259356"));
    assert_eq!(amount_out, amount);
    assert!(sqrt_q.lt_u(&price_target));
}

#[test]
fn exact_amount_out_capped_desired_amount_out() {
    let (sqrt_q, amount_in, amount_out, fee_amount) = compute_swap_step(
        &u256_dec("417332158212080721273783715441582"),
        &u256_dec("1452870262520218020823638996"),
        159344665391607089467575320103,
        I256::from_i128(-1),
        1,
    )
    .unwrap();
    assert_eq!(amount_in, u256(1));
    assert_eq!(fee_amount, u256(1));
    assert_eq!(amount_out, u256(1));
    assert_eq!(sqrt_q, u256_dec("417332158212080721273783715441581"));
}

#[test]
fn target_price_1_uses_partial_input_amount() {
    let (sqrt_q, amount_in, amount_out, fee_amount) = compute_swap_step(
        &u256(2),
        &u256(1),
        1,
        pos(u256_dec("3915081100057732413702495386755767")),
        1,
    )
    .unwrap();
    assert_eq!(amount_in, u256_dec("39614081257132168796771975168"));
    assert_eq!(fee_amount, u256_dec("39614120871253040049813"));
    assert!(!amount_in.add_u(&fee_amount).gt_u(&u256_dec("3915081100057732413702495386755767")));
    assert_eq!(amount_out, u256(0));
    assert_eq!(sqrt_q, u256(1));
}

#[test]
fn entire_input_amount_taken_fee() {
    let (sqrt_q, amount_in, amount_out, fee_amount) = compute_swap_step(
        &u256(2413),
        &u256_dec("79887613182836312"),
        1985041575832132834610021537970,
        I256::from_i128(10),
        1872,
    )
    .unwrap();
    assert_eq!(amount_in, u256(0));
    assert_eq!(fee_amount, u256(10));
    assert_eq!(amount_out, u256(0));
    assert_eq!(sqrt_q, u256(2413));
}

#[test]
fn handle_intermediate_insufficient_liquidity_zero_for_one_exact_output_case() {
    let price = u256_dec("20282409603651670423947251286016");
    let target = price.wrapping_mul(&u256(11)).div_u(&u256(10));
    let (sqrt_q, amount_in, amount_out, fee_amount) =
        compute_swap_step(&price, &target, 1024, I256::from_i128(-4), 3000).unwrap();
    assert_eq!(amount_in, u256(26215));
    assert_eq!(fee_amount, u256(79));
    assert_eq!(amount_out, u256(0));
    assert_eq!(sqrt_q, target);
}

#[test]
fn handle_intermediate_insufficient_liquidity_one_for_zero_exact_output_case() {
    let price = u256_dec("20282409603651670423947251286016");
    let target = price.wrapping_mul(&u256(9)).div_u(&u256(10));
    let (sqrt_q, amount_in, amount_out, fee_amount) =
        compute_swap_step(&price, &target, 1024, I256::from_i128(-263000), 3000).unwrap();
    assert_eq!(amount_in, u256(1));
    assert_eq!(fee_amount, u256(1));
    assert_eq!(amount_out, u256(26214));
    assert_eq!(sqrt_q, target);
}
