use clamm::error::Error;
use clamm::i256::I256;
use clamm::pool::Pool;
use clamm::u256::{U256, div_rem_512, mul_full};

fn u256(lo: u128) -> U256 {
    U256 { lo, hi: 0 }
}

fn u256_dec(s: &str) -> U256 {
    let mut r = U256 { lo: 0, hi: 0 };
    for c in s.bytes() {
        let d = (c - b'0') as u128;
        r = r.wrapping_mul(&U256 { lo: 10, hi: 0 }).wrapping_add(&U256 { lo: d, hi: 0 });
    }
    r
}

fn expand18(x: u128) -> U256 {
    u256(x * 1_000_000_000_000_000_000)
}

fn isqrt(x: &U256) -> U256 {
    let mut lo: u128 = 0;
    let mut hi: u128 = u128::MAX - 1;
    while lo < hi {
        let mid = lo + (hi - lo + 1) / 2;
        let sq = mul_full(&u256(mid), &u256(mid));
        let fits = sq.w2 == 0 && sq.w3 == 0 && !(U256 { lo: sq.w0, hi: sq.w1 }.gt_u(x));
        if fits {
            lo = mid;
        } else {
            hi = mid - 1;
        }
    }
    u256(lo)
}

fn encode_price_sqrt(reserve1: u128, reserve0: u128) -> U256 {
    let two_pow_192 = U256 { lo: 0, hi: 1u128 << 64 };
    let wide = mul_full(&u256(reserve1), &two_pow_192);
    let (q, _) = div_rem_512(&wide, &u256(reserve0));
    isqrt(&U256 { lo: q.w0, hi: q.w1 })
}

const START: u64 = 1_601_906_400;
const WALLET: u64 = 7;

fn medium_pool() -> Pool {
    Pool::init_pool(3000, 60)
}

fn min_tick(spacing: i32) -> i32 {
    (-887272 / spacing) * spacing
}

fn max_tick(spacing: i32) -> i32 {
    (887272 / spacing) * spacing
}

#[test]
fn test_returns_0_before_initialization() {
    let pool = medium_pool();
    assert_eq!(pool.liquidity, 0);
}

#[test]
fn test_returns_initial_liquidity() {
    let mut pool = medium_pool();
    pool.init_pool_price(encode_price_sqrt(1, 1), START).unwrap();
    pool.mint(WALLET, min_tick(60), max_tick(60), expand18(2).lo, START).unwrap();
    assert_eq!(pool.liquidity, expand18(2).lo);
}

#[test]
fn test_cannot_be_called_before_initialization() {
    let mut pool = medium_pool();
    assert_eq!(pool.increase_observation_cardinality_next(2), Err(Error::ErrLOK));
}

#[test]
fn staged_cardinality_only_grows() {
    // staging a smaller or equal ring size is a no-op
    let mut pool = medium_pool();
    pool.init_pool_price(encode_price_sqrt(1, 1), START).unwrap();
    assert_eq!(pool.increase_observation_cardinality_next(5), Ok((1, 5)));
    let snapshot = pool.slot0;
    assert_eq!(pool.increase_observation_cardinality_next(5), Ok((5, 5)));
    assert_eq!(pool.slot0, snapshot);
    assert_eq!(pool.increase_observation_cardinality_next(3), Ok((5, 5)));
    assert_eq!(pool.slot0, snapshot);
}

#[test]
fn initializing_the_price_twice_fails() {
    let mut pool = medium_pool();
    pool.init_pool_price(encode_price_sqrt(1, 1), START).unwrap();
    let price = pool.slot0.sqrt_price_x96;
    assert_eq!(pool.init_pool_price(encode_price_sqrt(1, 10), START), Err(Error::ErrAI));
    assert_eq!(pool.slot0.sqrt_price_x96, price);
}

#[test]
fn fee_protocol_nibbles_pack_and_unpack() {
    let mut pool = medium_pool();
    pool.init_pool_price(encode_price_sqrt(1, 1), START).unwrap();
    pool.set_fee_protocol(6, 8).unwrap();
    assert_eq!(pool.slot0.fee_protocol % 16, 6);
    assert_eq!(pool.slot0.fee_protocol >> 4, 8);
    assert_eq!(pool.set_fee_protocol(3, 3), Err(Error::ErrFeeProtocol));
    assert_eq!(pool.set_fee_protocol(11, 0), Err(Error::ErrFeeProtocol));
    pool.set_fee_protocol(0, 0).unwrap();
    assert_eq!(pool.slot0.fee_protocol, 0);
}

#[test]
fn initial_mint_at_one_to_ten_price() {
    let mut pool = medium_pool();
    pool.init_pool_price(encode_price_sqrt(1, 10), START).unwrap();
    assert_eq!(pool.slot0.tick, -23028);
    let (amount0, amount1) = pool.mint(WALLET, min_tick(60), max_tick(60), 3161, START).unwrap();
    assert_eq!(amount0, u256(9996));
    assert_eq!(amount1, u256(1000));
}

#[test]
fn mint_above_current_price_takes_token0_only() {
    let mut pool = medium_pool();
    pool.init_pool_price(encode_price_sqrt(1, 10), START).unwrap();
    pool.mint(WALLET, min_tick(60), max_tick(60), 3161, START).unwrap();
    let (amount0, amount1) = pool.mint(WALLET, -22980, 0, 10000, START).unwrap();
    assert_eq!(amount0, u256(21549));
    assert_eq!(amount1, u256(0));
}

#[test]
fn swap_exact_input_token0_moves_price_down() {
    let mut pool = medium_pool();
    pool.init_pool_price(encode_price_sqrt(1, 1), START).unwrap();
    let initial_price = pool.slot0.sqrt_price_x96;
    pool.mint(WALLET, min_tick(60), max_tick(60), expand18(1).lo, START).unwrap();
    let amount_in = I256::from_u256(expand18(1).div_u(&u256(10)));
    let limit = u256_dec("4295128740");
    let (amount0, amount1) = pool.swap(true, amount_in, limit, START).unwrap();
    assert_eq!(amount0.to_u256(), expand18(1).div_u(&u256(10)));
    assert!(amount1.is_neg());
    let out = amount1.neg_i().to_u256();
    // 0.1 in against 1.0 of liquidity at fee 0.30% returns just over 0.0906
    assert!(out.gt_u(&u256(90_000_000_000_000_000)));
    assert!(out.lt_u(&u256(91_000_000_000_000_000)));
    assert!(pool.slot0.sqrt_price_x96.lt_u(&initial_price));
}

#[test]
fn fees_accrue_to_the_position_with_protocol_fee_off() {
    let mut pool = Pool::init_pool(500, 10);
    pool.init_pool_price(encode_price_sqrt(1, 1), START).unwrap();
    pool.mint(WALLET, min_tick(10), max_tick(10), expand18(1000).lo, START).unwrap();
    let amount_in = I256::from_u256(expand18(1));
    pool.swap(true, amount_in, u256_dec("4295128740"), START).unwrap();
    pool.burn(WALLET, min_tick(10), max_tick(10), 0, START).unwrap();
    let position = pool.positions.get((WALLET, min_tick(10), max_tick(10)));
    assert_eq!(position.tokens_owed0, 499_999_999_999_999);
    assert_eq!(position.tokens_owed1, 0);
    let (take0, take1) = pool
        .collect(WALLET, min_tick(10), max_tick(10), u128::MAX, u128::MAX)
        .unwrap();
    assert_eq!(take0, 499_999_999_999_999);
    assert_eq!(take1, 0);
}

#[test]
fn protocol_fee_takes_its_share_of_swap_fees() {
    let mut pool = Pool::init_pool(500, 10);
    pool.init_pool_price(encode_price_sqrt(1, 1), START).unwrap();
    pool.set_fee_protocol(6, 6).unwrap();
    pool.mint(WALLET, min_tick(10), max_tick(10), expand18(1000).lo, START).unwrap();
    let amount_in = I256::from_u256(expand18(1));
    pool.swap(true, amount_in, u256_dec("4295128740"), START).unwrap();
    pool.burn(WALLET, min_tick(10), max_tick(10), 0, START).unwrap();
    let position = pool.positions.get((WALLET, min_tick(10), max_tick(10)));
    assert_eq!(position.tokens_owed0, 416_666_666_666_666);
    assert_eq!(pool.protocol_fees.token0, 83_333_333_333_333);
    let (collected0, collected1) = pool.collect_protocol(u128::MAX, u128::MAX).unwrap();
    assert_eq!(collected0, 83_333_333_333_332);
    assert_eq!(collected1, 0);
    assert_eq!(pool.protocol_fees.token0, 1);
}

#[test]
fn burning_a_position_credits_its_tokens() {
    let mut pool = medium_pool();
    pool.init_pool_price(encode_price_sqrt(1, 10), START).unwrap();
    pool.mint(WALLET, min_tick(60), max_tick(60), 3161, START).unwrap();
    let (amount0, amount1) = pool.burn(WALLET, min_tick(60), max_tick(60), 3161, START).unwrap();
    let position = pool.positions.get((WALLET, min_tick(60), max_tick(60)));
    assert_eq!(position.liquidity, 0);
    assert_eq!(u256(position.tokens_owed0), amount0);
    assert_eq!(u256(position.tokens_owed1), amount1);
    let (take0, take1) = pool
        .collect(WALLET, min_tick(60), max_tick(60), u128::MAX, u128::MAX)
        .unwrap();
    assert_eq!(take0, position.tokens_owed0);
    assert_eq!(take1, position.tokens_owed1);
    let cleared = pool.positions.get((WALLET, min_tick(60), max_tick(60)));
    assert_eq!(cleared.tokens_owed0, 0);
    assert_eq!(cleared.tokens_owed1, 0);
}

#[test]
fn a_flipped_tick_reads_as_initialized() {
    // liquidity on a tick, its bitmap bit and its record agree
    let mut pool = medium_pool();
    pool.init_pool_price(encode_price_sqrt(1, 1), START).unwrap();
    pool.mint(WALLET, -120, 120, 1000, START).unwrap();
    assert!(pool.ticks.get(-120).initialized);
    assert!(pool.ticks.get(120).initialized);
    assert_eq!(pool.ticks.get(-120).liquidity_gross, 1000);
    assert!(!pool.ticks.get(-60).initialized);
    let word = pool.tick_bitmap.read_word(0);
    // compressed tick 2 = 120 / 60
    assert_eq!((word.lo >> 2) & 1, 1);
    pool.burn(WALLET, -120, 120, 1000, START).unwrap();
    assert!(!pool.ticks.get(-120).initialized);
    assert_eq!(pool.ticks.get(120).liquidity_gross, 0);
}

#[test]
fn swap_to_the_limit_stops_at_the_limit() {
    let mut pool = medium_pool();
    pool.init_pool_price(encode_price_sqrt(1, 1), START).unwrap();
    pool.mint(WALLET, min_tick(60), max_tick(60), expand18(1).lo, START).unwrap();
    let limit = pool.slot0.sqrt_price_x96.sub_u(&u256(1_000_000_000));
    let huge = I256::from_u256(expand18(1_000_000));
    pool.swap(true, huge, limit, START).unwrap();
    assert_eq!(pool.slot0.sqrt_price_x96, limit);
}

#[test]
fn swap_requires_a_sane_limit() {
    let mut pool = medium_pool();
    pool.init_pool_price(encode_price_sqrt(1, 1), START).unwrap();
    pool.mint(WALLET, min_tick(60), max_tick(60), expand18(1).lo, START).unwrap();
    let above = pool.slot0.sqrt_price_x96.add_u(&u256(1));
    assert_eq!(
        pool.swap(true, I256::from_u256(u256(1)), above, START),
        Err(Error::ErrSwapSPL)
    );
    assert_eq!(
        pool.swap(true, I256::zero(), u256_dec("4295128740"), START),
        Err(Error::ErrSwapAS)
    );
}

#[test]
fn snapshot_inside_requires_initialized_bounds() {
    let mut pool = medium_pool();
    pool.init_pool_price(encode_price_sqrt(1, 1), START).unwrap();
    assert_eq!(
        pool.snapshot_cumulatives_inside(-60, 60, START),
        Err(Error::ErrLowerUninitialized)
    );
    pool.mint(WALLET, -60, 60, 1000, START).unwrap();
    let (tick_cumulative, _spl, seconds) =
        pool.snapshot_cumulatives_inside(-60, 60, START).unwrap();
    assert_eq!(tick_cumulative, 0);
    // the range became active at the current time, so no time has
    // accumulated inside it yet
    assert_eq!(seconds, 0);
}

#[test]
fn observing_now_reports_the_running_cumulatives() {
    let mut pool = medium_pool();
    pool.init_pool_price(encode_price_sqrt(1, 10), START).unwrap();
    pool.mint(WALLET, min_tick(60), max_tick(60), 3161, START).unwrap();
    let (tcs, spls) = pool.observe(START + 4, &vec![0u32]).unwrap();
    assert_eq!(tcs.len(), 1);
    assert_eq!(spls.len(), 1);
    // four seconds at tick -23028
    assert_eq!(tcs[0], -23028 * 4);
}
