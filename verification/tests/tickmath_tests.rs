use clamm::error::Error;
use clamm::tickmath::{MAX_TICK, MIN_TICK, get_sqrt_ratio_at_tick, get_tick_at_sqrt_ratio,
    max_sqrt_ratio, min_sqrt_ratio};
use clamm::u256::U256;

fn u256_dec(s: &str) -> U256 {
    let mut r = U256 { lo: 0, hi: 0 };
    for c in s.bytes() {
        let d = (c - b'0') as u128;
        r = r.wrapping_mul(&U256 { lo: 10, hi: 0 }).wrapping_add(&U256 { lo: d, hi: 0 });
    }
    r
}

#[test]
fn test_get_sqrt_ratio_at_tick_throw_too_low() {
    assert_eq!(get_sqrt_ratio_at_tick(MIN_TICK - 1), Err(Error::ErrT));
}

#[test]
fn test_get_sqrt_ratio_at_tick_throw_too_high() {
    assert_eq!(get_sqrt_ratio_at_tick(MAX_TICK + 1), Err(Error::ErrT));
}

#[test]
fn test_get_sqrt_ratio_at_tick_min_tick() {
    assert_eq!(get_sqrt_ratio_at_tick(MIN_TICK), Ok(u256_dec("4295128739")));
}

#[test]
fn test_get_sqrt_ratio_at_tick_min_tick_plus_one() {
    assert_eq!(get_sqrt_ratio_at_tick(MIN_TICK + 1), Ok(u256_dec("4295343490")));
}

#[test]
fn test_get_sqrt_ratio_at_tick_max_tick_minus_one() {
    assert_eq!(
        get_sqrt_ratio_at_tick(MAX_TICK - 1),
        Ok(u256_dec("1461373636630004318706518188784493106690254656249"))
    );
}

#[test]
fn test_get_sqrt_ratio_at_tick_max_tick() {
    assert_eq!(
        get_sqrt_ratio_at_tick(MAX_TICK),
        Ok(u256_dec("1461446703485210103287273052203988822378723970342"))
    );
}

#[test]
fn test_get_sqrt_ratio_at_tick_equal_min_tick() {
    assert_eq!(get_sqrt_ratio_at_tick(MIN_TICK).unwrap(), min_sqrt_ratio());
}

#[test]
fn test_get_sqrt_ratio_at_tick_equal_max_tick() {
    assert_eq!(get_sqrt_ratio_at_tick(MAX_TICK).unwrap(), max_sqrt_ratio());
}

#[test]
fn test_get_sqrt_ratio_at_tick_tick() {
    let abs_ticks = [
        50, 100, 250, 500, 1_000, 2_500, 3_000, 4_000, 5_000, 50_000, 150_000, 250_000, 500_000,
        738_203,
    ];
    for abs_tick in abs_ticks {
        // the conversion must succeed on both signs and stay in range
        for tick in [abs_tick, -abs_tick] {
            let ratio = get_sqrt_ratio_at_tick(tick).unwrap();
            assert!(!min_sqrt_ratio().gt_u(&ratio));
            assert!(!ratio.gt_u(&max_sqrt_ratio()));
        }
    }
}

#[test]
fn test_get_tick_at_sqrt_ratio_throw_too_low() {
    let below = min_sqrt_ratio().sub_u(&U256 { lo: 1, hi: 0 });
    assert_eq!(get_tick_at_sqrt_ratio(below), Err(Error::ErrR));
}

#[test]
fn test_get_tick_at_sqrt_ratio_throw_too_high() {
    assert_eq!(get_tick_at_sqrt_ratio(max_sqrt_ratio()), Err(Error::ErrR));
}

#[test]
fn test_get_tick_at_sqrt_ratio_of_min_tick() {
    assert_eq!(get_tick_at_sqrt_ratio(min_sqrt_ratio()), Ok(MIN_TICK));
}

#[test]
fn test_get_tick_at_sqrt_ratio_of_min_tick_plus_one() {
    assert_eq!(get_tick_at_sqrt_ratio(u256_dec("4295343490")), Ok(MIN_TICK + 1));
}

#[test]
fn test_get_tick_at_sqrt_ratio_of_max_tick_minus_one() {
    assert_eq!(
        get_tick_at_sqrt_ratio(u256_dec("1461373636630004318706518188784493106690254656249")),
        Ok(MAX_TICK - 1)
    );
}

#[test]
fn test_get_tick_at_sqrt_ratio_closest_to_max_tick() {
    let just_below = max_sqrt_ratio().sub_u(&U256 { lo: 1, hi: 0 });
    assert_eq!(get_tick_at_sqrt_ratio(just_below), Ok(MAX_TICK - 1));
}

#[test]
fn tick_round_trips_through_its_price() {
    // the tick of a tick's own price is the tick again
    for tick in [
        MIN_TICK, -738203, -500000, -250000, -50000, -5000, -1000, -250, -50, 0, 50, 250, 1000,
        5000, 50000, 250000, 500000, 738203, MAX_TICK - 1,
    ] {
        let ratio = get_sqrt_ratio_at_tick(tick).unwrap();
        assert_eq!(get_tick_at_sqrt_ratio(ratio), Ok(tick));
    }
}

#[test]
fn prices_increase_strictly_with_the_tick() {
    let ticks = [
        MIN_TICK, -738203, -500000, -50000, -500, -2, -1, 0, 1, 2, 500, 50000, 500000, 738203,
        MAX_TICK,
    ];
    for w in ticks.windows(2) {
        let lo = get_sqrt_ratio_at_tick(w[0]).unwrap();
        let hi = get_sqrt_ratio_at_tick(w[1]).unwrap();
        assert!(lo.lt_u(&hi));
    }
}
