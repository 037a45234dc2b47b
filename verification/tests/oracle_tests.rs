use clamm::error::Error;
use clamm::oracle::{Observations, grow, initialize, lte, observe_single, transform};
use clamm::u256::U256;

#[test]
fn initialize_writes_slot_zero() {
    let mut obs = Observations::new();
    let (card, card_next) = initialize(&mut obs, 5);
    assert_eq!((card, card_next), (1, 1));
    let first = obs.get(0);
    assert_eq!(first.block_timestamp, 5);
    assert_eq!(first.tick_cumulative, 0);
    assert!(first.initialized);
}

#[test]
fn transform_accumulates_tick_time() {
    let mut obs = Observations::new();
    initialize(&mut obs, 5);
    let extended = transform(&obs.get(0), 9, 7, 100);
    assert_eq!(extended.block_timestamp, 9);
    assert_eq!(extended.tick_cumulative, 28);
    // 4 seconds scaled by 2^128 over 100 units of liquidity
    let expected = U256 { lo: 0, hi: 4 }.div_u(&U256 { lo: 100, hi: 0 });
    assert_eq!(extended.seconds_per_liquidity_cumulative_x128, expected);
}

#[test]
fn write_is_a_no_op_on_a_repeated_timestamp() {
    let mut obs = Observations::new();
    initialize(&mut obs, 5);
    let (index, card) = clamm::oracle::write(&mut obs, 0, 5, 3, 100, 1, 1);
    assert_eq!((index, card), (0, 1));
    let (index, card) = clamm::oracle::write(&mut obs, 0, 6, 3, 100, 1, 1);
    assert_eq!((index, card), (0, 1));
    assert_eq!(obs.get(0).block_timestamp, 6);
    assert_eq!(obs.get(0).tick_cumulative, 3);
}

#[test]
fn grow_seeds_new_slots_and_never_shrinks() {
    let mut obs = Observations::new();
    initialize(&mut obs, 5);
    assert_eq!(grow(&mut obs, 0, 4), Err(Error::ErrI));
    assert_eq!(grow(&mut obs, 1, 4), Ok(4));
    for i in 1..4 {
        assert_eq!(obs.get(i).block_timestamp, 1);
        assert!(!obs.get(i).initialized);
    }
    let snapshot = obs.get(2);
    assert_eq!(grow(&mut obs, 4, 3), Ok(4));
    assert_eq!(obs.get(2), snapshot);
}

#[test]
fn lte_orders_wrapped_timestamps() {
    assert!(lte(10, 2, 3));
    assert!(!lte(10, 3, 2));
    // values above the current time sit one wrap earlier
    assert!(lte(10, 11, 2));
    assert!(!lte(10, 2, 11));
}

#[test]
fn observe_single_now_extends_the_latest_sample() {
    let mut obs = Observations::new();
    initialize(&mut obs, 5);
    let (tc, _spl) = observe_single(&obs, 9, 0, 7, 0, 100, 1).unwrap();
    assert_eq!(tc, 28);
}

#[test]
fn observe_single_finds_an_exact_stored_sample() {
    let mut obs = Observations::new();
    initialize(&mut obs, 5);
    let (index, card) = clamm::oracle::write(&mut obs, 0, 9, 7, 100, 1, 1);
    assert_eq!((index, card), (0, 1));
    let (tc, _spl) = observe_single(&obs, 9, 0, 7, 0, 100, 1).unwrap();
    assert_eq!(tc, 28);
}

#[test]
fn observe_rejects_targets_before_the_oldest_sample() {
    let mut obs = Observations::new();
    initialize(&mut obs, 5);
    let r = observe_single(&obs, 9, 9, 7, 0, 100, 1);
    assert_eq!(r, Err(Error::ErrOld));
}

#[test]
fn observe_interpolates_between_samples() {
    let mut obs = Observations::new();
    initialize(&mut obs, 0);
    grow(&mut obs, 1, 4).unwrap();
    // tick 10 held for 10 seconds, then tick 20
    let (i1, c1) = clamm::oracle::write(&mut obs, 0, 10, 10, 0, 1, 4);
    assert_eq!((i1, c1), (1, 4));
    let (i2, c2) = clamm::oracle::write(&mut obs, 1, 20, 20, 0, 4, 4);
    assert_eq!((i2, c2), (2, 4));
    // five seconds back: halfway between the two stored samples
    let (tc, _spl) = observe_single(&obs, 20, 5, 20, 2, 0, 4).unwrap();
    assert_eq!(tc, 100 + 20 * 5);
}
