use clamm::tick::{Ticks, TickInfo, clear, cross, get_fee_growth_inside,
    tick_spacing_to_max_liquidity_per_tick, update};
use clamm::u256::U256;

fn u256(lo: u128) -> U256 {
    U256 { lo, hi: 0 }
}

#[test]
fn max_liquidity_per_tick_matches_the_usable_tick_count() {
    // 2 * (887272 / spacing) + 1 usable ticks share u128::MAX
    assert_eq!(tick_spacing_to_max_liquidity_per_tick(60), u128::MAX / (2 * 14787 + 1));
    assert_eq!(tick_spacing_to_max_liquidity_per_tick(10), u128::MAX / (2 * 88727 + 1));
    assert_eq!(
        tick_spacing_to_max_liquidity_per_tick(0x8000),
        u128::MAX / (2 * (887272 / 0x8000) + 1)
    );
}

#[test]
fn update_seeds_outside_trackers_below_the_current_tick() {
    let mut ticks = Ticks::new();
    let growth0 = u256(55);
    let growth1 = u256(66);
    let spl = u256(77);
    let flipped = update(
        &mut ticks, -60, 0, 1000, &growth0, &growth1, &spl, 9, 1234, false, u128::MAX,
    )
    .unwrap();
    assert!(flipped);
    let info = ticks.get(-60);
    assert_eq!(info.liquidity_gross, 1000);
    assert_eq!(info.liquidity_net.0, 1000);
    assert!(info.initialized);
    assert_eq!(info.fee_growth_outside0_x128, growth0);
    assert_eq!(info.tick_cumulative_outside, 9);
    // an upper update on a tick above the current price seeds nothing
    let flipped = update(
        &mut ticks, 60, 0, 1000, &growth0, &growth1, &spl, 9, 1234, true, u128::MAX,
    )
    .unwrap();
    assert!(flipped);
    let upper = ticks.get(60);
    assert_eq!(upper.liquidity_net.0, -1000);
    assert_eq!(upper.fee_growth_outside0_x128, u256(0));
}

#[test]
fn update_rejects_liquidity_beyond_the_tick_cap() {
    let mut ticks = Ticks::new();
    let zero = u256(0);
    let r = update(&mut ticks, 0, 0, 11, &zero, &zero, &zero, 0, 0, false, 10);
    assert!(r.is_err());
}

#[test]
fn crossing_mirrors_the_fee_growth_and_conserves_it() {
    let mut ticks = Ticks::new();
    let zero = u256(0);
    update(&mut ticks, 0, 0, 500, &zero, &zero, &zero, 0, 0, false, u128::MAX).unwrap();
    let before = ticks.get(0);
    let global0 = u256(1000);
    let global1 = U256 { lo: 3, hi: 7 };
    let net = cross(&mut ticks, 0, &global0, &global1, &u256(40), 50, 60);
    assert_eq!(net, 500);
    let after = ticks.get(0);
    // the wrapped sum of old and new outside values is the global total
    let sum0 = after.fee_growth_outside0_x128.wrapping_add(&before.fee_growth_outside0_x128);
    assert_eq!(sum0, global0);
    let sum1 = after.fee_growth_outside1_x128.wrapping_add(&before.fee_growth_outside1_x128);
    assert_eq!(sum1, global1);
    // crossing back restores the original trackers
    let _ = cross(&mut ticks, 0, &global0, &global1, &u256(40), 50, 60);
    let back = ticks.get(0);
    assert_eq!(back.fee_growth_outside0_x128, before.fee_growth_outside0_x128);
}

#[test]
fn fee_growth_inside_splits_by_the_current_tick() {
    let mut ticks = Ticks::new();
    let zero = u256(0);
    update(&mut ticks, -60, 0, 10, &zero, &zero, &zero, 0, 0, false, u128::MAX).unwrap();
    update(&mut ticks, 60, 0, 10, &zero, &zero, &zero, 0, 0, true, u128::MAX).unwrap();
    let g0 = u256(500);
    let g1 = u256(700);
    let (inside0, inside1) = get_fee_growth_inside(&ticks, -60, 60, 0, &g0, &g1);
    assert_eq!(inside0, g0);
    assert_eq!(inside1, g1);
    let (lo0, _) = get_fee_growth_inside(&ticks, -60, 60, -120, &g0, &g1);
    assert_eq!(lo0, u256(0));
}

#[test]
fn clear_forgets_a_tick() {
    let mut ticks = Ticks::new();
    let zero = u256(0);
    update(&mut ticks, 0, 0, 500, &zero, &zero, &zero, 0, 0, false, u128::MAX).unwrap();
    clear(&mut ticks, 0);
    assert_eq!(ticks.get(0), TickInfo::empty());
}
