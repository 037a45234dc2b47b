use clamm::error::Error;
use clamm::factory::Factory;
use clamm::path::{decode_first_pool, get_first_pool, has_multiple_pools, num_pools, skip_token};
use clamm::position::PositionInfo;
use clamm::router::{Position, burn_internal, check_deadline, collect_checks,
    decrease_liquidity_checks, exact_input_internal, exact_output_internal, mint_internal};
use clamm::u256::U256;
use clamm::utils::{is_token_sorted, set_size_32, set_size_4, set_size_64, sort_tokens};
use clamm::pausable::when_not_paused;
use clamm::error::as_u16;

fn token(b: u8) -> [u8; 32] {
    let mut t = [0u8; 32];
    t[31] = b;
    t
}

fn sample_position(liquidity: u128) -> Position {
    mint_internal(1, -60, 60, liquidity, &PositionInfo::empty(), 3000, token(1), token(2))
}

#[test]
fn factory_seeds_the_standard_fee_tiers() {
    let factory = Factory::init_factory();
    assert_eq!(factory.get_fee_amount_tick_spacing(500), 10);
    assert_eq!(factory.get_fee_amount_tick_spacing(3000), 60);
    assert_eq!(factory.get_fee_amount_tick_spacing(10000), 200);
    assert_eq!(factory.get_fee_amount_tick_spacing(1234), 0);
}

#[test]
fn enable_fee_amount_validates_and_registers() {
    let mut factory = Factory::init_factory();
    assert_eq!(factory.enable_fee_amount(1_000_000, 10), Err(Error::ErrFactoryFee));
    assert_eq!(factory.enable_fee_amount(100, 0), Err(Error::ErrInvalidTickSpacing));
    assert_eq!(factory.enable_fee_amount(100, 16384), Err(Error::ErrInvalidTickSpacing));
    assert_eq!(factory.enable_fee_amount(500, 10), Err(Error::ErrFeeExist));
    factory.enable_fee_amount(100, 1).unwrap();
    assert_eq!(factory.get_fee_amount_tick_spacing(100), 1);
}

#[test]
fn create_pool_registers_each_pair_once() {
    let mut factory = Factory::init_factory();
    let key = token(9);
    assert_eq!(factory.create_pool(&token(1), &token(1), 3000, &key), Err(Error::ErrSameToken));
    assert_eq!(factory.create_pool(&token(1), &token(2), 123, &key), Err(Error::ErrTickSpacingNull));
    let (spacing, pool_id) = factory.create_pool(&token(1), &token(2), 3000, &key).unwrap();
    assert_eq!(spacing, 60);
    assert_eq!(pool_id, 1);
    assert_eq!(factory.get_pool_address(&key), 1);
    assert_eq!(factory.create_pool(&token(1), &token(2), 3000, &key), Err(Error::ErrPoolExist));
}

#[test]
fn test_cannot_be_called_while_there_is_still_liquidity() {
    let position = sample_position(10);
    assert_eq!(burn_internal(&position), Err(Error::ErrPositionNotCleared));
}

#[test]
fn burn_succeeds_only_on_a_cleared_position() {
    let mut position = sample_position(0);
    assert_eq!(burn_internal(&position), Ok(()));
    position.tokens_owed1 = 5;
    assert_eq!(burn_internal(&position), Err(Error::ErrPositionNotCleared));
}

#[test]
fn deadlines_are_enforced() {
    assert_eq!(check_deadline(10, 10), Ok(()));
    assert_eq!(check_deadline(11, 10), Err(Error::ErrTransactionTooOld));
}

#[test]
fn liquidity_and_collect_parameter_checks() {
    let position = sample_position(10);
    assert_eq!(decrease_liquidity_checks(&position, 0), Err(Error::ErrInvalidLiquidity));
    assert_eq!(decrease_liquidity_checks(&position, 11), Err(Error::ErrInvalidLiquidity));
    assert_eq!(decrease_liquidity_checks(&position, 10), Ok(()));
    assert_eq!(collect_checks(0, 1), Err(Error::ErrInvalidCollectParams));
    assert_eq!(collect_checks(1, 1), Ok(()));
}

#[test]
fn swap_router_slippage_rules() {
    let one = U256 { lo: 1, hi: 0 };
    let two = U256 { lo: 2, hi: 0 };
    assert_eq!(exact_input_internal(&two, &one), Ok(()));
    assert_eq!(exact_input_internal(&one, &two), Err(Error::ErrTooLittleReceived));
    assert_eq!(exact_output_internal(&one, &two), Ok(()));
    assert_eq!(exact_output_internal(&two, &one), Err(Error::ErrTooMuchRequested));
}

#[test]
fn test_has_multiple_pools() {
    let single = vec![0u8; 68];
    let multi = vec![0u8; 104];
    assert!(!has_multiple_pools(&single));
    assert!(has_multiple_pools(&multi));
}

#[test]
fn test_num_pools() {
    assert_eq!(num_pools(&vec![0u8; 68]), 1);
    assert_eq!(num_pools(&vec![0u8; 104]), 2);
}

#[test]
fn test_decode_first_pool() {
    let mut path = Vec::new();
    path.extend_from_slice(&token(1));
    path.extend_from_slice(&3000u32.to_le_bytes());
    path.extend_from_slice(&token(2));
    let (a, b, fee) = decode_first_pool(&path);
    assert_eq!(a, token(1));
    assert_eq!(b, token(2));
    assert_eq!(fee, 3000);
    let first = get_first_pool(&path);
    assert_eq!(first.len(), 68);
    let rest = skip_token(&path);
    assert_eq!(rest.len(), 32);
    assert_eq!(rest, token(2).to_vec());
}

#[test]
fn test_set_size_helpers() {
    let bytes32 = vec![7u8; 32];
    assert_eq!(set_size_32(&bytes32), [7u8; 32]);
    let bytes4 = vec![9u8; 4];
    assert_eq!(set_size_4(&bytes4), [9u8; 4]);
    let bytes64 = vec![3u8; 64];
    assert_eq!(set_size_64(&bytes64), [3u8; 64]);
}

#[test]
fn tokens_sort_lexicographically() {
    assert!(is_token_sorted(&token(1), &token(2)));
    assert!(!is_token_sorted(&token(2), &token(1)));
    assert!(!is_token_sorted(&token(1), &token(1)));
    assert_eq!(sort_tokens(token(2), token(1)), (token(1), token(2)));
}

#[test]
fn pause_switch_blocks_when_set() {
    assert_eq!(when_not_paused(false), Ok(()));
    assert_eq!(when_not_paused(true), Err(Error::ContractPaused));
}

#[test]
fn error_codes_are_stable() {
    assert_eq!(as_u16(Error::ErrMoreThan), 15000);
    assert_eq!(as_u16(Error::InvalidMulDiv), 15005);
    assert_eq!(as_u16(Error::ErrLS), 15006);
    assert_eq!(as_u16(Error::ErrLA), 15007);
    assert_eq!(as_u16(Error::ErrT), 15008);
    assert_eq!(as_u16(Error::ErrR), 15009);
}
