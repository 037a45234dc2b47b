//! The position-manager and swap-router bookkeeping: token-wrapped
//! position records and the checks and record updates around pool calls.
//!
//! The router alternates pool and token-contract calls with decisions;
//! the decisions live here as functions from the fetched state to the
//! next record or error, and the embedding performs the calls between
//! them.

use vstd::prelude::*;
use vstd::arithmetic::power2::*;

use crate::error::Error;
use crate::position::{PositionInfo, owed_delta};
use crate::u256::{U256, p128, p256};

verus! {

/// A pool position wrapped as a non-fungible token.
#[derive(Clone, Copy, Debug)]
pub struct Position {
    pub pool_id: u64,
    pub tick_lower: i32,
    pub tick_upper: i32,
    pub liquidity: u128,
    pub fee_growth_inside0_last_x128: U256,
    pub fee_growth_inside1_last_x128: U256,
    pub tokens_owed0: u128,
    pub tokens_owed1: u128,
    pub fee: u32,
    pub token0: [u8; 32],
    pub token1: [u8; 32],
}

/// User-facing operations carry a deadline in host time.
pub fn check_deadline(time: u64, deadline: u64) -> (r: Result<(), Error>)
    ensures
        r is Ok <==> time <= deadline,
        time > deadline ==> r == Result::<(), Error>::Err(Error::ErrTransactionTooOld),
{
    if time <= deadline {
        Ok(())
    } else {
        Err(Error::ErrTransactionTooOld)
    }
}

/// The fresh record minted for a new position, snapshotting the pool's
/// fee growth for the range.
pub fn mint_internal(
    pool_id: u64,
    tick_lower: i32,
    tick_upper: i32,
    liquidity: u128,
    pool_record: &PositionInfo,
    fee: u32,
    token0: [u8; 32],
    token1: [u8; 32],
) -> (r: Position)
    ensures
        r == (Position {
            pool_id,
            tick_lower,
            tick_upper,
            liquidity,
            fee_growth_inside0_last_x128: pool_record.fee_growth_inside0_last_x128,
            fee_growth_inside1_last_x128: pool_record.fee_growth_inside1_last_x128,
            tokens_owed0: 0,
            tokens_owed1: 0,
            fee,
            token0,
            token1,
        }),
{
    Position {
        pool_id,
        tick_lower,
        tick_upper,
        liquidity,
        fee_growth_inside0_last_x128: pool_record.fee_growth_inside0_last_x128,
        fee_growth_inside1_last_x128: pool_record.fee_growth_inside1_last_x128,
        tokens_owed0: 0,
        tokens_owed1: 0,
        fee,
        token0,
        token1,
    }
}

/// Credits the fees accrued since the last snapshot and adds freshly
/// minted liquidity to the wrapped record.
pub fn increase_liquidity_internal(
    position: &Position,
    liquidity: u128,
    pool_record: &PositionInfo,
) -> (r: Position)
    requires
        position.liquidity + liquidity < p128(),
    ensures
        r.liquidity == position.liquidity + liquidity,
        r.fee_growth_inside0_last_x128 == pool_record.fee_growth_inside0_last_x128,
        r.fee_growth_inside1_last_x128 == pool_record.fee_growth_inside1_last_x128,
        r.tokens_owed0 == position.tokens_owed0.wrapping_add(
            owed_delta(
                pool_record.fee_growth_inside0_last_x128.v(),
                position.fee_growth_inside0_last_x128.v(),
                position.liquidity as nat,
            ) as u128,
        ),
        r.tokens_owed1 == position.tokens_owed1.wrapping_add(
            owed_delta(
                pool_record.fee_growth_inside1_last_x128.v(),
                position.fee_growth_inside1_last_x128.v(),
                position.liquidity as nat,
            ) as u128,
        ),
        r.pool_id == position.pool_id && r.tick_lower == position.tick_lower && r.tick_upper
            == position.tick_upper,
{
    let owed0 = accrued_fees(
        &pool_record.fee_growth_inside0_last_x128,
        &position.fee_growth_inside0_last_x128,
        position.liquidity,
    );
    let owed1 = accrued_fees(
        &pool_record.fee_growth_inside1_last_x128,
        &position.fee_growth_inside1_last_x128,
        position.liquidity,
    );
    Position {
        liquidity: position.liquidity + liquidity,
        fee_growth_inside0_last_x128: pool_record.fee_growth_inside0_last_x128,
        fee_growth_inside1_last_x128: pool_record.fee_growth_inside1_last_x128,
        tokens_owed0: position.tokens_owed0.wrapping_add(owed0),
        tokens_owed1: position.tokens_owed1.wrapping_add(owed1),
        ..*position
    }
}

/// Rejects a liquidity decrease that asks for nothing or for more than
/// the record holds.
pub fn decrease_liquidity_checks(position: &Position, liquidity: u128) -> (r: Result<(), Error>)
    ensures
        r is Ok <==> 0 < liquidity <= position.liquidity,
        !(0 < liquidity <= position.liquidity) ==> r == Result::<(), Error>::Err(
            Error::ErrInvalidLiquidity,
        ),
{
    if liquidity == 0 {
        return Err(Error::ErrInvalidLiquidity);
    }
    if position.liquidity < liquidity {
        return Err(Error::ErrInvalidLiquidity);
    }
    Ok(())
}

/// Books a liquidity decrease: the burned amounts plus accrued fees are
/// added to the owed counters (wrapping) and the liquidity reduced.
pub fn decrease_liquidity_internal(
    position: &Position,
    liquidity: u128,
    amount0: u128,
    amount1: u128,
    pool_record: &PositionInfo,
) -> (r: Position)
    requires
        liquidity <= position.liquidity,
    ensures
        r.liquidity == position.liquidity - liquidity,
        r.fee_growth_inside0_last_x128 == pool_record.fee_growth_inside0_last_x128,
        r.fee_growth_inside1_last_x128 == pool_record.fee_growth_inside1_last_x128,
        r.tokens_owed0 == position.tokens_owed0.wrapping_add(amount0).wrapping_add(
            owed_delta(
                pool_record.fee_growth_inside0_last_x128.v(),
                position.fee_growth_inside0_last_x128.v(),
                position.liquidity as nat,
            ) as u128,
        ),
        r.tokens_owed1 == position.tokens_owed1.wrapping_add(amount1).wrapping_add(
            owed_delta(
                pool_record.fee_growth_inside1_last_x128.v(),
                position.fee_growth_inside1_last_x128.v(),
                position.liquidity as nat,
            ) as u128,
        ),
{
    let owed0 = accrued_fees(
        &pool_record.fee_growth_inside0_last_x128,
        &position.fee_growth_inside0_last_x128,
        position.liquidity,
    );
    let owed1 = accrued_fees(
        &pool_record.fee_growth_inside1_last_x128,
        &position.fee_growth_inside1_last_x128,
        position.liquidity,
    );
    Position {
        liquidity: position.liquidity - liquidity,
        fee_growth_inside0_last_x128: pool_record.fee_growth_inside0_last_x128,
        fee_growth_inside1_last_x128: pool_record.fee_growth_inside1_last_x128,
        tokens_owed0: position.tokens_owed0.wrapping_add(amount0).wrapping_add(owed0),
        tokens_owed1: position.tokens_owed1.wrapping_add(amount1).wrapping_add(owed1),
        ..*position
    }
}

/// Rejects a collect call with both caps at zero.
pub fn collect_checks(amount0_max: u128, amount1_max: u128) -> (r: Result<(), Error>)
    ensures
        r is Ok <==> amount0_max != 0 && amount1_max != 0,
        !(amount0_max != 0 && amount1_max != 0) ==> r == Result::<(), Error>::Err(
            Error::ErrInvalidCollectParams,
        ),
{
    if amount0_max != 0 && amount1_max != 0 {
        Ok(())
    } else {
        Err(Error::ErrInvalidCollectParams)
    }
}

/// Books a collect: tops owed counters up with fees accrued since the
/// snapshot, clamps the payout to the caps, and debits it.
pub fn collect_internal(
    position: &Position,
    amount0_max: u128,
    amount1_max: u128,
    pool_record: &PositionInfo,
) -> (r: (Position, u128, u128))
    ensures
        ({
            let owed0 = if position.liquidity != 0 {
                position.tokens_owed0.wrapping_add(
                    owed_delta(
                        pool_record.fee_growth_inside0_last_x128.v(),
                        position.fee_growth_inside0_last_x128.v(),
                        position.liquidity as nat,
                    ) as u128,
                )
            } else {
                position.tokens_owed0
            };
            let owed1 = if position.liquidity != 0 {
                position.tokens_owed1.wrapping_add(
                    owed_delta(
                        pool_record.fee_growth_inside1_last_x128.v(),
                        position.fee_growth_inside1_last_x128.v(),
                        position.liquidity as nat,
                    ) as u128,
                )
            } else {
                position.tokens_owed1
            };
            let take0 = if amount0_max > owed0 {
                owed0
            } else {
                amount0_max
            };
            let take1 = if amount1_max > owed1 {
                owed1
            } else {
                amount1_max
            };
            &&& r.1 == take0 && r.2 == take1
            &&& r.0.tokens_owed0 == owed0 - take0
            &&& r.0.tokens_owed1 == owed1 - take1
            &&& r.0.liquidity == position.liquidity
        }),
{
    let mut tokens_owed0 = position.tokens_owed0;
    let mut tokens_owed1 = position.tokens_owed1;
    let mut updated = *position;
    if position.liquidity != 0 {
        let owed0 = accrued_fees(
            &pool_record.fee_growth_inside0_last_x128,
            &position.fee_growth_inside0_last_x128,
            position.liquidity,
        );
        let owed1 = accrued_fees(
            &pool_record.fee_growth_inside1_last_x128,
            &position.fee_growth_inside1_last_x128,
            position.liquidity,
        );
        tokens_owed0 = tokens_owed0.wrapping_add(owed0);
        tokens_owed1 = tokens_owed1.wrapping_add(owed1);
        updated.fee_growth_inside0_last_x128 = pool_record.fee_growth_inside0_last_x128;
        updated.fee_growth_inside1_last_x128 = pool_record.fee_growth_inside1_last_x128;
    }
    let amount0_collect = if amount0_max > tokens_owed0 {
        tokens_owed0
    } else {
        amount0_max
    };
    let amount1_collect = if amount1_max > tokens_owed1 {
        tokens_owed1
    } else {
        amount1_max
    };
    updated.tokens_owed0 = tokens_owed0 - amount0_collect;
    updated.tokens_owed1 = tokens_owed1 - amount1_collect;
    (updated, amount0_collect, amount1_collect)
}

/// A wrapped position may only be burned once fully emptied.
pub fn burn_internal(position: &Position) -> (r: Result<(), Error>)
    ensures
        r is Ok <==> position.liquidity == 0 && position.tokens_owed0 == 0
            && position.tokens_owed1 == 0,
        !(position.liquidity == 0 && position.tokens_owed0 == 0 && position.tokens_owed1 == 0)
            ==> r == Result::<(), Error>::Err(Error::ErrPositionNotCleared),
{
    if position.liquidity == 0 && position.tokens_owed0 == 0 && position.tokens_owed1 == 0 {
        Ok(())
    } else {
        Err(Error::ErrPositionNotCleared)
    }
}

/// The exact-input slippage rule: the output must reach the minimum.
pub fn exact_input_internal(amount_out: &U256, amount_out_minimum: &U256) -> (r: Result<(), Error>)
    ensures
        r is Ok <==> amount_out.v() >= amount_out_minimum.v(),
        amount_out.v() < amount_out_minimum.v() ==> r == Result::<(), Error>::Err(
            Error::ErrTooLittleReceived,
        ),
{
    if amount_out.ge_u(amount_out_minimum) {
        Ok(())
    } else {
        Err(Error::ErrTooLittleReceived)
    }
}

/// The exact-output slippage rule: the input may not exceed the maximum.
pub fn exact_output_internal(amount_in: &U256, amount_in_maximum: &U256) -> (r: Result<(), Error>)
    ensures
        r is Ok <==> amount_in.v() <= amount_in_maximum.v(),
        amount_in.v() > amount_in_maximum.v() ==> r == Result::<(), Error>::Err(
            Error::ErrTooMuchRequested,
        ),
{
    if amount_in.le_u(amount_in_maximum) {
        Ok(())
    } else {
        Err(Error::ErrTooMuchRequested)
    }
}

/// The exact-output delivery rule: with no explicit price limit the swap
/// must produce the full requested output.
pub fn exact_output_delivery(requested: &U256, received: &U256, had_limit: bool) -> (r: Result<
    (),
    Error,
>)
    ensures
        r is Ok <==> had_limit || received.v() == requested.v(),
        !had_limit && received.v() != requested.v() ==> r == Result::<(), Error>::Err(
            Error::ErrInvalidAmountOut,
        ),
{
    if had_limit {
        Ok(())
    } else if received.eq_u(requested) {
        Ok(())
    } else {
        Err(Error::ErrInvalidAmountOut)
    }
}

/// Fees accrued per the Q128.128 growth delta.  The quotient is
/// deliberately truncated to its low 128 bits, matching the wrapping
/// accrual of the owed counters it feeds.
fn accrued_fees(growth_now: &U256, growth_last: &U256, liquidity: u128) -> (r: u128)
    ensures
        r == owed_delta(growth_now.v(), growth_last.v(), liquidity as nat) as u128,
        r == owed_delta(growth_now.v(), growth_last.v(), liquidity as nat),
{
    let delta = growth_now.wrapping_sub(growth_last);
    proof {
        crate::u256::lemma_pow2_words();
        lemma_pow2_pos(128);
        crate::u256::lemma_v_bound(delta);
        lemma_owed_delta_fits(delta.v(), liquidity as nat);
    }
    let wide = match crate::fullmath::mul_div(
        &delta,
        &U256::from_u128(liquidity),
        &crate::fullmath::q128(),
    ) {
        Ok(x) => x,
        Err(_) => {
            proof {
                assert(false);
            }
            U256::zero()
        },
    };
    wide.low_u128()
}

/// The fee quotient fits 256 bits.
proof fn lemma_owed_delta_fits(d: nat, l: nat)
    requires
        d < p256(),
        l < p128(),
    ensures
        d * l / pow2(128) < p256(),
{
    crate::u256::lemma_pow2_words();
    lemma_pow2_pos(128);
    let x = (d * l) as int;
    vstd::arithmetic::div_mod::lemma_fundamental_div_mod(x, pow2(128) as int);
    assert(d * l / pow2(128) < p256()) by (nonlinear_arith)
        requires
            d < p256(),
            l < p128(),
            pow2(128) == p128(),
            x == d * l,
            x == (pow2(128) as int) * (x / pow2(128) as int) + x % pow2(128) as int,
            0 <= x % pow2(128) as int,
            p256() == p128() * p128(),
            p128() > 0,
    ;
}

} // verus!
