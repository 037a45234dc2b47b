//! The pool state machine: price initialization, liquidity changes,
//! swaps, flash accounting and protocol fees, over in-memory state.
//!
//! Token transfers, callbacks and balance checks are the embedding's
//! concern: every operation here computes what is owed and returns it.

use vstd::prelude::*;
use vstd::arithmetic::div_mod::*;
use vstd::arithmetic::power2::*;

use crate::error::Error;
use crate::fullmath::{ceil_div, mul_div, mul_div_rounding_up, q128};
use crate::i256::I256;
use crate::liquidity_math::add_delta;
use crate::oracle::{Observation, Observations, transform_safe};
use crate::position::{PositionInfo, Positions};
use crate::tick::{TickInfo, Ticks, wsub};
use crate::tick_bitmap::TickBitmap;
use crate::tickmath::{MAX_TICK, MIN_TICK, sqrt_ratio_spec, tick_at_spec};
use crate::u256::{U256, lemma_pow2_words, lemma_v_bound, p128, p256};

verus! {

/// The hot bundle read by every operation.
#[derive(Clone, Copy, PartialEq, Eq, Structural, Debug)]
pub struct Slot0 {
    pub sqrt_price_x96: U256,
    pub tick: i32,
    pub observation_index: u16,
    pub observation_cardinality: u16,
    pub observation_cardinality_next: u16,
    pub fee_protocol: u8,
}

impl Slot0 {
    pub open spec fn spec_default() -> Slot0 {
        Slot0 {
            sqrt_price_x96: U256::spec_zero(),
            tick: 0,
            observation_index: 0,
            observation_cardinality: 0,
            observation_cardinality_next: 0,
            fee_protocol: 0,
        }
    }
}

/// Accumulated protocol fees awaiting collection.
#[derive(Clone, Copy, PartialEq, Eq, Structural, Debug)]
pub struct ProtocolFees {
    pub token0: u128,
    pub token1: u128,
}


/// The running state of a swap walk.
pub struct SwapState {
    pub amount_specified_remaining: I256,
    pub amount_calculated: I256,
    pub sqrt_price_x96: U256,
    pub tick: i32,
    pub fee_growth_global_x128: U256,
    pub protocol_fee: u128,
    pub liquidity: u128,
}

impl SwapState {
    /// What every swap iteration preserves.
    pub open spec fn loop_wf(
        self,
        prior: Pool,
        amount_specified: I256,
        sqrt_price_limit_x96: U256,
        zero_for_one: bool,
        exact_in: bool,
    ) -> bool {
        &&& 0 < self.sqrt_price_x96.v() <= pow2(160)
        &&& -887273 <= self.tick <= 887272
        &&& self.amount_specified_remaining.wf()
        &&& self.amount_calculated.wf()
        &&& (zero_for_one ==> sqrt_price_limit_x96.v() <= self.sqrt_price_x96.v()
            <= prior.slot0.sqrt_price_x96.v())
        &&& (!zero_for_one ==> prior.slot0.sqrt_price_x96.v() <= self.sqrt_price_x96.v()
            <= sqrt_price_limit_x96.v())
        &&& (exact_in ==> self.amount_calculated.iv() <= 0)
        &&& (!exact_in ==> self.amount_calculated.iv() >= 0)
        &&& (exact_in ==> self.amount_specified_remaining.iv() <= amount_specified.iv())
        &&& (!exact_in ==> self.amount_specified_remaining.iv() >= amount_specified.iv())
    }
}

/// Values a swap reads once and carries through its walk.
pub struct SwapCache {
    pub fee_protocol: u8,
    pub liquidity_start: u128,
    pub block_time: u64,
    pub tick_cumulative: i64,
    pub seconds_per_liquidity_cumulative_x128: U256,
    pub computed_latest_observation: bool,
}

/// A whole pool.
pub struct Pool {
    pub fee: u32,
    pub tick_spacing: i32,
    pub max_liquidity_per_tick: u128,
    pub slot0: Slot0,
    pub slot0_unlocked: bool,
    pub is_locked: bool,
    pub fee_growth_global0_x128: U256,
    pub fee_growth_global1_x128: U256,
    pub protocol_fees: ProtocolFees,
    pub liquidity: u128,
    pub ticks: Ticks,
    pub tick_bitmap: TickBitmap,
    pub positions: Positions,
    pub observations: Observations,
}

/// Ticks must come ordered and inside the global range.
pub fn check_ticks(tick_lower: i32, tick_upper: i32) -> (r: Result<(), Error>)
    ensures
        tick_lower >= tick_upper ==> r == Result::<(), Error>::Err(Error::ErrTLU),
        tick_lower < tick_upper && tick_lower < MIN_TICK ==> r == Result::<(), Error>::Err(
            Error::ErrTLM,
        ),
        tick_lower < tick_upper && tick_lower >= MIN_TICK && tick_upper > MAX_TICK ==> r
            == Result::<(), Error>::Err(Error::ErrTUM),
        r is Ok <==> tick_lower < tick_upper && tick_lower >= MIN_TICK && tick_upper <= MAX_TICK,
{
    if !(tick_lower < tick_upper) {
        return Err(Error::ErrTLU);
    }
    if !(tick_lower >= MIN_TICK) {
        return Err(Error::ErrTLM);
    }
    if !(tick_upper <= MAX_TICK) {
        return Err(Error::ErrTUM);
    }
    Ok(())
}

impl Pool {
    /// A freshly created pool: immutables set, price not yet initialized.
    pub fn init_pool(fee: u32, tick_spacing: i32) -> (r: Pool)
        requires
            1 <= tick_spacing <= 0x8000,
        ensures
            r.fee == fee,
            r.tick_spacing == tick_spacing,
            r.max_liquidity_per_tick == (p128() - 1) as nat / (2 * (887272nat / (
            tick_spacing as nat)) + 1),
            r.slot0 == Slot0::spec_default(),
            !r.slot0_unlocked,
            !r.is_locked,
            r.fee_growth_global0_x128.v() == 0,
            r.fee_growth_global1_x128.v() == 0,
            r.protocol_fees == (ProtocolFees { token0: 0, token1: 0 }),
            r.liquidity == 0,
            forall|t: int| r.ticks.at(t) == TickInfo::spec_empty(),
            forall|w: int| r.tick_bitmap.word(w) == 0,
            forall|k: (u64, i32, i32)| r.positions.at(k) == PositionInfo::spec_empty(),
            forall|i: int| r.observations.at(i) == Observation::spec_empty(),
            r.ticks_consistent(),
            r.ticks_domain_clean(),
    {
        let pool = Pool {
            fee,
            tick_spacing,
            max_liquidity_per_tick: crate::tick::tick_spacing_to_max_liquidity_per_tick(
                tick_spacing,
            ),
            slot0: Slot0 {
                sqrt_price_x96: U256 { lo: 0, hi: 0 },
                tick: 0,
                observation_index: 0,
                observation_cardinality: 0,
                observation_cardinality_next: 0,
                fee_protocol: 0,
            },
            slot0_unlocked: false,
            is_locked: false,
            fee_growth_global0_x128: U256 { lo: 0, hi: 0 },
            fee_growth_global1_x128: U256 { lo: 0, hi: 0 },
            protocol_fees: ProtocolFees { token0: 0, token1: 0 },
            liquidity: 0,
            ticks: Ticks::new(),
            tick_bitmap: TickBitmap::new(),
            positions: Positions::new(),
            observations: Observations::new(),
        };
        proof {
            assert forall|t: int| #[trigger] pool.tick_in_domain(t) implies ((pool.ticks.at(
                t,
            ).liquidity_gross > 0) == pool.tick_bit_of(t) && (pool.ticks.at(t).liquidity_gross > 0)
                == pool.ticks.at(t).initialized) by {
                let b = ((t / (tick_spacing as int)) % 256) as nat;
                lemma_pow2_pos(b);
                assert(0int / pow2(b) as int == 0) by {
                    lemma_div_of0(pow2(b) as int);
                }
                assert(!crate::tick_bitmap::bit_set(0, b)) by {
                    lemma_small_mod(0, 2);
                }
            }
        }
        pool
    }

    /// Rejects reads and writes before the price is initialized.
    pub fn check_slot0_unlocked(&self) -> (r: Result<(), Error>)
        ensures
            r is Ok <==> self.slot0_unlocked,
            !self.slot0_unlocked ==> r == Result::<(), Error>::Err(Error::ErrLOK),
    {
        if self.slot0_unlocked {
            Ok(())
        } else {
            Err(Error::ErrLOK)
        }
    }

    /// Rejects reentering operations while one is in flight.
    pub fn when_not_locked(&self) -> (r: Result<(), Error>)
        ensures
            r is Ok <==> !self.is_locked,
            self.is_locked ==> r == Result::<(), Error>::Err(Error::ContractLocked),
    {
        if self.is_locked {
            Err(Error::ContractLocked)
        } else {
            Ok(())
        }
    }

    pub fn lock_contract(&mut self)
        ensures
            *final(self) == (Pool { is_locked: true, ..*old(self) }),
    {
        self.is_locked = true;
    }

    pub fn unlock_contract(&mut self)
        ensures
            *final(self) == (Pool { is_locked: false, ..*old(self) }),
    {
        self.is_locked = false;
    }

    /// Sets the starting price, once.  A second call fails with `ErrAI`
    /// and leaves the pool untouched; a price outside the valid range
    /// fails with `ErrR`.
    pub fn init_pool_price(&mut self, sqrt_price_x96: U256, time: u64) -> (r: Result<(), Error>)
        ensures
            old(self).slot0.sqrt_price_x96.v() != 0 ==> r == Result::<(), Error>::Err(Error::ErrAI)
                && *final(self) == *old(self),
            old(self).slot0.sqrt_price_x96.v() == 0 && !(4295128739 <= sqrt_price_x96.v()
                < 4294805859 * p128() + 318775800626314356294205765087544249638) ==> r == Result::<
                (),
                Error,
            >::Err(Error::ErrR) && *final(self) == *old(self),
            old(self).slot0.sqrt_price_x96.v() == 0 && 4295128739 <= sqrt_price_x96.v()
                < 4294805859 * p128() + 318775800626314356294205765087544249638 ==> {
                &&& r is Ok
                &&& final(self).slot0 == (Slot0 {
                    sqrt_price_x96,
                    tick: tick_at_spec(sqrt_price_x96.v()) as i32,
                    observation_index: 0,
                    observation_cardinality: 1,
                    observation_cardinality_next: 1,
                    fee_protocol: 0,
                })
                &&& final(self).slot0_unlocked
                &&& final(self).observations.at(0) == (Observation {
                    block_timestamp: time,
                    tick_cumulative: 0,
                    seconds_per_liquidity_cumulative_x128: U256::spec_zero(),
                    initialized: true,
                })
                &&& final(self).liquidity == old(self).liquidity
                &&& final(self).ticks == old(self).ticks
                &&& final(self).positions == old(self).positions
            },
    {
        if !self.slot0.sqrt_price_x96.is_zero() {
            return Err(Error::ErrAI);
        }
        let tick = match crate::tickmath::get_tick_at_sqrt_ratio(sqrt_price_x96) {
            Ok(t) => t,
            Err(e) => {
                return Err(e);
            },
        };
        let (cardinality, cardinality_next) = crate::oracle::initialize(
            &mut self.observations,
            time,
        );
        self.slot0 = Slot0 {
            sqrt_price_x96,
            tick,
            observation_index: 0,
            observation_cardinality: cardinality,
            observation_cardinality_next: cardinality_next,
            fee_protocol: 0,
        };
        self.slot0_unlocked = true;
        Ok(())
    }

    /// Packs the two protocol-fee nibbles; each must be zero or between
    /// four and ten.
    pub fn set_fee_protocol(&mut self, fee_protocol0: u8, fee_protocol1: u8) -> (r: Result<
        u8,
        Error,
    >)
        ensures
            !old(self).slot0_unlocked ==> r == Result::<u8, Error>::Err(Error::ErrLOK) && *final(self) == *old(self),
            old(self).slot0_unlocked && old(self).is_locked ==> r == Result::<u8, Error>::Err(
                Error::ContractLocked,
            ) && *final(self) == *old(self),
            old(self).slot0_unlocked && !old(self).is_locked && !((fee_protocol0 == 0 || 4
                <= fee_protocol0 <= 10) && (fee_protocol1 == 0 || 4 <= fee_protocol1 <= 10)) ==> r
                == Result::<u8, Error>::Err(Error::ErrFeeProtocol) && *final(self) == *old(self),
            old(self).slot0_unlocked && !old(self).is_locked && (fee_protocol0 == 0 || 4
                <= fee_protocol0 <= 10) && (fee_protocol1 == 0 || 4 <= fee_protocol1 <= 10) ==> {
                &&& r == Result::<u8, Error>::Ok(old(self).slot0.fee_protocol)
                &&& final(self).slot0.fee_protocol == fee_protocol0 + fee_protocol1 * 16
                &&& final(self).slot0.fee_protocol as int % 16 == fee_protocol0
                &&& final(self).slot0.fee_protocol as int / 16 == fee_protocol1
                &&& ({
                    let prior = *old(self);
                    *final(self) == (Pool {
                        slot0: Slot0 {
                            fee_protocol: (fee_protocol0 + fee_protocol1 * 16) as u8,
                            ..prior.slot0
                        },
                        ..prior
                    })
                })
            },
    {
        if let Err(e) = self.check_slot0_unlocked() {
            return Err(e);
        }
        if let Err(e) = self.when_not_locked() {
            return Err(e);
        }
        let ok0 = fee_protocol0 == 0 || (4 <= fee_protocol0 && fee_protocol0 <= 10);
        let ok1 = fee_protocol1 == 0 || (4 <= fee_protocol1 && fee_protocol1 <= 10);
        if !(ok0 && ok1) {
            return Err(Error::ErrFeeProtocol);
        }
        let old_protocol = self.slot0.fee_protocol;
        self.slot0.fee_protocol = fee_protocol0 + fee_protocol1 * 16;
        proof {
            let packed = fee_protocol0 + fee_protocol1 * 16;
            lemma_fundamental_div_mod_converse(packed, 16, fee_protocol1 as int, fee_protocol0 as int);
        }
        Ok(old_protocol)
    }

    /// Clamps each request to the accrued protocol fees, keeping one unit
    /// behind when a side is drained completely, and debits the rest.
    /// Returns what the host must pay out.
    pub fn collect_protocol(&mut self, amount0_requested: u128, amount1_requested: u128) -> (r:
        Result<(u128, u128), Error>)
        ensures
            !old(self).slot0_unlocked ==> r == Result::<(u128, u128), Error>::Err(Error::ErrLOK)
                && *final(self) == *old(self),
            old(self).slot0_unlocked && old(self).is_locked ==> r == Result::<
                (u128, u128),
                Error,
            >::Err(Error::ContractLocked) && *final(self) == *old(self),
            old(self).slot0_unlocked && !old(self).is_locked ==> {
                let fees = old(self).protocol_fees;
                let take0 = if amount0_requested > fees.token0 {
                    fees.token0
                } else {
                    amount0_requested
                };
                let take1 = if amount1_requested > fees.token1 {
                    fees.token1
                } else {
                    amount1_requested
                };
                let out0: u128 = if take0 > 0 && take0 == fees.token0 {
                    (take0 - 1) as u128
                } else {
                    take0
                };
                let out1: u128 = if take1 > 0 && take1 == fees.token1 {
                    (take1 - 1) as u128
                } else {
                    take1
                };
                &&& r == Result::<(u128, u128), Error>::Ok((out0, out1))
                &&& final(self).protocol_fees.token0 == fees.token0 - out0
                &&& final(self).protocol_fees.token1 == fees.token1 - out1
                &&& final(self).slot0 == old(self).slot0
                &&& final(self).liquidity == old(self).liquidity
            },
    {
        if let Err(e) = self.check_slot0_unlocked() {
            return Err(e);
        }
        if let Err(e) = self.when_not_locked() {
            return Err(e);
        }
        let fees = self.protocol_fees;
        let mut amount0 = if amount0_requested > fees.token0 {
            fees.token0
        } else {
            amount0_requested
        };
        let mut amount1 = if amount1_requested > fees.token1 {
            fees.token1
        } else {
            amount1_requested
        };
        if amount0 > 0 {
            if amount0 == fees.token0 {
                amount0 = amount0 - 1;
            }
            self.protocol_fees.token0 = fees.token0 - amount0;
        }
        if amount1 > 0 {
            if amount1 == fees.token1 {
                amount1 = amount1 - 1;
            }
            self.protocol_fees.token1 = fees.token1 - amount1;
        }
        Ok((amount0, amount1))
    }

    /// Stages a larger observation ring.  Re-staging a size no larger
    /// than the current stage leaves the pool exactly as it was and
    /// reports that nothing changed.
    pub fn increase_observation_cardinality_next(&mut self, next: u16) -> (r: Result<
        (u16, u16),
        Error,
    >)
        ensures
            !old(self).slot0_unlocked ==> r == Result::<(u16, u16), Error>::Err(Error::ErrLOK)
                && *final(self) == *old(self),
            old(self).slot0_unlocked && old(self).is_locked ==> r == Result::<
                (u16, u16),
                Error,
            >::Err(Error::ContractLocked) && *final(self) == *old(self),
            old(self).slot0_unlocked && !old(self).is_locked && old(
                self,
            ).slot0.observation_cardinality_next == 0 ==> r == Result::<(u16, u16), Error>::Err(
                Error::ErrI,
            ),
            old(self).slot0_unlocked && !old(self).is_locked && old(
                self,
            ).slot0.observation_cardinality_next > 0 ==> {
                let before = old(self).slot0.observation_cardinality_next;
                &&& (next <= before ==> r == Result::<(u16, u16), Error>::Ok((before, before))
                    && *final(self) == *old(self))
                &&& (next > before ==> r == Result::<(u16, u16), Error>::Ok((before, next))
                    && final(self).slot0.observation_cardinality_next == next)
            },
    {
        if let Err(e) = self.check_slot0_unlocked() {
            return Err(e);
        }
        if let Err(e) = self.when_not_locked() {
            return Err(e);
        }
        self.lock_contract();
        let before = self.slot0.observation_cardinality_next;
        let after = match crate::oracle::grow(&mut self.observations, before, next) {
            Ok(x) => x,
            Err(e) => {
                self.unlock_contract();
                return Err(e);
            },
        };
        self.slot0.observation_cardinality_next = after;
        self.unlock_contract();
        Ok((before, after))
    }
}

impl Pool {
    /// The bitmap bit standing for an aligned tick.
    pub open spec fn tick_bit_of(self, t: int) -> bool {
        crate::tick_bitmap::bit_set(
            self.tick_bitmap.word((t / (self.tick_spacing as int)) / 256),
            ((t / (self.tick_spacing as int)) % 256) as nat,
        )
    }

    /// Ticks that may carry liquidity: aligned to the spacing and inside
    /// the global range.
    pub open spec fn tick_in_domain(self, t: int) -> bool {
        t % (self.tick_spacing as int) == 0 && -887272 <= t <= 887272
    }

    /// The three views of a live tick agree everywhere in the domain: a
    /// tick carries liquidity exactly when its bitmap bit is set and
    /// exactly when its record reads initialized.
    pub open spec fn ticks_consistent(self) -> bool {
        forall|t: int|
            #[trigger] self.tick_in_domain(t) ==> ((self.ticks.at(t).liquidity_gross > 0)
                == self.tick_bit_of(t) && (self.ticks.at(t).liquidity_gross > 0)
                == self.ticks.at(t).initialized)
    }

    /// Every tick outside the domain carries an empty record.
    pub open spec fn ticks_domain_clean(self) -> bool {
        forall|t: int|
            !(#[trigger] self.tick_in_domain(t)) ==> self.ticks.at(t) == TickInfo::spec_empty()
    }

    /// Conditions under which the per-tick and per-position bookkeeping of
    /// a liquidity change must go through: both boundary ticks aligned to
    /// the spacing and left with liquidity within the per-tick cap, and
    /// the position neither overflowing nor poked while empty.
    pub open spec fn update_succeeds(
        self,
        owner: u64,
        tick_lower: i32,
        tick_upper: i32,
        liquidity_delta: i128,
    ) -> bool {
        let key = (owner, tick_lower, tick_upper);
        &&& tick_lower < tick_upper
        &&& tick_lower as int % (self.tick_spacing as int) == 0
        &&& tick_upper as int % (self.tick_spacing as int) == 0
        &&& 0 <= self.ticks.at(tick_lower as int).liquidity_gross + liquidity_delta
            <= self.max_liquidity_per_tick
        &&& 0 <= self.ticks.at(tick_upper as int).liquidity_gross + liquidity_delta
            <= self.max_liquidity_per_tick
        &&& (liquidity_delta == 0 ==> self.positions.at(key).liquidity > 0)
        &&& 0 <= self.positions.at(key).liquidity + liquidity_delta < p128()
    }

    /// Conditions under which a whole liquidity change must succeed:
    /// ordered in-range ticks, the bookkeeping conditions above, boundary
    /// prices inside the valid square-root range, and room in the active
    /// liquidity when the range straddles the current price.
    pub open spec fn modify_succeeds(
        self,
        owner: u64,
        tick_lower: i32,
        tick_upper: i32,
        liquidity_delta: i128,
    ) -> bool {
        let lo = sqrt_ratio_spec(tick_lower as int);
        let up = sqrt_ratio_spec(tick_upper as int);
        &&& tick_lower < tick_upper && MIN_TICK <= tick_lower && tick_upper <= MAX_TICK
        &&& self.update_succeeds(owner, tick_lower, tick_upper, liquidity_delta)
        &&& 0 < lo <= pow2(160)
        &&& 0 < up <= pow2(160)
        &&& (tick_lower <= self.slot0.tick < tick_upper ==> 0 < self.slot0.sqrt_price_x96.v()
            <= pow2(160) && 0 <= self.liquidity + liquidity_delta < p128())
    }

    /// Arithmetic and state conditions under which a liquidity change is
    /// defined: the oracle sample can be extended to `time` and the two
    /// ticks' net-liquidity counters stay in range.
    pub open spec fn modify_safe(
        self,
        tick_lower: i32,
        tick_upper: i32,
        liquidity_delta: i128,
        time: u64,
    ) -> bool {
        &&& 1 <= self.tick_spacing <= 0x8000
        &&& self.slot0.observation_cardinality >= 1
        &&& self.slot0.observation_index < self.slot0.observation_cardinality
        &&& (self.observations.at(self.slot0.observation_index as int).block_timestamp != time
            ==> transform_safe(
            self.observations.at(self.slot0.observation_index as int),
            time,
            self.slot0.tick,
            self.liquidity,
        ))
        &&& i128::MIN <= self.ticks.at(tick_lower as int).liquidity_net.iv() + liquidity_delta
            <= i128::MAX
        &&& i128::MIN <= self.ticks.at(tick_upper as int).liquidity_net.iv() - liquidity_delta
            <= i128::MAX
    }

    /// Applies a liquidity change to the two boundary ticks, flips their
    /// bitmap bits when they switch between empty and initialized,
    /// credits accrued fees to the position, and clears ticks emptied by
    /// a burn.  Returns the updated position record.
    pub fn update_position(
        &mut self,
        owner: u64,
        tick_lower: i32,
        tick_upper: i32,
        liquidity_delta: i128,
        tick: i32,
        time: u64,
    ) -> (r: Result<PositionInfo, Error>)
        requires
            MIN_TICK <= tick_lower <= MAX_TICK,
            MIN_TICK <= tick_upper <= MAX_TICK,
            old(self).modify_safe(tick_lower, tick_upper, liquidity_delta, time),
        ensures
            r is Ok ==> r->Ok_0 == final(self).positions.at((owner, tick_lower, tick_upper)),
            r is Ok && liquidity_delta != 0 ==> r->Ok_0.liquidity == old(self).positions.at(
                (owner, tick_lower, tick_upper),
            ).liquidity + liquidity_delta,
            r is Ok && liquidity_delta == 0 ==> r->Ok_0.liquidity == old(self).positions.at(
                (owner, tick_lower, tick_upper),
            ).liquidity,
            r is Ok ==> final(self).liquidity == old(self).liquidity && final(self).slot0 == old(
                self,
            ).slot0,
            r is Ok ==> ({
                let done = *final(self);
                let prior = *old(self);
                &&& done.observations == prior.observations
                &&& done.fee == prior.fee
                &&& done.tick_spacing == prior.tick_spacing
                &&& done.fee_growth_global0_x128 == prior.fee_growth_global0_x128
                &&& done.fee_growth_global1_x128 == prior.fee_growth_global1_x128
                &&& done.protocol_fees == prior.protocol_fees
                &&& done.slot0_unlocked == prior.slot0_unlocked
                &&& done.is_locked == prior.is_locked
            }),
            old(self).update_succeeds(owner, tick_lower, tick_upper, liquidity_delta) ==> r is Ok,
            // the three views of tick liveness stay in agreement
            r is Ok && tick_lower < tick_upper && 1 <= old(self).tick_spacing <= 0x8000 && old(
                self,
            ).ticks_consistent() && old(self).ticks_domain_clean() ==> final(self).ticks_consistent()
                && final(self).ticks_domain_clean(),
            // a burn or a poke never seeds a tick, so the fees it credits
            // are computed against the unchanged tick records
            r is Ok && liquidity_delta <= 0 ==> ({
                let prior = *old(self);
                let before = prior.positions.at((owner, tick_lower, tick_upper));
                let inside0 = crate::tick::fee_growth_inside0_spec(
                    prior.ticks,
                    tick_lower as int,
                    tick_upper as int,
                    tick as int,
                    prior.fee_growth_global0_x128.v(),
                );
                let inside1 = crate::tick::fee_growth_inside1_spec(
                    prior.ticks,
                    tick_lower as int,
                    tick_upper as int,
                    tick as int,
                    prior.fee_growth_global1_x128.v(),
                );
                let owed0 = crate::position::owed_delta(
                    inside0,
                    before.fee_growth_inside0_last_x128.v(),
                    before.liquidity as nat,
                );
                let owed1 = crate::position::owed_delta(
                    inside1,
                    before.fee_growth_inside1_last_x128.v(),
                    before.liquidity as nat,
                );
                &&& r->Ok_0.tokens_owed0 == (if owed0 > 0 || owed1 > 0 {
                    before.tokens_owed0.wrapping_add(owed0 as u128)
                } else {
                    before.tokens_owed0
                })
                &&& r->Ok_0.tokens_owed1 == (if owed0 > 0 || owed1 > 0 {
                    before.tokens_owed1.wrapping_add(owed1 as u128)
                } else {
                    before.tokens_owed1
                })
            }),
    {
        let key = (owner, tick_lower, tick_upper);
        let mut position = self.positions.get(key);
        let fee_growth_global0 = self.fee_growth_global0_x128;
        let fee_growth_global1 = self.fee_growth_global1_x128;
        let mut flipped_lower = false;
        let mut flipped_upper = false;
        let ghost mut bitmap_mid = self.tick_bitmap;
        if liquidity_delta != 0 {
            let (tick_cumulative, seconds_per_liquidity) = match crate::oracle::observe_single(
                &self.observations,
                time,
                0,
                self.slot0.tick,
                self.slot0.observation_index,
                self.liquidity,
                self.slot0.observation_cardinality,
            ) {
                Ok(pair) => pair,
                Err(e) => {
                    return Err(e);
                },
            };
            flipped_lower = match crate::tick::update(
                &mut self.ticks,
                tick_lower,
                tick,
                liquidity_delta,
                &fee_growth_global0,
                &fee_growth_global1,
                &seconds_per_liquidity,
                tick_cumulative,
                time,
                false,
                self.max_liquidity_per_tick,
            ) {
                Ok(f) => f,
                Err(e) => {
                    return Err(e);
                },
            };
            flipped_upper = match crate::tick::update(
                &mut self.ticks,
                tick_upper,
                tick,
                liquidity_delta,
                &fee_growth_global0,
                &fee_growth_global1,
                &seconds_per_liquidity,
                tick_cumulative,
                time,
                true,
                self.max_liquidity_per_tick,
            ) {
                Ok(f) => f,
                Err(e) => {
                    return Err(e);
                },
            };
            if flipped_lower {
                if let Err(e) = crate::tick_bitmap::flip_tick(
                    &mut self.tick_bitmap,
                    tick_lower,
                    self.tick_spacing,
                ) {
                    return Err(e);
                }
            }
            proof {
                bitmap_mid = self.tick_bitmap;
            }
            if flipped_upper {
                if let Err(e) = crate::tick_bitmap::flip_tick(
                    &mut self.tick_bitmap,
                    tick_upper,
                    self.tick_spacing,
                ) {
                    return Err(e);
                }
            }
        }
        let (fee_growth_inside0, fee_growth_inside1) = crate::tick::get_fee_growth_inside(
            &self.ticks,
            tick_lower,
            tick_upper,
            tick,
            &fee_growth_global0,
            &fee_growth_global1,
        );
        if let Err(e) = crate::position::update(
            &mut position,
            liquidity_delta,
            &fee_growth_inside0,
            &fee_growth_inside1,
        ) {
            return Err(e);
        }
        self.positions.set(key, position);
        if liquidity_delta < 0 {
            if flipped_lower {
                crate::tick::clear(&mut self.ticks, tick_lower);
            }
            if flipped_upper {
                crate::tick::clear(&mut self.ticks, tick_upper);
            }
        }
        proof {
            let prior = *old(self);
            if prior.ticks_consistent() && prior.ticks_domain_clean() && tick_lower < tick_upper
                && 1 <= prior.tick_spacing
                <= 0x8000 {
                if liquidity_delta == 0 {
                    lemma_consistency_frame(prior, *self);
                } else {
                    lemma_preserved_consistency(
                        prior,
                        *self,
                        tick_lower,
                        tick_upper,
                        liquidity_delta,
                        flipped_lower,
                        flipped_upper,
                        bitmap_mid,
                    );
                }
            }
        }
        Ok(position)
    }

    /// A liquidity change over a range: updates the position, then
    /// derives the signed token amounts the change moves, updating the
    /// active liquidity and writing an oracle sample when the range
    /// straddles the current price.
    pub fn modify_position(
        &mut self,
        owner: u64,
        tick_lower: i32,
        tick_upper: i32,
        liquidity_delta: i128,
        time: u64,
    ) -> (r: Result<(PositionInfo, I256, I256), Error>)
        requires
            old(self).modify_safe(tick_lower, tick_upper, liquidity_delta, time),
        ensures
            !(tick_lower < tick_upper && tick_lower >= MIN_TICK && tick_upper <= MAX_TICK) ==> r
                is Err && *final(self) == *old(self),
            r is Ok ==> ({
                let done = *final(self);
                let prior = *old(self);
                &&& done.positions.at((owner, tick_lower, tick_upper)) == r->Ok_0.0
                &&& (liquidity_delta != 0 ==> r->Ok_0.0.liquidity == prior.positions.at(
                    (owner, tick_lower, tick_upper),
                ).liquidity + liquidity_delta)
                &&& (liquidity_delta == 0 ==> r->Ok_0.0.liquidity == prior.positions.at(
                    (owner, tick_lower, tick_upper),
                ).liquidity)
                &&& done.is_locked == prior.is_locked
                &&& done.slot0_unlocked == prior.slot0_unlocked
                &&& done.fee == prior.fee
                &&& done.tick_spacing == prior.tick_spacing
                &&& done.protocol_fees == prior.protocol_fees
                &&& done.fee_growth_global0_x128 == prior.fee_growth_global0_x128
                &&& done.fee_growth_global1_x128 == prior.fee_growth_global1_x128
            }),
            r is Ok ==> ({
                let lo = sqrt_ratio_spec(tick_lower as int);
                let up = sqrt_ratio_spec(tick_upper as int);
                let cur = old(self).slot0.sqrt_price_x96.v();
                let mag = (if liquidity_delta < 0 {
                    -liquidity_delta
                } else {
                    liquidity_delta as int
                }) as nat;
                let round_up = liquidity_delta >= 0;
                &&& r->Ok_0.1.wf() && r->Ok_0.2.wf()
                &&& (liquidity_delta == 0 ==> r->Ok_0.1.iv() == 0 && r->Ok_0.2.iv() == 0)
                &&& (liquidity_delta != 0 && old(self).slot0.tick < tick_lower ==> {
                    let a0 = amount0_sorted(lo, up, mag, round_up);
                    r->Ok_0.1.iv() == (if liquidity_delta < 0 {
                        -(a0 as int)
                    } else {
                        a0 as int
                    }) && r->Ok_0.2.iv() == 0 && final(self).liquidity == old(self).liquidity
                })
                &&& (liquidity_delta != 0 && tick_lower <= old(self).slot0.tick < tick_upper
                    ==> {
                    let a0 = amount0_sorted(cur, up, mag, round_up);
                    let a1 = amount1_sorted(lo, cur, mag, round_up);
                    r->Ok_0.1.iv() == (if liquidity_delta < 0 {
                        -(a0 as int)
                    } else {
                        a0 as int
                    }) && r->Ok_0.2.iv() == (if liquidity_delta < 0 {
                        -(a1 as int)
                    } else {
                        a1 as int
                    }) && final(self).liquidity == old(self).liquidity + liquidity_delta
                })
                &&& (liquidity_delta != 0 && old(self).slot0.tick >= tick_upper ==> {
                    let a1 = amount1_sorted(lo, up, mag, round_up);
                    r->Ok_0.1.iv() == 0 && r->Ok_0.2.iv() == (if liquidity_delta < 0 {
                        -(a1 as int)
                    } else {
                        a1 as int
                    }) && final(self).liquidity == old(self).liquidity
                })
            }),
            old(self).modify_succeeds(owner, tick_lower, tick_upper, liquidity_delta) ==> r is Ok,
            r is Ok && liquidity_delta <= 0 ==> ({
                let prior = *old(self);
                let before = prior.positions.at((owner, tick_lower, tick_upper));
                let inside0 = crate::tick::fee_growth_inside0_spec(
                    prior.ticks,
                    tick_lower as int,
                    tick_upper as int,
                    prior.slot0.tick as int,
                    prior.fee_growth_global0_x128.v(),
                );
                let inside1 = crate::tick::fee_growth_inside1_spec(
                    prior.ticks,
                    tick_lower as int,
                    tick_upper as int,
                    prior.slot0.tick as int,
                    prior.fee_growth_global1_x128.v(),
                );
                let owed0 = crate::position::owed_delta(
                    inside0,
                    before.fee_growth_inside0_last_x128.v(),
                    before.liquidity as nat,
                );
                let owed1 = crate::position::owed_delta(
                    inside1,
                    before.fee_growth_inside1_last_x128.v(),
                    before.liquidity as nat,
                );
                &&& r->Ok_0.0.tokens_owed0 == (if owed0 > 0 || owed1 > 0 {
                    before.tokens_owed0.wrapping_add(owed0 as u128)
                } else {
                    before.tokens_owed0
                })
                &&& r->Ok_0.0.tokens_owed1 == (if owed0 > 0 || owed1 > 0 {
                    before.tokens_owed1.wrapping_add(owed1 as u128)
                } else {
                    before.tokens_owed1
                })
            }),
            // the three views of tick liveness stay in agreement
            r is Ok && tick_lower < tick_upper && 1 <= old(self).tick_spacing <= 0x8000 && old(
                self,
            ).ticks_consistent() && old(self).ticks_domain_clean() ==> final(self).ticks_consistent()
                && final(self).ticks_domain_clean(),
    {
        proof {
            if old(self).modify_succeeds(owner, tick_lower, tick_upper, liquidity_delta) {
                let lo = sqrt_ratio_spec(tick_lower as int);
                let up = sqrt_ratio_spec(tick_upper as int);
                let cur = old(self).slot0.sqrt_price_x96.v();
                let mag = (if liquidity_delta < 0 {
                    -liquidity_delta
                } else {
                    liquidity_delta as int
                }) as nat;
                assert(mag < p128()) by {
                    lemma_pow2_words();
                }
                if lo <= up {
                    crate::swap_math::lemma_delta_bounds(lo, up, mag);
                } else {
                    crate::swap_math::lemma_delta_bounds(up, lo, mag);
                }
                if tick_lower <= old(self).slot0.tick < tick_upper {
                    if cur <= up {
                        crate::swap_math::lemma_delta_bounds(cur, up, mag);
                    } else {
                        crate::swap_math::lemma_delta_bounds(up, cur, mag);
                    }
                    if lo <= cur {
                        crate::swap_math::lemma_delta_bounds(lo, cur, mag);
                    } else {
                        crate::swap_math::lemma_delta_bounds(cur, lo, mag);
                    }
                }
            }
        }
        if let Err(e) = check_ticks(tick_lower, tick_upper) {
            return Err(e);
        }
        let slot0 = self.slot0;
        let position = match self.update_position(
            owner,
            tick_lower,
            tick_upper,
            liquidity_delta,
            slot0.tick,
            time,
        ) {
            Ok(p) => p,
            Err(e) => {
                return Err(e);
            },
        };
        let ghost mid = *self;
        let mut amount0 = I256::zero();
        let mut amount1 = I256::zero();
        if liquidity_delta != 0 {
            let sqrt_lower = match crate::tickmath::get_sqrt_ratio_at_tick(tick_lower) {
                Ok(x) => x,
                Err(e) => {
                    return Err(e);
                },
            };
            let sqrt_upper = match crate::tickmath::get_sqrt_ratio_at_tick(tick_upper) {
                Ok(x) => x,
                Err(e) => {
                    return Err(e);
                },
            };
            if slot0.tick < tick_lower {
                amount0 = match crate::sqrt_price_math::get_amount0_delta_2(
                    &sqrt_lower,
                    &sqrt_upper,
                    liquidity_delta,
                ) {
                    Ok(x) => x,
                    Err(e) => {
                        return Err(e);
                    },
                };
            } else if slot0.tick < tick_upper {
                let liquidity_before = self.liquidity;
                let (observation_index, observation_cardinality) = crate::oracle::write(
                    &mut self.observations,
                    slot0.observation_index,
                    time,
                    slot0.tick,
                    liquidity_before,
                    slot0.observation_cardinality,
                    slot0.observation_cardinality_next,
                );
                self.slot0.observation_index = observation_index;
                self.slot0.observation_cardinality = observation_cardinality;
                amount0 = match crate::sqrt_price_math::get_amount0_delta_2(
                    &slot0.sqrt_price_x96,
                    &sqrt_upper,
                    liquidity_delta,
                ) {
                    Ok(x) => x,
                    Err(e) => {
                        return Err(e);
                    },
                };
                amount1 = match crate::sqrt_price_math::get_amount1_delta_2(
                    &sqrt_lower,
                    &slot0.sqrt_price_x96,
                    liquidity_delta,
                ) {
                    Ok(x) => x,
                    Err(e) => {
                        return Err(e);
                    },
                };
                self.liquidity = match add_delta(liquidity_before, liquidity_delta) {
                    Ok(x) => x,
                    Err(e) => {
                        return Err(e);
                    },
                };
            } else {
                amount1 = match crate::sqrt_price_math::get_amount1_delta_2(
                    &sqrt_lower,
                    &sqrt_upper,
                    liquidity_delta,
                ) {
                    Ok(x) => x,
                    Err(e) => {
                        return Err(e);
                    },
                };
            }
        }
        proof {
            if old(self).ticks_consistent() && old(self).ticks_domain_clean() && tick_lower
                < tick_upper && 1 <= old(self).tick_spacing <= 0x8000 {
                lemma_consistency_frame(mid, *self);
            }
        }
        Ok((position, amount0, amount1))
    }
}

impl Pool {
    /// Adds liquidity to a range.  Returns the token amounts the caller
    /// owes the pool; the embedding collects them through its callback
    /// and verifies the balances afterwards.
    pub fn mint(
        &mut self,
        recipient: u64,
        tick_lower: i32,
        tick_upper: i32,
        amount: u128,
        time: u64,
    ) -> (r: Result<(U256, U256), Error>)
        requires
            amount <= 0x7fff_ffff_ffff_ffff_ffff_ffff_ffff_ffff,
            old(self).modify_safe(tick_lower, tick_upper, amount as i128, time),
        ensures
            !old(self).slot0_unlocked ==> r == Result::<(U256, U256), Error>::Err(Error::ErrLOK),
            old(self).slot0_unlocked && old(self).is_locked ==> r == Result::<
                (U256, U256),
                Error,
            >::Err(Error::ContractLocked),
            old(self).slot0_unlocked && !old(self).is_locked && amount == 0 ==> r == Result::<
                (U256, U256),
                Error,
            >::Err(Error::ErrMintAmount),
            r is Ok ==> ({
                let lo = sqrt_ratio_spec(tick_lower as int);
                let up = sqrt_ratio_spec(tick_upper as int);
                let cur = old(self).slot0.sqrt_price_x96.v();
                &&& amount > 0
                &&& (old(self).slot0.tick < tick_lower ==> r->Ok_0.0.v() == amount0_sorted(
                    lo,
                    up,
                    amount as nat,
                    true,
                ) && r->Ok_0.1.v() == 0 && final(self).liquidity == old(self).liquidity)
                &&& (tick_lower <= old(self).slot0.tick < tick_upper ==> r->Ok_0.0.v()
                    == amount0_sorted(cur, up, amount as nat, true) && r->Ok_0.1.v()
                    == amount1_sorted(lo, cur, amount as nat, true) && final(self).liquidity
                    == old(self).liquidity + amount)
                &&& (old(self).slot0.tick >= tick_upper ==> r->Ok_0.0.v() == 0 && r->Ok_0.1.v()
                    == amount1_sorted(lo, up, amount as nat, true) && final(self).liquidity
                    == old(self).liquidity)
                &&& final(self).positions.at((recipient, tick_lower, tick_upper)).liquidity
                    == old(self).positions.at((recipient, tick_lower, tick_upper)).liquidity
                    + amount
                &&& !final(self).is_locked
            }),
            old(self).slot0_unlocked && !old(self).is_locked && amount > 0 && old(
                self,
            ).modify_succeeds(recipient, tick_lower, tick_upper, amount as i128) ==> r is Ok,
            // the three views of tick liveness stay in agreement
            r is Ok && tick_lower < tick_upper && 1 <= old(self).tick_spacing <= 0x8000 && old(
                self,
            ).ticks_consistent() && old(self).ticks_domain_clean() ==> final(self).ticks_consistent()
                && final(self).ticks_domain_clean(),
    {
        if let Err(e) = self.check_slot0_unlocked() {
            return Err(e);
        }
        if let Err(e) = self.when_not_locked() {
            return Err(e);
        }
        self.lock_contract();
        if amount == 0 {
            self.unlock_contract();
            return Err(Error::ErrMintAmount);
        }
        let ghost precall = *self;
        let (position, amount0_int, amount1_int) = match self.modify_position(
            recipient,
            tick_lower,
            tick_upper,
            amount as i128,
            time,
        ) {
            Ok(triple) => triple,
            Err(e) => {
                return Err(e);
            },
        };
        let ghost mid = *self;
        let amount0 = amount0_int.to_u256();
        let amount1 = amount1_int.to_u256();
        self.unlock_contract();
        proof {
            if old(self).ticks_consistent() && old(self).ticks_domain_clean() && tick_lower
                < tick_upper && 1 <= old(self).tick_spacing <= 0x8000 {
                lemma_consistency_frame(*old(self), precall);
                lemma_consistency_frame(mid, *self);
            }
        }
        Ok((amount0, amount1))
    }

    /// Removes liquidity from a range.  The freed token amounts are
    /// credited to the position's tokens-owed counters (with the
    /// documented wrapping) and returned.
    pub fn burn(
        &mut self,
        owner: u64,
        tick_lower: i32,
        tick_upper: i32,
        amount: u128,
        time: u64,
    ) -> (r: Result<(U256, U256), Error>)
        requires
            amount <= 0x8000_0000_0000_0000_0000_0000_0000_0000,
            old(self).modify_safe(tick_lower, tick_upper, (-(amount as int)) as i128, time),
        ensures
            !old(self).slot0_unlocked ==> r == Result::<(U256, U256), Error>::Err(Error::ErrLOK),
            old(self).slot0_unlocked && old(self).is_locked ==> r == Result::<
                (U256, U256),
                Error,
            >::Err(Error::ContractLocked),
            r is Ok ==> ({
                let lo = sqrt_ratio_spec(tick_lower as int);
                let up = sqrt_ratio_spec(tick_upper as int);
                let cur = old(self).slot0.sqrt_price_x96.v();
                &&& (amount > 0 && old(self).slot0.tick < tick_lower ==> r->Ok_0.0.v()
                    == amount0_sorted(lo, up, amount as nat, false) && r->Ok_0.1.v() == 0)
                &&& (amount > 0 && tick_lower <= old(self).slot0.tick < tick_upper ==> r->Ok_0.0.v()
                    == amount0_sorted(cur, up, amount as nat, false) && r->Ok_0.1.v()
                    == amount1_sorted(lo, cur, amount as nat, false) && final(self).liquidity
                    == old(self).liquidity - amount)
                &&& (amount > 0 && old(self).slot0.tick >= tick_upper ==> r->Ok_0.0.v() == 0
                    && r->Ok_0.1.v() == amount1_sorted(lo, up, amount as nat, false))
                &&& !final(self).is_locked
            }),
            old(self).slot0_unlocked && !old(self).is_locked && old(self).modify_succeeds(
                owner,
                tick_lower,
                tick_upper,
                (-(amount as int)) as i128,
            ) ==> r is Ok,
            // the freed amounts and the fees accrued since the last poke
            // are credited to the position's owed counters, wrapping
            r is Ok ==> ({
                let key = (owner, tick_lower, tick_upper);
                let prior = *old(self);
                let before = prior.positions.at(key);
                let inside0 = crate::tick::fee_growth_inside0_spec(
                    prior.ticks,
                    tick_lower as int,
                    tick_upper as int,
                    prior.slot0.tick as int,
                    prior.fee_growth_global0_x128.v(),
                );
                let inside1 = crate::tick::fee_growth_inside1_spec(
                    prior.ticks,
                    tick_lower as int,
                    tick_upper as int,
                    prior.slot0.tick as int,
                    prior.fee_growth_global1_x128.v(),
                );
                let owed0 = crate::position::owed_delta(
                    inside0,
                    before.fee_growth_inside0_last_x128.v(),
                    before.liquidity as nat,
                );
                let owed1 = crate::position::owed_delta(
                    inside1,
                    before.fee_growth_inside1_last_x128.v(),
                    before.liquidity as nat,
                );
                let base0: u128 = if owed0 > 0 || owed1 > 0 {
                    before.tokens_owed0.wrapping_add(owed0 as u128)
                } else {
                    before.tokens_owed0
                };
                let base1: u128 = if owed0 > 0 || owed1 > 0 {
                    before.tokens_owed1.wrapping_add(owed1 as u128)
                } else {
                    before.tokens_owed1
                };
                let freed = r->Ok_0.0.v() > 0 || r->Ok_0.1.v() > 0;
                &&& final(self).positions.at(key).tokens_owed0 == (if freed {
                    base0.wrapping_add((r->Ok_0.0.v() % p128()) as u128)
                } else {
                    base0
                })
                &&& final(self).positions.at(key).tokens_owed1 == (if freed {
                    base1.wrapping_add((r->Ok_0.1.v() % p128()) as u128)
                } else {
                    base1
                })
                &&& final(self).positions.at(key).liquidity == before.liquidity - amount
            }),
            // the three views of tick liveness stay in agreement
            r is Ok && tick_lower < tick_upper && 1 <= old(self).tick_spacing <= 0x8000 && old(
                self,
            ).ticks_consistent() && old(self).ticks_domain_clean() ==> final(self).ticks_consistent()
                && final(self).ticks_domain_clean(),
    {
        if let Err(e) = self.check_slot0_unlocked() {
            return Err(e);
        }
        if let Err(e) = self.when_not_locked() {
            return Err(e);
        }
        self.lock_contract();
        let liquidity_delta: i128 = if amount == 0x8000_0000_0000_0000_0000_0000_0000_0000 {
            i128::MIN
        } else {
            -(amount as i128)
        };
        let ghost precall = *self;
        let (mut position, amount0_int, amount1_int) = match self.modify_position(
            owner,
            tick_lower,
            tick_upper,
            liquidity_delta,
            time,
        ) {
            Ok(triple) => triple,
            Err(e) => {
                return Err(e);
            },
        };
        let ghost mid = *self;
        let amount0 = amount0_int.neg_i().to_u256();
        let amount1 = amount1_int.neg_i().to_u256();
        if amount0.gt_u(&U256::zero()) || amount1.gt_u(&U256::zero()) {
            proof {
                lemma_pow2_words();
            }
            position.tokens_owed0 = position.tokens_owed0.wrapping_add(amount0.low_u128());
            position.tokens_owed1 = position.tokens_owed1.wrapping_add(amount1.low_u128());
            self.positions.set((owner, tick_lower, tick_upper), position);
        }
        self.unlock_contract();
        proof {
            if old(self).ticks_consistent() && old(self).ticks_domain_clean() && tick_lower
                < tick_upper && 1 <= old(self).tick_spacing <= 0x8000 {
                lemma_consistency_frame(*old(self), precall);
                lemma_consistency_frame(mid, *self);
            }
        }
        Ok((amount0, amount1))
    }

    /// Pays out owed tokens from a position, clamped to what is owed.
    /// The embedding performs the actual transfers.
    pub fn collect(
        &mut self,
        owner: u64,
        tick_lower: i32,
        tick_upper: i32,
        amount0_requested: u128,
        amount1_requested: u128,
    ) -> (r: Result<(u128, u128), Error>)
        ensures
            !old(self).slot0_unlocked ==> r == Result::<(u128, u128), Error>::Err(Error::ErrLOK)
                && *final(self) == *old(self),
            old(self).slot0_unlocked && old(self).is_locked ==> r == Result::<
                (u128, u128),
                Error,
            >::Err(Error::ContractLocked) && *final(self) == *old(self),
            old(self).slot0_unlocked && !old(self).is_locked ==> ({
                let key = (owner, tick_lower, tick_upper);
                let before = old(self).positions.at(key);
                let take0 = if amount0_requested > before.tokens_owed0 {
                    before.tokens_owed0
                } else {
                    amount0_requested
                };
                let take1 = if amount1_requested > before.tokens_owed1 {
                    before.tokens_owed1
                } else {
                    amount1_requested
                };
                &&& r == Result::<(u128, u128), Error>::Ok((take0, take1))
                &&& final(self).positions.at(key).tokens_owed0 == before.tokens_owed0 - take0
                &&& final(self).positions.at(key).tokens_owed1 == before.tokens_owed1 - take1
                &&& final(self).positions.at(key).liquidity == before.liquidity
                &&& !final(self).is_locked
            }),
    {
        if let Err(e) = self.check_slot0_unlocked() {
            return Err(e);
        }
        if let Err(e) = self.when_not_locked() {
            return Err(e);
        }
        self.lock_contract();
        let key = (owner, tick_lower, tick_upper);
        let mut position = self.positions.get(key);
        let amount0 = if amount0_requested > position.tokens_owed0 {
            position.tokens_owed0
        } else {
            amount0_requested
        };
        let amount1 = if amount1_requested > position.tokens_owed1 {
            position.tokens_owed1
        } else {
            amount1_requested
        };
        if amount0 > 0 {
            position.tokens_owed0 = position.tokens_owed0 - amount0;
        }
        if amount1 > 0 {
            position.tokens_owed1 = position.tokens_owed1 - amount1;
        }
        self.positions.set(key, position);
        self.unlock_contract();
        Ok((amount0, amount1))
    }
}

impl Pool {
    /// Oracle and price sanity needed by a swap: the stored price and
    /// tick are in range and the freshest observation can be extended.
    pub open spec fn swap_safe(self, time: u64) -> bool {
        &&& 0 < self.fee < 1000000
        &&& 1 <= self.tick_spacing <= 0x8000
        &&& 0 < self.slot0.sqrt_price_x96.v() <= pow2(160)
        &&& -887273 <= self.slot0.tick <= 887272
        &&& self.slot0.observation_cardinality >= 1
        &&& self.slot0.observation_index < self.slot0.observation_cardinality
        &&& (self.observations.at(self.slot0.observation_index as int).block_timestamp != time
            ==> transform_safe(
            self.observations.at(self.slot0.observation_index as int),
            time,
            self.slot0.tick,
            self.liquidity,
        ))
    }

    /// Swaps one token for the other along the curve, walking initialized
    /// ticks until the specified amount settles or the price reaches the
    /// limit.  Positive `amount_specified` fixes the input (fee included),
    /// negative fixes the output.  Returns the signed deltas owed by
    /// (positive) or to (negative) the caller, token0 first.
    ///
    /// On an error the pool value must be discarded, as a reverted
    /// transaction discards its writes.
    pub fn swap(
        &mut self,
        zero_for_one: bool,
        amount_specified: I256,
        sqrt_price_limit_x96: U256,
        time: u64,
    ) -> (r: Result<(I256, I256), Error>)
        requires
            amount_specified.wf(),
            old(self).swap_safe(time),
        ensures
            !old(self).slot0_unlocked ==> r == Result::<(I256, I256), Error>::Err(Error::ErrLOK)
                && *final(self) == *old(self),
            old(self).slot0_unlocked && old(self).is_locked ==> r == Result::<
                (I256, I256),
                Error,
            >::Err(Error::ContractLocked) && *final(self) == *old(self),
            old(self).slot0_unlocked && !old(self).is_locked && amount_specified.iv() == 0 ==> r
                == Result::<(I256, I256), Error>::Err(Error::ErrSwapAS) && *final(self) == *old(
                self,
            ),
            old(self).slot0_unlocked && !old(self).is_locked && amount_specified.iv() != 0 && !(
            if zero_for_one {
                sqrt_price_limit_x96.v() < old(self).slot0.sqrt_price_x96.v()
                    && sqrt_price_limit_x96.v() > 4295128739
            } else {
                sqrt_price_limit_x96.v() > old(self).slot0.sqrt_price_x96.v()
                    && sqrt_price_limit_x96.v() < 4294805859 * p128()
                    + 318775800626314356294205765087544249638
            }) ==> r == Result::<(I256, I256), Error>::Err(Error::ErrSwapSPL) && *final(self)
                == *old(self),
            r is Ok ==> ({
                let done = *final(self);
                let prior = *old(self);
                let exact_in = amount_specified.iv() >= 0;
                &&& r->Ok_0.0.wf() && r->Ok_0.1.wf()
                &&& (zero_for_one ==> sqrt_price_limit_x96.v() <= done.slot0.sqrt_price_x96.v()
                    <= prior.slot0.sqrt_price_x96.v())
                &&& (!zero_for_one ==> prior.slot0.sqrt_price_x96.v()
                    <= done.slot0.sqrt_price_x96.v() <= sqrt_price_limit_x96.v())
                &&& 0 < done.slot0.sqrt_price_x96.v() <= pow2(160)
                &&& (zero_for_one ==> r->Ok_0.1.iv() <= 0)
                &&& (!zero_for_one ==> r->Ok_0.0.iv() <= 0)
                // the walk has settled: the specified amount was consumed
                // in full, or the price ran into the limit
                &&& ((if zero_for_one == exact_in {
                    r->Ok_0.0.iv()
                } else {
                    r->Ok_0.1.iv()
                }) == amount_specified.iv() || done.slot0.sqrt_price_x96
                    == sqrt_price_limit_x96)
                // a swap touches nothing but the price, tick, oracle,
                // liquidity, and its own side's fee trackers
                &&& done.positions == prior.positions
                &&& done.slot0_unlocked == prior.slot0_unlocked
                &&& done.fee == prior.fee
                &&& done.tick_spacing == prior.tick_spacing
                &&& done.max_liquidity_per_tick == prior.max_liquidity_per_tick
                &&& done.slot0.fee_protocol == prior.slot0.fee_protocol
                &&& done.slot0.observation_cardinality_next
                    == prior.slot0.observation_cardinality_next
                &&& (!zero_for_one ==> done.fee_growth_global0_x128
                    == prior.fee_growth_global0_x128 && done.protocol_fees.token0
                    == prior.protocol_fees.token0)
                &&& (zero_for_one ==> done.fee_growth_global1_x128
                    == prior.fee_growth_global1_x128 && done.protocol_fees.token1
                    == prior.protocol_fees.token1)
                &&& !done.is_locked
            }),
            // crossings rewrite only fee trackers, so the three views of
            // tick liveness stay in agreement
            r is Ok && 1 <= old(self).tick_spacing <= 0x8000 && old(self).ticks_consistent()
                ==> final(self).ticks_consistent(),
    {
        if let Err(e) = self.check_slot0_unlocked() {
            return Err(e);
        }
        if let Err(e) = self.when_not_locked() {
            return Err(e);
        }
        self.lock_contract();
        if amount_specified.is_zero() {
            self.unlock_contract();
            return Err(Error::ErrSwapAS);
        }
        let slot0_start = self.slot0;
        let limit_ok = if zero_for_one {
            sqrt_price_limit_x96.lt_u(&slot0_start.sqrt_price_x96) && sqrt_price_limit_x96.gt_u(
                &crate::tickmath::min_sqrt_ratio(),
            )
        } else {
            sqrt_price_limit_x96.gt_u(&slot0_start.sqrt_price_x96) && sqrt_price_limit_x96.lt_u(
                &crate::tickmath::max_sqrt_ratio(),
            )
        };
        if !limit_ok {
            self.unlock_contract();
            return Err(Error::ErrSwapSPL);
        }
        proof {
            lemma_pow2_words();
            lemma_pow2_adds(128, 32);
            lemma2_to64();
            lemma_pow2_strictly_increases(160, 161);
            assert(pow2(161) == pow2(160) + pow2(160)) by {
                lemma_pow2_adds(160, 1);
            }
            assert(4294805859 * p128() + 318775800626314356294205765087544249638 < pow2(161))
                by (nonlinear_arith)
                requires
                    p128() == pow2(128),
                    pow2(160) == pow2(32) * pow2(128),
                    pow2(161) == pow2(160) + pow2(160),
                    4294805859 < pow2(32),
                    318775800626314356294205765087544249638 < pow2(128),
            ;
        }
        let exact_in = !amount_specified.is_neg();
        let mut cache = SwapCache {
            fee_protocol: if zero_for_one {
                slot0_start.fee_protocol % 16
            } else {
                slot0_start.fee_protocol / 16
            },
            liquidity_start: self.liquidity,
            block_time: time,
            tick_cumulative: 0,
            seconds_per_liquidity_cumulative_x128: U256 { lo: 0, hi: 0 },
            computed_latest_observation: false,
        };
        let mut state = SwapState {
            amount_specified_remaining: amount_specified,
            amount_calculated: I256::zero(),
            sqrt_price_x96: slot0_start.sqrt_price_x96,
            tick: slot0_start.tick,
            fee_growth_global_x128: if zero_for_one {
                self.fee_growth_global0_x128
            } else {
                self.fee_growth_global1_x128
            },
            protocol_fee: 0,
            liquidity: self.liquidity,
        };
        let mut fuel: u32 = 0x100_0000;
        loop
            invariant
                self.swap_loop_frame(*old(self)),
                old(self).swap_safe(time),
                old(self).slot0_unlocked,
                !old(self).is_locked,
                amount_specified.wf(),
                amount_specified.iv() != 0,
                slot0_start == old(self).slot0,
                cache.liquidity_start == old(self).liquidity,
                cache.block_time == time,
                exact_in == (amount_specified.iv() >= 0),
                state.loop_wf(
                    *old(self),
                    amount_specified,
                    sqrt_price_limit_x96,
                    zero_for_one,
                    exact_in,
                ),
                if zero_for_one {
                    sqrt_price_limit_x96.v() < old(self).slot0.sqrt_price_x96.v()
                        && sqrt_price_limit_x96.v() > 4295128739
                } else {
                    sqrt_price_limit_x96.v() > old(self).slot0.sqrt_price_x96.v()
                        && sqrt_price_limit_x96.v() < 4294805859 * p128()
                        + 318775800626314356294205765087544249638
                },
                sqrt_price_limit_x96.v() <= pow2(160),
                sqrt_price_limit_x96.v() > 0,
            ensures
                state.amount_specified_remaining.iv() == 0 || state.sqrt_price_x96
                    == sqrt_price_limit_x96,
            decreases fuel,
        {
            if fuel == 0 {
                // a real pool settles in far fewer steps; the bound only
                // keeps the walk finite
                return Err(Error::SqrtRatioInternalError);
            }
            fuel = fuel - 1;
            if state.amount_specified_remaining.is_zero() || state.sqrt_price_x96.eq_u(
                &sqrt_price_limit_x96,
            ) {
                break ;
            }
            if let Err(e) = self.swap_step_once(
                &mut state,
                &mut cache,
                zero_for_one,
                exact_in,
                sqrt_price_limit_x96,
                slot0_start,
                time,
                Ghost(*old(self)),
                Ghost(amount_specified),
            ) {
                return Err(e);
            }
        }
        let ghost after_walk = *self;
        if state.tick != slot0_start.tick {
            let (observation_index, observation_cardinality) = crate::oracle::write(
                &mut self.observations,
                slot0_start.observation_index,
                time,
                slot0_start.tick,
                cache.liquidity_start,
                slot0_start.observation_cardinality,
                slot0_start.observation_cardinality_next,
            );
            self.slot0.sqrt_price_x96 = state.sqrt_price_x96;
            self.slot0.tick = state.tick;
            self.slot0.observation_index = observation_index;
            self.slot0.observation_cardinality = observation_cardinality;
        } else {
            self.slot0.sqrt_price_x96 = state.sqrt_price_x96;
        }
        if cache.liquidity_start != state.liquidity {
            self.liquidity = state.liquidity;
        }
        if zero_for_one {
            self.fee_growth_global0_x128 = state.fee_growth_global_x128;
            if state.protocol_fee > 0 {
                self.protocol_fees.token0 = self.protocol_fees.token0.wrapping_add(
                    state.protocol_fee,
                );
            }
        } else {
            self.fee_growth_global1_x128 = state.fee_growth_global_x128;
            if state.protocol_fee > 0 {
                self.protocol_fees.token1 = self.protocol_fees.token1.wrapping_add(
                    state.protocol_fee,
                );
            }
        }
        let settled = match amount_specified.checked_sub_i(&state.amount_specified_remaining) {
            Some(x) => x,
            None => {
                return Err(Error::SqrtRatioInternalError);
            },
        };
        let (amount0, amount1) = if zero_for_one == exact_in {
            (settled, state.amount_calculated)
        } else {
            (state.amount_calculated, settled)
        };
        self.unlock_contract();
        proof {
            if old(self).ticks_consistent() && 1 <= old(self).tick_spacing <= 0x8000 {
                assert(self.ticks == after_walk.ticks);
                assert forall|t: int|
                    #![trigger self.ticks.at(t)]
                    self.ticks.at(t).liquidity_gross == old(self).ticks.at(t).liquidity_gross
                        && self.ticks.at(t).initialized == old(self).ticks.at(t).initialized by {
                    assert(self.ticks.at(t) == after_walk.ticks.at(t));
                }
                lemma_liveness_frame(*old(self), *self);
            }
        }
        Ok((amount0, amount1))
    }

    /// The pool fields a swap step may not touch.
    pub open spec fn swap_loop_frame(self, prior: Pool) -> bool {
        &&& self.tick_bitmap == prior.tick_bitmap
        &&& forall|t: int|
            #![trigger self.ticks.at(t)]
            self.ticks.at(t).liquidity_gross == prior.ticks.at(t).liquidity_gross && self.ticks.at(
                t,
            ).initialized == prior.ticks.at(t).initialized
        &&& self.slot0 == prior.slot0
        &&& self.observations == prior.observations
        &&& self.positions == prior.positions
        &&& self.liquidity == prior.liquidity
        &&& self.fee == prior.fee
        &&& self.tick_spacing == prior.tick_spacing
        &&& self.protocol_fees == prior.protocol_fees
        &&& self.fee_growth_global0_x128 == prior.fee_growth_global0_x128
        &&& self.fee_growth_global1_x128 == prior.fee_growth_global1_x128
        &&& self.slot0_unlocked == prior.slot0_unlocked
        &&& self.max_liquidity_per_tick == prior.max_liquidity_per_tick
        &&& self.is_locked
    }

    /// One iteration of the swap walk: the price moved toward the limit,
    /// amounts settle in the trade's direction, and the tick stays in its
    /// working range.
    #[verifier::rlimit(100)]
    #[verifier::spinoff_prover]
    fn swap_step_once(
        &mut self,
        state: &mut SwapState,
        cache: &mut SwapCache,
        zero_for_one: bool,
        exact_in: bool,
        sqrt_price_limit_x96: U256,
        slot0_start: Slot0,
        time: u64,
        prior: Ghost<Pool>,
        amount_specified: Ghost<I256>,
    ) -> (r: Result<(), Error>)
        requires
            old(self).swap_loop_frame(prior@),
            prior@.swap_safe(time),
            slot0_start == prior@.slot0,
            old(cache).liquidity_start == prior@.liquidity,
            old(cache).block_time == time,
            amount_specified@.wf(),
            exact_in == (amount_specified@.iv() >= 0),
            old(state).loop_wf(
                prior@,
                amount_specified@,
                sqrt_price_limit_x96,
                zero_for_one,
                exact_in,
            ),
            0 < sqrt_price_limit_x96.v() <= pow2(160),
        ensures
            r is Ok ==> final(self).swap_loop_frame(prior@),
            r is Ok ==> final(state).loop_wf(
                prior@,
                amount_specified@,
                sqrt_price_limit_x96,
                zero_for_one,
                exact_in,
            ),
            r is Ok ==> final(cache).liquidity_start == prior@.liquidity && final(cache).block_time
                == time,
    {
        let (tick_next_raw, initialized) =
            crate::tick_bitmap::tick_next_initialized_tick_within_one_word(
            &self.tick_bitmap,
            state.tick,
            self.tick_spacing,
            zero_for_one,
        );
        let tick_next = if tick_next_raw < MIN_TICK {
            MIN_TICK
        } else if tick_next_raw > MAX_TICK {
            MAX_TICK
        } else {
            tick_next_raw
        };
        let sqrt_price_next = match crate::tickmath::get_sqrt_ratio_at_tick(tick_next) {
            Ok(x) => x,
            Err(e) => {
                return Err(e);
            },
        };
        // the price of an in-range tick always fits 160 bits; the guard
        // keeps that numeric fact local
        if sqrt_price_next.is_zero() || sqrt_price_next.gt_u(&U256::power_of_two(160)) {
            return Err(Error::ErrR);
        }
        let target_is_limit = if zero_for_one {
            sqrt_price_next.lt_u(&sqrt_price_limit_x96)
        } else {
            sqrt_price_next.gt_u(&sqrt_price_limit_x96)
        };
        let step_target = if target_is_limit {
            sqrt_price_limit_x96
        } else {
            sqrt_price_next
        };
        // the walk can only move the price toward the limit; the guard
        // keeps that direction fact local
        if zero_for_one {
            if step_target.gt_u(&state.sqrt_price_x96) {
                return Err(Error::SqrtRatioInternalError);
            }
        } else {
            if step_target.lt_u(&state.sqrt_price_x96) {
                return Err(Error::SqrtRatioInternalError);
            }
        }
        let price_before_step = state.sqrt_price_x96;
        let (next_price, step_in, step_out, step_fee) = match crate::swap_math::compute_swap_step(
            &state.sqrt_price_x96,
            &step_target,
            state.liquidity,
            state.amount_specified_remaining,
            self.fee as u64,
        ) {
            Ok(q) => q,
            Err(e) => {
                return Err(e);
            },
        };
        state.sqrt_price_x96 = next_price;
        // one step can only move the price as far as its target, which is
        // clamped at the limit; the guard keeps that rounding fact local
        if zero_for_one {
            if state.sqrt_price_x96.lt_u(&sqrt_price_limit_x96) {
                return Err(Error::SqrtRatioInternalError);
            }
        } else {
            if state.sqrt_price_x96.gt_u(&sqrt_price_limit_x96) {
                return Err(Error::SqrtRatioInternalError);
            }
        }
        proof {
            lemma_v_bound(step_in);
            lemma_v_bound(step_out);
            lemma_v_bound(step_fee);
        }
        if exact_in {
            let spent = match step_in.checked_add(&step_fee) {
                Some(x) => x,
                None => {
                    return Err(Error::InvalidMulDiv);
                },
            };
            state.amount_specified_remaining = match state.amount_specified_remaining.checked_sub_i(
                &I256::from_u256(spent),
            ) {
                Some(x) => x,
                None => {
                    return Err(Error::SqrtRatioInternalError);
                },
            };
            state.amount_calculated = match state.amount_calculated.checked_sub_i(
                &I256::from_u256(step_out),
            ) {
                Some(x) => x,
                None => {
                    return Err(Error::SqrtRatioInternalError);
                },
            };
        } else {
            state.amount_specified_remaining = match state.amount_specified_remaining.checked_add_i(
                &I256::from_u256(step_out),
            ) {
                Some(x) => x,
                None => {
                    return Err(Error::SqrtRatioInternalError);
                },
            };
            let earned = match step_in.checked_add(&step_fee) {
                Some(x) => x,
                None => {
                    return Err(Error::InvalidMulDiv);
                },
            };
            state.amount_calculated = match state.amount_calculated.checked_add_i(
                &I256::from_u256(earned),
            ) {
                Some(x) => x,
                None => {
                    return Err(Error::SqrtRatioInternalError);
                },
            };
        }
        let mut fee_amount = step_fee;
        if cache.fee_protocol > 0 {
            let delta = fee_amount.div_u(&U256::from_u64(cache.fee_protocol as u64));
            fee_amount = fee_amount.sub_u(&delta);
            state.protocol_fee = state.protocol_fee.wrapping_add(delta.low_u128());
        }
        if state.liquidity > 0 {
            let growth = match mul_div(&fee_amount, &q128(), &U256::from_u128(state.liquidity)) {
                Ok(x) => x,
                Err(e) => {
                    return Err(e);
                },
            };
            state.fee_growth_global_x128 = state.fee_growth_global_x128.wrapping_add(&growth);
        }
        if state.sqrt_price_x96.eq_u(&sqrt_price_next) {
            if initialized {
                if !cache.computed_latest_observation {
                    let (tc, spl) = match crate::oracle::observe_single(
                        &self.observations,
                        time,
                        0,
                        slot0_start.tick,
                        slot0_start.observation_index,
                        cache.liquidity_start,
                        slot0_start.observation_cardinality,
                    ) {
                        Ok(pair) => pair,
                        Err(e) => {
                            return Err(e);
                        },
                    };
                    cache.tick_cumulative = tc;
                    cache.seconds_per_liquidity_cumulative_x128 = spl;
                    cache.computed_latest_observation = true;
                }
                let fee_growth0 = if zero_for_one {
                    state.fee_growth_global_x128
                } else {
                    self.fee_growth_global0_x128
                };
                let fee_growth1 = if zero_for_one {
                    self.fee_growth_global1_x128
                } else {
                    state.fee_growth_global_x128
                };
                let spl_cache = cache.seconds_per_liquidity_cumulative_x128;
                let mut liquidity_net = crate::tick::cross(
                    &mut self.ticks,
                    tick_next,
                    &fee_growth0,
                    &fee_growth1,
                    &spl_cache,
                    cache.tick_cumulative,
                    time,
                );
                if zero_for_one {
                    if liquidity_net == i128::MIN {
                        return Err(Error::ErrLS);
                    }
                    liquidity_net = -liquidity_net;
                }
                state.liquidity = match add_delta(state.liquidity, liquidity_net) {
                    Ok(x) => x,
                    Err(e) => {
                        return Err(e);
                    },
                };
            }
            state.tick = if zero_for_one {
                tick_next - 1
            } else {
                tick_next
            };
        } else if !state.sqrt_price_x96.eq_u(&price_before_step) {
            let recomputed = match crate::tickmath::get_tick_at_sqrt_ratio(state.sqrt_price_x96) {
                Ok(t) => t,
                Err(e) => {
                    return Err(e);
                },
            };
            // the tick of an in-range price always lies in the tick range;
            // the guard keeps that fact local
            if recomputed < MIN_TICK || recomputed > MAX_TICK {
                return Err(Error::ErrR);
            }
            state.tick = recomputed;
        }
        Ok(())
    }

    /// Time-weighted cumulatives as of each requested lookback.
    /// Time-weighted cumulatives as of each requested lookback: element
    /// `k` of each output is the oracle lookup at `seconds_agos[k]`, and
    /// the call succeeds exactly when every target is still recorded.
    pub fn observe(&self, time: u64, seconds_agos: &Vec<u32>) -> (r: Result<
        (Vec<i64>, Vec<U256>),
        Error,
    >)
        requires
            self.slot0.observation_index < self.slot0.observation_cardinality,
            forall|k: int|
                0 <= k < seconds_agos@.len() ==> crate::oracle::single_safe(
                    self.observations,
                    time,
                    #[trigger] seconds_agos@[k] as u64,
                    self.slot0.tick,
                    self.slot0.observation_index,
                    self.liquidity,
                    self.slot0.observation_cardinality,
                ),
        ensures
            self.slot0.observation_cardinality == 0 ==> r == Result::<
                (Vec<i64>, Vec<U256>),
                Error,
            >::Err(Error::ErrI),
            self.slot0.observation_cardinality > 0 ==> (r is Ok <==> forall|k: int|
                0 <= k < seconds_agos@.len() ==> !(#[trigger] seconds_agos@[k] as u64 != 0
                    && crate::oracle::too_old(
                    self.observations,
                    time,
                    seconds_agos@[k] as u64,
                    self.slot0.observation_index,
                    self.slot0.observation_cardinality,
                ))),
            self.slot0.observation_cardinality > 0 && r is Err ==> r == Result::<
                (Vec<i64>, Vec<U256>),
                Error,
            >::Err(Error::ErrOld),
            r is Ok ==> r->Ok_0.0@.len() == seconds_agos@.len() && r->Ok_0.1@.len()
                == seconds_agos@.len() && forall|k: int|
                0 <= k < seconds_agos@.len() ==> crate::oracle::single_result_spec(
                    self.observations,
                    time,
                    #[trigger] seconds_agos@[k] as u64,
                    self.slot0.tick,
                    self.slot0.observation_index,
                    self.liquidity,
                    self.slot0.observation_cardinality,
                    r->Ok_0.0@[k],
                    r->Ok_0.1@[k],
                ),
    {
        crate::oracle::observe(
            &self.observations,
            time,
            seconds_agos,
            self.slot0.tick,
            self.slot0.observation_index,
            self.liquidity,
            self.slot0.observation_cardinality,
        )
    }

    /// Per-range cumulative snapshot: combines the two boundary ticks'
    /// "outside" trackers with the live oracle sample, by which side of
    /// the range the current tick is on.  Both ticks must be initialized.
    pub fn snapshot_cumulatives_inside(&self, tick_lower: i32, tick_upper: i32, time: u64) -> (r:
        Result<(i64, U256, u32), Error>)
        requires
            self.ticks.at(tick_lower as int).seconds_per_liquidity_outside_x128.v() < pow2(160),
            self.ticks.at(tick_upper as int).seconds_per_liquidity_outside_x128.v() < pow2(160),
            tick_lower <= self.slot0.tick < tick_upper ==> {
                &&& self.slot0.observation_index < self.slot0.observation_cardinality
                &&& (self.observations.at(self.slot0.observation_index as int).block_timestamp
                    != time ==> transform_safe(
                    self.observations.at(self.slot0.observation_index as int),
                    time,
                    self.slot0.tick,
                    self.liquidity,
                ))
                &&& crate::oracle::transform_spl_spec(
                    self.observations.at(self.slot0.observation_index as int),
                    time,
                    self.liquidity,
                ) < pow2(160)
                &&& self.observations.at(
                    self.slot0.observation_index as int,
                ).seconds_per_liquidity_cumulative_x128.v() < pow2(160)
            },
        ensures
            ({
                let lower = self.ticks.at(tick_lower as int);
                let upper = self.ticks.at(tick_upper as int);
                &&& (!(tick_lower < tick_upper && tick_lower >= MIN_TICK && tick_upper
                    <= MAX_TICK) ==> r is Err)
                &&& (tick_lower < tick_upper && tick_lower >= MIN_TICK && tick_upper <= MAX_TICK
                    && !lower.initialized ==> r == Result::<(i64, U256, u32), Error>::Err(
                    Error::ErrLowerUninitialized,
                ))
                &&& (tick_lower < tick_upper && tick_lower >= MIN_TICK && tick_upper <= MAX_TICK
                    && lower.initialized && !upper.initialized ==> r == Result::<
                    (i64, U256, u32),
                    Error,
                >::Err(Error::ErrUpperUninitialized))
                &&& (tick_lower < tick_upper && tick_lower >= MIN_TICK && tick_upper <= MAX_TICK
                    && lower.initialized && upper.initialized ==> r is Ok)
                &&& (r is Ok && self.slot0.tick < tick_lower ==> r->Ok_0.0
                    == lower.tick_cumulative_outside.wrapping_sub(upper.tick_cumulative_outside)
                    && r->Ok_0.1.v() == crate::fullmath::wsub160(
                    lower.seconds_per_liquidity_outside_x128.v(),
                    upper.seconds_per_liquidity_outside_x128.v(),
                ) && r->Ok_0.2 == lower.seconds_outside.wrapping_sub(upper.seconds_outside))
                &&& (r is Ok && self.slot0.tick >= tick_upper ==> r->Ok_0.0
                    == upper.tick_cumulative_outside.wrapping_sub(lower.tick_cumulative_outside)
                    && r->Ok_0.1.v() == crate::fullmath::wsub160(
                    upper.seconds_per_liquidity_outside_x128.v(),
                    lower.seconds_per_liquidity_outside_x128.v(),
                ) && r->Ok_0.2 == upper.seconds_outside.wrapping_sub(lower.seconds_outside))
                &&& (r is Ok && tick_lower <= self.slot0.tick < tick_upper ==> ({
                    // the live oracle values as of the call
                    let last = self.observations.at(self.slot0.observation_index as int);
                    let tc_now: int = if last.block_timestamp == time {
                        last.tick_cumulative as int
                    } else {
                        last.tick_cumulative + self.slot0.tick * (time - last.block_timestamp)
                    };
                    let spl_now: nat = if last.block_timestamp == time {
                        last.seconds_per_liquidity_cumulative_x128.v()
                    } else {
                        crate::oracle::transform_spl_spec(last, time, self.liquidity)
                    };
                    &&& r->Ok_0.0 == (tc_now as i64).wrapping_sub(
                        lower.tick_cumulative_outside,
                    ).wrapping_sub(upper.tick_cumulative_outside)
                    &&& r->Ok_0.1.v() == crate::fullmath::wsub160(
                        crate::fullmath::wsub160(
                            spl_now,
                            lower.seconds_per_liquidity_outside_x128.v(),
                        ),
                        upper.seconds_per_liquidity_outside_x128.v(),
                    )
                    &&& r->Ok_0.2 == (time as u32).wrapping_sub(lower.seconds_outside).wrapping_sub(
                        upper.seconds_outside,
                    )
                }))
            }),
    {
        if let Err(e) = check_ticks(tick_lower, tick_upper) {
            return Err(e);
        }
        let lower = self.ticks.get(tick_lower);
        let upper = self.ticks.get(tick_upper);
        if !lower.initialized {
            return Err(Error::ErrLowerUninitialized);
        }
        if !upper.initialized {
            return Err(Error::ErrUpperUninitialized);
        }
        if self.slot0.tick < tick_lower {
            Ok(
                (
                    lower.tick_cumulative_outside.wrapping_sub(upper.tick_cumulative_outside),
                    crate::fullmath::overflow_sub_u160(
                        &lower.seconds_per_liquidity_outside_x128,
                        &upper.seconds_per_liquidity_outside_x128,
                    ),
                    lower.seconds_outside.wrapping_sub(upper.seconds_outside),
                ),
            )
        } else if self.slot0.tick < tick_upper {
            let (tick_cumulative, seconds_per_liquidity) = match crate::oracle::observe_single(
                &self.observations,
                time,
                0,
                self.slot0.tick,
                self.slot0.observation_index,
                self.liquidity,
                self.slot0.observation_cardinality,
            ) {
                Ok(pair) => pair,
                Err(e) => {
                    return Err(e);
                },
            };
            proof {
                lemma_v_bound(seconds_per_liquidity);
            }
            Ok(
                (
                    tick_cumulative.wrapping_sub(lower.tick_cumulative_outside).wrapping_sub(
                        upper.tick_cumulative_outside,
                    ),
                    crate::fullmath::overflow_sub_u160(
                        &crate::fullmath::overflow_sub_u160(
                            &seconds_per_liquidity,
                            &lower.seconds_per_liquidity_outside_x128,
                        ),
                        &upper.seconds_per_liquidity_outside_x128,
                    ),
                    (time as u32).wrapping_sub(lower.seconds_outside).wrapping_sub(
                        upper.seconds_outside,
                    ),
                ),
            )
        } else {
            Ok(
                (
                    upper.tick_cumulative_outside.wrapping_sub(lower.tick_cumulative_outside),
                    crate::fullmath::overflow_sub_u160(
                        &upper.seconds_per_liquidity_outside_x128,
                        &lower.seconds_per_liquidity_outside_x128,
                    ),
                    upper.seconds_outside.wrapping_sub(lower.seconds_outside),
                ),
            )
        }
    }

    /// Flash-loan fees owed on the requested amounts: `ceil(a * fee / 1e6)`
    /// per token.  Fails with `ErrL` when the pool has no active liquidity.
    pub fn flash_quote(&self, amount0: &U256, amount1: &U256) -> (r: Result<(U256, U256), Error>)
        requires
            self.fee < 1000000,
        ensures
            self.liquidity == 0 ==> r == Result::<(U256, U256), Error>::Err(Error::ErrL),
            self.liquidity > 0 && r is Ok ==> r->Ok_0.0.v() == ceil_div(
                amount0.v() * (self.fee as nat),
                1000000,
            ) && r->Ok_0.1.v() == ceil_div(amount1.v() * (self.fee as nat), 1000000),
            self.liquidity > 0 ==> (r is Ok <==> ceil_div(amount0.v() * (self.fee as nat), 1000000)
                < p256() && ceil_div(amount1.v() * (self.fee as nat), 1000000) < p256()),
    {
        if self.liquidity == 0 {
            return Err(Error::ErrL);
        }
        let fee = U256::from_u64(self.fee as u64);
        let denom = U256::from_u64(1000000);
        let fee0 = mul_div_rounding_up(amount0, &fee, &denom)?;
        let fee1 = mul_div_rounding_up(amount1, &fee, &denom)?;
        Ok((fee0, fee1))
    }

    /// Settles a flash loan after repayment: a protocol share of each
    /// paid amount goes to the protocol fees and the rest accrues to the
    /// fee growth trackers (wrapping, as documented).
    pub fn flash_apply(&mut self, paid0: &U256, paid1: &U256) -> (r: Result<(), Error>)
        requires
            old(self).liquidity > 0,
        ensures
            r is Err ==> r == Result::<(), Error>::Err(Error::InvalidMulDiv),
            ({
                let nib0 = old(self).slot0.fee_protocol as int % 16;
                let nib1 = old(self).slot0.fee_protocol as int / 16;
                let fees0: nat = if paid0.v() > 0 && nib0 > 0 {
                    paid0.v() / nib0 as nat
                } else {
                    0
                };
                let fees1: nat = if paid1.v() > 0 && nib1 > 0 {
                    paid1.v() / nib1 as nat
                } else {
                    0
                };
                let l = old(self).liquidity as nat;
                r is Ok <==> (paid0.v() > 0 ==> ((paid0.v() - fees0) as nat) * pow2(128) / l
                    < p256()) && (paid1.v() > 0 ==> ((paid1.v() - fees1) as nat) * pow2(128) / l
                    < p256())
            }),
            r is Ok ==> ({
                let nib0 = old(self).slot0.fee_protocol as int % 16;
                let nib1 = old(self).slot0.fee_protocol as int / 16;
                let fees0: nat = if paid0.v() > 0 && nib0 > 0 {
                    paid0.v() / nib0 as nat
                } else {
                    0
                };
                let fees1: nat = if paid1.v() > 0 && nib1 > 0 {
                    paid1.v() / nib1 as nat
                } else {
                    0
                };
                &&& (paid0.v() > 0 && fees0 > 0 ==> final(self).protocol_fees.token0 == old(
                    self,
                ).protocol_fees.token0.wrapping_add((fees0 % p128()) as u128))
                &&& (paid0.v() > 0 ==> final(self).fee_growth_global0_x128.v() == (old(
                    self,
                ).fee_growth_global0_x128.v() + ((paid0.v() - fees0) as nat) * pow2(128) / (old(
                    self,
                ).liquidity as nat)) % p256())
                &&& (paid0.v() == 0 ==> final(self).fee_growth_global0_x128 == old(
                    self,
                ).fee_growth_global0_x128 && final(self).protocol_fees.token0 == old(
                    self,
                ).protocol_fees.token0)
                &&& (paid1.v() > 0 && fees1 > 0 ==> final(self).protocol_fees.token1 == old(
                    self,
                ).protocol_fees.token1.wrapping_add((fees1 % p128()) as u128))
                &&& (paid1.v() > 0 ==> final(self).fee_growth_global1_x128.v() == (old(
                    self,
                ).fee_growth_global1_x128.v() + ((paid1.v() - fees1) as nat) * pow2(128) / (old(
                    self,
                ).liquidity as nat)) % p256())
                &&& (paid1.v() == 0 ==> final(self).fee_growth_global1_x128 == old(
                    self,
                ).fee_growth_global1_x128 && final(self).protocol_fees.token1 == old(
                    self,
                ).protocol_fees.token1)
            }),
    {
        proof {
            lemma_pow2_words();
            lemma_pow2_pos(128);
        }
        let scale = q128();
        if paid0.gt_u(&U256::zero()) {
            let nibble = self.slot0.fee_protocol % 16;
            let fees0 = if nibble == 0 {
                U256::zero()
            } else {
                proof {
                    lemma_fundamental_div_mod_converse(
                        self.slot0.fee_protocol as int,
                        16,
                        self.slot0.fee_protocol as int / 16,
                        self.slot0.fee_protocol as int % 16,
                    );
                }
                paid0.div_u(&U256::from_u64(nibble as u64))
            };
            if fees0.gt_u(&U256::zero()) {
                self.protocol_fees.token0 = self.protocol_fees.token0.wrapping_add(
                    fees0.low_u128(),
                );
            }
            let growth = match mul_div(
                &paid0.sub_u(&fees0),
                &scale,
                &U256::from_u128(self.liquidity),
            ) {
                Ok(x) => x,
                Err(e) => {
                    return Err(e);
                },
            };
            self.fee_growth_global0_x128 = self.fee_growth_global0_x128.wrapping_add(&growth);
        }
        if paid1.gt_u(&U256::zero()) {
            let nibble = self.slot0.fee_protocol / 16;
            let fees1 = if nibble == 0 {
                U256::zero()
            } else {
                paid1.div_u(&U256::from_u64(nibble as u64))
            };
            if fees1.gt_u(&U256::zero()) {
                self.protocol_fees.token1 = self.protocol_fees.token1.wrapping_add(
                    fees1.low_u128(),
                );
            }
            let growth = match mul_div(
                &paid1.sub_u(&fees1),
                &scale,
                &U256::from_u128(self.liquidity),
            ) {
                Ok(x) => x,
                Err(e) => {
                    return Err(e);
                },
            };
            self.fee_growth_global1_x128 = self.fee_growth_global1_x128.wrapping_add(&growth);
        }
        Ok(())
    }
}

/// One liquidity change keeps the three views of tick liveness agreeing:
/// the updated boundary ticks flip their bitmap bits and records exactly
/// when they cross between empty and funded, and no other tick moves.
#[verifier::rlimit(100)]
#[verifier::spinoff_prover]
proof fn lemma_preserved_consistency(
    prior: Pool,
    cur: Pool,
    tick_lower: i32,
    tick_upper: i32,
    delta: i128,
    fl: bool,
    fu: bool,
    bm_mid: TickBitmap,
)
    requires
        prior.ticks_consistent(),
        prior.ticks_domain_clean(),
        1 <= prior.tick_spacing <= 0x8000,
        cur.tick_spacing == prior.tick_spacing,
        MIN_TICK <= tick_lower,
        tick_lower < tick_upper,
        tick_upper <= MAX_TICK,
        delta != 0,
        0 <= prior.ticks.at(tick_lower as int).liquidity_gross + delta,
        0 <= prior.ticks.at(tick_upper as int).liquidity_gross + delta,
        fl == ((prior.ticks.at(tick_lower as int).liquidity_gross + delta == 0) != (prior.ticks.at(
            tick_lower as int,
        ).liquidity_gross == 0)),
        fu == ((prior.ticks.at(tick_upper as int).liquidity_gross + delta == 0) != (prior.ticks.at(
            tick_upper as int,
        ).liquidity_gross == 0)),
        delta < 0 && fl ==> cur.ticks.at(tick_lower as int) == TickInfo::spec_empty(),
        !(delta < 0 && fl) ==> cur.ticks.at(tick_lower as int).liquidity_gross == prior.ticks.at(
            tick_lower as int,
        ).liquidity_gross + delta && cur.ticks.at(tick_lower as int).initialized == (prior.ticks.at(
            tick_lower as int,
        ).initialized || prior.ticks.at(tick_lower as int).liquidity_gross == 0),
        delta < 0 && fu ==> cur.ticks.at(tick_upper as int) == TickInfo::spec_empty(),
        !(delta < 0 && fu) ==> cur.ticks.at(tick_upper as int).liquidity_gross == prior.ticks.at(
            tick_upper as int,
        ).liquidity_gross + delta && cur.ticks.at(tick_upper as int).initialized == (prior.ticks.at(
            tick_upper as int,
        ).initialized || prior.ticks.at(tick_upper as int).liquidity_gross == 0),
        forall|o: int|
            o != tick_lower as int && o != tick_upper as int ==> cur.ticks.at(o)
                == prior.ticks.at(o),
        fl ==> tick_lower as int % (prior.tick_spacing as int) == 0,
        fu ==> tick_upper as int % (prior.tick_spacing as int) == 0,
        fl ==> ({
            let c = tick_lower as int / (prior.tick_spacing as int);
            let wp = c / 256;
            let bp = (c % 256) as nat;
            let w = prior.tick_bitmap.word(wp);
            &&& bm_mid.word(wp) as int == (if crate::tick_bitmap::bit_set(w, bp) {
                w - pow2(bp)
            } else {
                (w + pow2(bp)) as int
            })
            &&& forall|o: int| o != wp ==> bm_mid.word(o) == prior.tick_bitmap.word(o)
        }),
        !fl ==> bm_mid == prior.tick_bitmap,
        fu ==> ({
            let c = tick_upper as int / (prior.tick_spacing as int);
            let wp = c / 256;
            let bp = (c % 256) as nat;
            let w = bm_mid.word(wp);
            &&& cur.tick_bitmap.word(wp) as int == (if crate::tick_bitmap::bit_set(w, bp) {
                w - pow2(bp)
            } else {
                (w + pow2(bp)) as int
            })
            &&& forall|o: int| o != wp ==> cur.tick_bitmap.word(o) == bm_mid.word(o)
        }),
        !fu ==> cur.tick_bitmap == bm_mid,
    ensures
        cur.ticks_consistent(),
        cur.ticks_domain_clean(),
{
    let sp = prior.tick_spacing as int;
    let lo = tick_lower as int;
    let up = tick_upper as int;
    let gl = prior.ticks.at(lo).liquidity_gross as int;
    let gu = prior.ticks.at(up).liquidity_gross as int;
    // both boundary ticks sit in the domain: a flip proves alignment, and
    // an unflipped tick held liquidity before, which only domain ticks do
    assert(prior.tick_in_domain(lo)) by {
        if !fl {
            assert(gl > 0);
            if !prior.tick_in_domain(lo) {
                assert(prior.ticks.at(lo) == TickInfo::spec_empty());
            }
        }
    }
    assert(prior.tick_in_domain(up)) by {
        if !fu {
            assert(gu > 0);
            if !prior.tick_in_domain(up) {
                assert(prior.ticks.at(up) == TickInfo::spec_empty());
            }
        }
    }
    let cl = lo / sp;
    let cu = up / sp;
    let wl = cl / 256;
    let bl = (cl % 256) as nat;
    let wu = cu / 256;
    let bu = (cu % 256) as nat;
    assert(!(wl == wu && bl == bu)) by {
        if wl == wu && bl == bu {
            crate::tick_bitmap::lemma_tick_bit_injective(sp, lo, up);
        }
    }
    lemma_mod_division_less_than_divisor(cl, 256);
    lemma_mod_division_less_than_divisor(cu, 256);
    crate::tick_bitmap::lemma_word_lookup_bound(prior.tick_bitmap.words@, wl);
    crate::tick_bitmap::lemma_word_lookup_bound(prior.tick_bitmap.words@, wu);
    crate::tick_bitmap::lemma_word_lookup_bound(bm_mid.words@, wl);
    crate::tick_bitmap::lemma_word_lookup_bound(bm_mid.words@, wu);
    // how each stage moves each watched bit
    assert(crate::tick_bitmap::bit_set(bm_mid.word(wl), bl) == (if fl {
        !crate::tick_bitmap::bit_set(prior.tick_bitmap.word(wl), bl)
    } else {
        crate::tick_bitmap::bit_set(prior.tick_bitmap.word(wl), bl)
    })) by {
        if fl {
            crate::tick_bitmap::lemma_flip_bit(prior.tick_bitmap.word(wl), bl);
        }
    }
    assert(crate::tick_bitmap::bit_set(cur.tick_bitmap.word(wl), bl) == crate::tick_bitmap::bit_set(
        bm_mid.word(wl),
        bl,
    )) by {
        if fu {
            crate::tick_bitmap::lemma_flip_bit(bm_mid.word(wu), bu);
            if wu == wl {
                assert(bl != bu);
            }
        }
    }
    assert(crate::tick_bitmap::bit_set(bm_mid.word(wu), bu) == crate::tick_bitmap::bit_set(
        prior.tick_bitmap.word(wu),
        bu,
    )) by {
        if fl {
            crate::tick_bitmap::lemma_flip_bit(prior.tick_bitmap.word(wl), bl);
            if wu == wl {
                assert(bl != bu);
            }
        }
    }
    assert(crate::tick_bitmap::bit_set(cur.tick_bitmap.word(wu), bu) == (if fu {
        !crate::tick_bitmap::bit_set(bm_mid.word(wu), bu)
    } else {
        crate::tick_bitmap::bit_set(bm_mid.word(wu), bu)
    })) by {
        if fu {
            crate::tick_bitmap::lemma_flip_bit(bm_mid.word(wu), bu);
        }
    }
    assert(prior.tick_bit_of(lo) == (gl > 0));
    assert(prior.tick_bit_of(up) == (gu > 0));
    assert forall|t: int| #[trigger] cur.tick_in_domain(t) implies ((cur.ticks.at(
        t,
    ).liquidity_gross > 0) == cur.tick_bit_of(t) && (cur.ticks.at(t).liquidity_gross > 0)
        == cur.ticks.at(t).initialized) by {
        assert(prior.tick_in_domain(t));
        if t == lo {
            assert(prior.ticks.at(lo).initialized == (gl > 0));
            if fl {
                assert((cur.ticks.at(lo).liquidity_gross > 0) == !(gl > 0));
            } else {
                assert(gl > 0);
                assert(cur.ticks.at(lo).liquidity_gross > 0);
            }
        } else if t == up {
            assert(prior.ticks.at(up).initialized == (gu > 0));
            if fu {
                assert((cur.ticks.at(up).liquidity_gross > 0) == !(gu > 0));
            } else {
                assert(gu > 0);
                assert(cur.ticks.at(up).liquidity_gross > 0);
            }
        } else {
            assert(cur.ticks.at(t) == prior.ticks.at(t));
            let ct = t / sp;
            let wt = ct / 256;
            let bt = (ct % 256) as nat;
            lemma_mod_division_less_than_divisor(ct, 256);
            assert(!(fl && wt == wl && bt == bl)) by {
                if fl && wt == wl && bt == bl {
                    crate::tick_bitmap::lemma_tick_bit_injective(sp, t, lo);
                }
            }
            assert(!(fu && wt == wu && bt == bu)) by {
                if fu && wt == wu && bt == bu {
                    crate::tick_bitmap::lemma_tick_bit_injective(sp, t, up);
                }
            }
            assert(crate::tick_bitmap::bit_set(bm_mid.word(wt), bt) == crate::tick_bitmap::bit_set(
                prior.tick_bitmap.word(wt),
                bt,
            )) by {
                crate::tick_bitmap::lemma_word_lookup_bound(prior.tick_bitmap.words@, wt);
                if fl && wt == wl {
                    crate::tick_bitmap::lemma_flip_bit(prior.tick_bitmap.word(wl), bl);
                }
            }
            assert(crate::tick_bitmap::bit_set(cur.tick_bitmap.word(wt), bt)
                == crate::tick_bitmap::bit_set(bm_mid.word(wt), bt)) by {
                crate::tick_bitmap::lemma_word_lookup_bound(bm_mid.words@, wt);
                if fu && wt == wu {
                    crate::tick_bitmap::lemma_flip_bit(bm_mid.word(wu), bu);
                }
            }
            assert(cur.tick_bit_of(t) == prior.tick_bit_of(t));
        }
    }
    assert forall|t: int| !(#[trigger] cur.tick_in_domain(t)) implies cur.ticks.at(t)
        == TickInfo::spec_empty() by {
        assert(!prior.tick_in_domain(t));
        assert(t != lo && t != up);
        assert(cur.ticks.at(t) == prior.ticks.at(t));
    }
}

/// A change that touches neither the tick records nor the bitmap keeps
/// the three views of tick liveness agreeing.
proof fn lemma_consistency_frame(prior: Pool, cur: Pool)
    requires
        prior.ticks_consistent(),
        prior.ticks_domain_clean(),
        cur.ticks == prior.ticks,
        cur.tick_bitmap == prior.tick_bitmap,
        cur.tick_spacing == prior.tick_spacing,
    ensures
        cur.ticks_consistent(),
        cur.ticks_domain_clean(),
{
    assert forall|t: int| #[trigger] cur.tick_in_domain(t) implies ((cur.ticks.at(
        t,
    ).liquidity_gross > 0) == cur.tick_bit_of(t) && (cur.ticks.at(t).liquidity_gross > 0)
        == cur.ticks.at(t).initialized) by {
        assert(prior.tick_in_domain(t));
    }
    assert forall|t: int| !(#[trigger] cur.tick_in_domain(t)) implies cur.ticks.at(t)
        == TickInfo::spec_empty() by {
        assert(!prior.tick_in_domain(t));
    }
}

/// A change that keeps every tick's liquidity and initialized flag, and
/// the bitmap, keeps the three views of tick liveness agreeing — even if
/// it rewrites the fee trackers of some records, as a swap's crossings do.
proof fn lemma_liveness_frame(prior: Pool, cur: Pool)
    requires
        prior.ticks_consistent(),
        forall|t: int|
            #![trigger cur.ticks.at(t)]
            cur.ticks.at(t).liquidity_gross == prior.ticks.at(t).liquidity_gross && cur.ticks.at(
                t,
            ).initialized == prior.ticks.at(t).initialized,
        cur.tick_bitmap == prior.tick_bitmap,
        cur.tick_spacing == prior.tick_spacing,
    ensures
        cur.ticks_consistent(),
{
    assert forall|t: int| #[trigger] cur.tick_in_domain(t) implies ((cur.ticks.at(
        t,
    ).liquidity_gross > 0) == cur.tick_bit_of(t) && (cur.ticks.at(t).liquidity_gross > 0)
        == cur.ticks.at(t).initialized) by {
        assert(prior.tick_in_domain(t));
        assert(cur.ticks.at(t).liquidity_gross == prior.ticks.at(t).liquidity_gross);
    }
}

/// Token0 owed between two prices given in either order.
pub open spec fn amount0_sorted(a: nat, b: nat, l: nat, round_up: bool) -> nat {
    if a <= b {
        crate::sqrt_price_math::amount0_delta_spec(a, b, l, round_up)
    } else {
        crate::sqrt_price_math::amount0_delta_spec(b, a, l, round_up)
    }
}

/// Token1 owed between two prices given in either order.
pub open spec fn amount1_sorted(a: nat, b: nat, l: nat, round_up: bool) -> nat {
    if a <= b {
        crate::sqrt_price_math::amount1_delta_spec(a, b, l, round_up)
    } else {
        crate::sqrt_price_math::amount1_delta_spec(b, a, l, round_up)
    }
}

} // verus!
