//! Ring buffer of oracle observations: time-weighted tick and
//! inverse-liquidity cumulatives.

use vstd::prelude::*;
use vstd::arithmetic::div_mod::*;
use vstd::arithmetic::power2::*;

use crate::error::Error;
use crate::u256::{U256, lemma_pow2_words, lemma_v_bound, p128, p256};

verus! {

/// One oracle sample.
#[derive(Clone, Copy, PartialEq, Eq, Structural, Debug)]
pub struct Observation {
    pub block_timestamp: u64,
    pub tick_cumulative: i64,
    pub seconds_per_liquidity_cumulative_x128: U256,
    pub initialized: bool,
}

impl Observation {
    pub open spec fn spec_empty() -> Observation {
        Observation {
            block_timestamp: 0,
            tick_cumulative: 0,
            seconds_per_liquidity_cumulative_x128: U256::spec_zero(),
            initialized: false,
        }
    }

    pub fn empty() -> (r: Observation)
        ensures
            r == Observation::spec_empty(),
    {
        Observation {
            block_timestamp: 0,
            tick_cumulative: 0,
            seconds_per_liquidity_cumulative_x128: U256 { lo: 0, hi: 0 },
            initialized: false,
        }
    }
}

/// The stored ring slots; reads past the materialized end see empty slots.
pub struct Observations {
    pub slots: Vec<Observation>,
}

impl Observations {
    /// Slot `i`; unmaterialized slots read as empty.
    pub open spec fn at(self, i: int) -> Observation {
        if 0 <= i < self.slots@.len() {
            self.slots@[i]
        } else {
            Observation::spec_empty()
        }
    }

    pub fn new() -> (r: Observations)
        ensures
            forall|i: int| r.at(i) == Observation::spec_empty(),
    {
        Observations { slots: Vec::new() }
    }

    pub fn get(&self, i: u64) -> (r: Observation)
        requires
            i < 0x1_0000,
        ensures
            r == self.at(i as int),
    {
        if (i as usize) < self.slots.len() {
            self.slots[i as usize]
        } else {
            Observation::empty()
        }
    }

    /// Stores a slot, materializing empty slots up to it if needed.
    pub fn set(&mut self, i: u64, obs: Observation)
        requires
            i < 0x1_0000,
        ensures
            final(self).at(i as int) == obs,
            forall|o: int| o != i as int ==> final(self).at(o) == old(self).at(o),
    {
        let ghost pre = *self;
        while self.slots.len() <= i as usize
            invariant
                i < 0x1_0000,
                pre.slots@.len() <= self.slots@.len(),
                self.slots@.len() > pre.slots@.len() ==> self.slots@.len() <= i + 1,
                forall|o: int| 0 <= o < pre.slots@.len() ==> self.slots@[o] == pre.slots@[o],
                forall|o: int|
                    pre.slots@.len() <= o < self.slots@.len() ==> self.slots@[o]
                        == Observation::spec_empty(),
            decreases i + 1 - self.slots@.len(),
        {
            self.slots.push(Observation::empty());
        }
        proof {
            assert forall|o: int| #[trigger] self.at(o) == pre.at(o) by {
                if 0 <= o < pre.slots@.len() {
                } else if pre.slots@.len() <= o < self.slots@.len() {
                    assert(self.at(o) == Observation::spec_empty());
                }
            }
        }
        self.slots.set(i as usize, obs);
        proof {
            assert(final(self).at(i as int) == obs);
        }
    }
}

/// Timestamp order on 32-bit wrapped times, seen from `time`: values
/// logically after the current time are treated as one wrap older.
pub open spec fn lte_spec(time: u64, a: u32, b: u32) -> bool {
    let t32 = time as u32;
    if a <= t32 && b <= t32 {
        a <= b
    } else {
        let aa: int = if a > t32 {
            a as int
        } else {
            a + 0x1_0000_0000
        };
        let bb: int = if b > t32 {
            b as int
        } else {
            b + 0x1_0000_0000
        };
        aa <= bb
    }
}

/// Comparator for 32-bit timestamps that may have wrapped past `time`.
pub fn lte(time: u64, a: u32, b: u32) -> (r: bool)
    ensures
        r == lte_spec(time, a, b),
{
    let t32 = time as u32;
    if a <= t32 && b <= t32 {
        return a <= b;
    }
    let aa: u64 = if a > t32 {
        a as u64
    } else {
        a as u64 + 0x1_0000_0000
    };
    let bb: u64 = if b > t32 {
        b as u64
    } else {
        b as u64 + 0x1_0000_0000
    };
    aa <= bb
}

/// The seconds-per-liquidity value of the transformed observation.
pub open spec fn transform_spl_spec(last: Observation, block_time: u64, liquidity: u128) -> nat {
    let delta = (block_time - last.block_timestamp) as nat;
    let l: nat = if liquidity > 0 {
        liquidity as nat
    } else {
        1
    };
    (last.seconds_per_liquidity_cumulative_x128.v() + delta * pow2(128) / l) as nat
}

/// Arithmetic safety of one `transform` call.
pub open spec fn transform_safe(last: Observation, block_time: u64, tick: i32, liquidity: u128) -> bool {
    &&& last.block_timestamp <= block_time
    &&& block_time - last.block_timestamp < 0x8000_0000_0000_0000
    &&& i64::MIN <= tick * (block_time - last.block_timestamp) <= i64::MAX
    &&& i64::MIN <= last.tick_cumulative + tick * (block_time - last.block_timestamp) <= i64::MAX
    &&& transform_spl_spec(last, block_time, liquidity) < p256()
}

/// Extends an observation to a later time.
pub fn transform(last: &Observation, block_time: u64, tick: i32, liquidity: u128) -> (r: Observation)
    requires
        transform_safe(*last, block_time, tick, liquidity),
    ensures
        r.block_timestamp == block_time,
        r.tick_cumulative == last.tick_cumulative + tick * (block_time - last.block_timestamp),
        r.seconds_per_liquidity_cumulative_x128.v() == transform_spl_spec(
            *last,
            block_time,
            liquidity,
        ),
        r.initialized == true,
{
    let delta = block_time - last.block_timestamp;
    let tick_cumulative = last.tick_cumulative + (tick as i64) * (delta as i64);
    proof {
        lemma_pow2_words();
        lemma_pow2_pos(128);
        lemma_pow2_adds(64, 128);
        lemma_pow2_strictly_increases(192, 256);
        assert((delta as nat) * pow2(128) < pow2(192)) by (nonlinear_arith)
            requires
                delta < pow2(64),
                pow2(192) == pow2(64) * pow2(128),
                pow2(128) > 0,
                delta >= 0,
        ;
    }
    let wide = U256::from_u64(delta).shl(128);
    let divisor: u128 = if liquidity > 0 {
        liquidity
    } else {
        1
    };
    let quotient = wide.div_u(&U256::from_u128(divisor));
    proof {
        lemma_v_bound(last.seconds_per_liquidity_cumulative_x128);
    }
    let spl = last.seconds_per_liquidity_cumulative_x128.add_u(&quotient);
    Observation {
        block_timestamp: block_time,
        tick_cumulative,
        seconds_per_liquidity_cumulative_x128: spl,
        initialized: true,
    }
}

/// Writes the first observation and reports cardinality one.
pub fn initialize(obs: &mut Observations, time: u64) -> (r: (u16, u16))
    ensures
        r == (1u16, 1u16),
        final(obs).at(0) == (Observation {
            block_timestamp: time,
            tick_cumulative: 0,
            seconds_per_liquidity_cumulative_x128: U256::spec_zero(),
            initialized: true,
        }),
        forall|o: int| o != 0 ==> final(obs).at(o) == old(obs).at(o),
{
    obs.set(
        0,
        Observation {
            block_timestamp: time,
            tick_cumulative: 0,
            seconds_per_liquidity_cumulative_x128: U256 { lo: 0, hi: 0 },
            initialized: true,
        },
    );
    (1, 1)
}

/// Appends an observation to the ring: a repeated timestamp is a no-op,
/// and the ring expands to the staged cardinality when the write lands on
/// the last live slot.
pub fn write(
    obs: &mut Observations,
    index: u16,
    block_time: u64,
    tick: i32,
    liquidity: u128,
    cardinality: u16,
    cardinality_next: u16,
) -> (r: (u16, u16))
    requires
        cardinality >= 1,
        old(obs).at(index as int).block_timestamp != block_time ==> transform_safe(
            old(obs).at(index as int),
            block_time,
            tick,
            liquidity,
        ),
    ensures
        ({
            let last = old(obs).at(index as int);
            &&& (last.block_timestamp == block_time ==> r == (index, cardinality) && *final(obs)
                == *old(obs))
            &&& (last.block_timestamp != block_time ==> {
                let card_updated: u16 = if cardinality_next > cardinality && index == cardinality
                    - 1 {
                    cardinality_next
                } else {
                    cardinality
                };
                let index_updated = (((index + 1) as int) % (card_updated as int)) as u16;
                &&& r == (index_updated, card_updated)
                &&& final(obs).at(index_updated as int).block_timestamp == block_time
                &&& final(obs).at(index_updated as int).tick_cumulative == last.tick_cumulative
                    + tick * (block_time - last.block_timestamp)
                &&& final(obs).at(
                    index_updated as int,
                ).seconds_per_liquidity_cumulative_x128.v() == transform_spl_spec(
                    last,
                    block_time,
                    liquidity,
                )
                &&& final(obs).at(index_updated as int).initialized == true
                &&& forall|o: int|
                    o != index_updated as int ==> final(obs).at(o) == old(obs).at(o)
            })
        }),
{
    let last = obs.get(index as u64);
    if last.block_timestamp == block_time {
        return (index, cardinality);
    }
    let cardinality_updated = if cardinality_next > cardinality && index == cardinality - 1 {
        cardinality_next
    } else {
        cardinality
    };
    let index_updated = (((index as u32) + 1) % (cardinality_updated as u32)) as u16;
    let fresh = transform(&last, block_time, tick, liquidity);
    obs.set(index_updated as u64, fresh);
    (index_updated, cardinality_updated)
}

/// Stages a larger ring size.  Shrinking or repeating a size is a no-op;
/// new slots are marked with the timestamp sentinel one so that they are
/// paid for but recognizably unwritten.
pub fn grow(obs: &mut Observations, current: u16, next: u16) -> (r: Result<u16, Error>)
    ensures
        current == 0 ==> r == Result::<u16, Error>::Err(Error::ErrI) && *final(obs) == *old(obs),
        current > 0 && next <= current ==> r == Result::<u16, Error>::Ok(current) && *final(obs)
            == *old(obs),
        current > 0 && next > current ==> {
            &&& r == Result::<u16, Error>::Ok(next)
            &&& forall|i: int|
                current <= i < next ==> final(obs).at(i) == (Observation {
                    block_timestamp: 1,
                    ..old(obs).at(i)
                })
            &&& forall|o: int| o < current || o >= next ==> final(obs).at(o) == old(obs).at(o)
        },
{
    if current == 0 {
        return Err(Error::ErrI);
    }
    if next <= current {
        return Ok(current);
    }
    let ghost orig = *obs;
    let mut i: u16 = current;
    while i < next
        invariant
            current <= i <= next,
            next <= 0xffff,
            forall|k: int|
                current <= k < i ==> self_at(*obs, k) == (Observation {
                    block_timestamp: 1,
                    ..orig.at(k)
                }),
            forall|o: int| o < current || o >= i ==> self_at(*obs, o) == orig.at(o),
        decreases next - i,
    {
        let ghost pre_iter = *obs;
        let mut slot = obs.get(i as u64);
        slot.block_timestamp = 1;
        obs.set(i as u64, slot);
        proof {
            assert(self_at(*obs, i as int) == (Observation {
                block_timestamp: 1,
                ..orig.at(i as int)
            }));
            assert(forall|k: int| current <= k < i ==> self_at(*obs, k) == self_at(pre_iter, k));
            assert forall|k: int| current <= k < i + 1 implies self_at(*obs, k) == (Observation {
                block_timestamp: 1,
                ..orig.at(k)
            }) by {
                if k < i {
                    assert(self_at(pre_iter, k) == (Observation {
                        block_timestamp: 1,
                        ..orig.at(k)
                    }));
                }
            }
        }
        i = i + 1;
    }
    proof {
        let snap = *obs;
        assert forall|k: int| current <= k < next implies snap.at(k) == (Observation {
            block_timestamp: 1,
            ..old(obs).at(k)
        }) by {
            assert(orig == *old(obs));
            assert(self_at(snap, k) == (Observation { block_timestamp: 1, ..orig.at(k) }));
        }
        assert forall|o: int| o < current || o >= next implies snap.at(o) == old(obs).at(o) by {
            assert(orig == *old(obs));
            assert(self_at(snap, o) == orig.at(o));
        }
    }
    Ok(next)
}

/// Reading a slot of the current ring, for use in loop invariants.
spec fn self_at(obs: Observations, i: int) -> Observation {
    obs.at(i)
}

/// The ring slot at logical window position `j`.
pub open spec fn ring_at(obs: Observations, j: int, cardinality: u16) -> Observation {
    obs.at(j % (cardinality as int))
}

/// Well-formedness of the live ring window `[l0, l0 + cardinality - 1]`
/// (with `l0 = (index + 1) % cardinality`): unwritten slots form a prefix,
/// written slots carry increasing timestamps in both the wrapped and the
/// plain order, and every timestamp is at most `time`.
pub open spec fn ring_wf(obs: Observations, time: u64, index: u16, cardinality: u16) -> bool {
    let l0 = ((index + 1) as int) % (cardinality as int);
    let r0 = l0 + cardinality - 1;
    &&& cardinality >= 1
    &&& forall|a: int, b: int|
        l0 <= a <= b <= r0 && #[trigger] ring_at(obs, a, cardinality).initialized ==> (
        #[trigger] ring_at(obs, b, cardinality)).initialized
    &&& forall|a: int, b: int|
        l0 <= a <= b <= r0 && ring_at(obs, a, cardinality).initialized && ring_at(
            obs,
            b,
            cardinality,
        ).initialized ==> lte_spec(
            time,
            #[trigger] ring_at(obs, a, cardinality).block_timestamp as u32,
            #[trigger] ring_at(obs, b, cardinality).block_timestamp as u32,
        )
}

/// A window position `j` whose observation pair brackets `target`.
pub open spec fn brackets(
    obs: Observations,
    time: u64,
    target: u32,
    j: int,
    cardinality: u16,
) -> bool {
    &&& ring_at(obs, j, cardinality).initialized
    &&& lte_spec(time, ring_at(obs, j, cardinality).block_timestamp as u32, target)
    &&& lte_spec(time, target, ring_at(obs, j + 1, cardinality).block_timestamp as u32)
}

/// Binary search over the ring for the pair of observations surrounding
/// `target`.  The ring must be well formed, the newest observation must
/// lie strictly after the target, and a bracketing pair must exist.
pub fn binary_search(
    obs: &Observations,
    time: u64,
    target: u32,
    index: u16,
    cardinality: u16,
) -> (r: (Observation, Observation))
    requires
        cardinality >= 1,
        ring_wf(*obs, time, index, cardinality),
        !lte_spec(
            time,
            ring_at(*obs, ((index + 1) as int) % (cardinality as int) + cardinality - 1,
                cardinality).block_timestamp as u32,
            target,
        ),
        exists|j: int|
            ((index + 1) as int) % (cardinality as int) <= j < ((index + 1) as int) % (
            cardinality as int) + cardinality - 1 && #[trigger] brackets(
                *obs,
                time,
                target,
                j,
                cardinality,
            ),
    ensures
        exists|j: int|
            ((index + 1) as int) % (cardinality as int) <= j < ((index + 1) as int) % (
            cardinality as int) + cardinality - 1 && #[trigger] brackets(
                *obs,
                time,
                target,
                j,
                cardinality,
            ) && r.0 == ring_at(*obs, j, cardinality) && r.1 == ring_at(*obs, j + 1, cardinality),
{
    let l0: u64 = ((index as u64) + 1) % (cardinality as u64);
    let mut l: u64 = l0;
    let mut r: u64 = l + (cardinality as u64) - 1;
    let ghost r0 = l0 + cardinality - 1;
    loop
        invariant
            cardinality >= 1,
            ring_wf(*obs, time, index, cardinality),
            l0 == ((index + 1) as int) % (cardinality as int),
            r0 == l0 + cardinality - 1,
            l0 <= l,
            r <= r0,
            l <= r,
            !lte_spec(time, ring_at(*obs, r0 as int, cardinality).block_timestamp as u32, target),
            exists|j: int|
                l <= j <= r && j < r0 && #[trigger] brackets(*obs, time, target, j, cardinality),
        decreases r - l,
    {
        let i = (l + r) / 2;
        let before_or_at = obs.get(i % (cardinality as u64));
        proof {
            assert(before_or_at == ring_at(*obs, i as int, cardinality));
        }
        if !before_or_at.initialized {
            proof {
                let j = choose|j: int|
                    l <= j <= r && j < r0 && #[trigger] brackets(*obs, time, target, j, cardinality);
                if j <= i {
                    assert(ring_at(*obs, j as int, cardinality).initialized);
                    assert(ring_at(*obs, i as int, cardinality).initialized);
                }
            }
            l = i + 1;
            continue ;
        }
        let at_or_after = obs.get((i + 1) % (cardinality as u64));
        proof {
            assert(at_or_after == ring_at(*obs, i + 1, cardinality));
        }
        let target_at_or_after = lte(time, before_or_at.block_timestamp as u32, target);
        if target_at_or_after && lte(time, target, at_or_after.block_timestamp as u32) {
            proof {
                assert(i < r0) by {
                    if i == r0 {
                        assert(lte_spec(
                            time,
                            ring_at(*obs, r0 as int, cardinality).block_timestamp as u32,
                            target,
                        ));
                    }
                }
                assert(brackets(*obs, time, target, i as int, cardinality));
            }
            return (before_or_at, at_or_after);
        }
        proof {
            let j = choose|j: int|
                l <= j <= r && j < r0 && #[trigger] brackets(*obs, time, target, j, cardinality);
            if !target_at_or_after {
                // everything at or right of i is too new
                if j >= i {
                    assert(ring_at(*obs, j, cardinality).initialized);
                    assert(lte_spec(
                        time,
                        ring_at(*obs, i as int, cardinality).block_timestamp as u32,
                        ring_at(*obs, j, cardinality).block_timestamp as u32,
                    ));
                    assert(lte_spec(
                        time,
                        ring_at(*obs, j, cardinality).block_timestamp as u32,
                        target,
                    ));
                    lemma_lte_transitive(
                        time,
                        ring_at(*obs, i as int, cardinality).block_timestamp as u32,
                        ring_at(*obs, j, cardinality).block_timestamp as u32,
                        target,
                    );
                    assert(false);
                }
            } else {
                // i itself is too old: the bracket lies strictly right of i
                if j <= i {
                    if j == i {
                        assert(brackets(*obs, time, target, i as int, cardinality));
                        assert(false);
                    }
                    assert(i < r0) by {
                        if i == r0 {
                            assert(lte_spec(
                                time,
                                ring_at(*obs, r0 as int, cardinality).block_timestamp as u32,
                                target,
                            ));
                        }
                    }
                    assert(ring_at(*obs, j + 1, cardinality).initialized);
                    assert(ring_at(*obs, i + 1, cardinality).initialized) by {
                        if j + 1 <= i + 1 {
                        }
                    }
                    assert(lte_spec(
                        time,
                        ring_at(*obs, j + 1, cardinality).block_timestamp as u32,
                        ring_at(*obs, i + 1, cardinality).block_timestamp as u32,
                    ));
                    lemma_lte_transitive(
                        time,
                        target,
                        ring_at(*obs, j + 1, cardinality).block_timestamp as u32,
                        ring_at(*obs, i + 1, cardinality).block_timestamp as u32,
                    );
                    assert(false);
                }
            }
        }
        if !target_at_or_after {
            r = i - 1;
        } else {
            l = i + 1;
        }
    }
}

/// The wrapped timestamp order is transitive.
proof fn lemma_lte_transitive(time: u64, a: u32, b: u32, c: u32)
    requires
        lte_spec(time, a, b),
        lte_spec(time, b, c),
    ensures
        lte_spec(time, a, c),
{
}

/// The oldest live observation: the slot after the newest, or slot zero
/// when the ring has not wrapped yet.
pub open spec fn oldest_of(obs: Observations, index: u16, cardinality: u16) -> Observation {
    let next = obs.at(((index + 1) as int) % (cardinality as int));
    if next.initialized {
        next
    } else {
        obs.at(0)
    }
}

/// Safety of interpolating between a bracketing pair at `target`.
pub open spec fn pair_safe(before: Observation, after: Observation, target: u64) -> bool {
    &&& before.block_timestamp <= target <= after.block_timestamp
    &&& (before.block_timestamp < after.block_timestamp || target == before.block_timestamp
        || target == after.block_timestamp)
    &&& after.block_timestamp - before.block_timestamp < 0x8000_0000_0000_0000
    &&& i64::MIN <= after.tick_cumulative - before.tick_cumulative <= i64::MAX
    &&& before.seconds_per_liquidity_cumulative_x128.v()
        <= after.seconds_per_liquidity_cumulative_x128.v()
    &&& (after.seconds_per_liquidity_cumulative_x128.v()
        - before.seconds_per_liquidity_cumulative_x128.v()) * (target
        - before.block_timestamp) < p256()
}

/// The time-weighted tick interpolated at `target` between a bracket; the
/// cumulative moves by the bracket's mean tick rate, truncated toward zero
/// toward zero, matching the host integer division.
pub open spec fn interp_tc_spec(before: Observation, after: Observation, target: u64) -> int {
    let obs_dt = after.block_timestamp - before.block_timestamp;
    let target_dt = target - before.block_timestamp;
    let dtc = after.tick_cumulative - before.tick_cumulative;
    if dtc >= 0 {
        before.tick_cumulative + (dtc / obs_dt) * target_dt
    } else {
        before.tick_cumulative - (((-dtc) / obs_dt) * target_dt)
    }
}

/// The interpolated seconds-per-liquidity value at `target`.
pub open spec fn interp_spl_spec(before: Observation, after: Observation, target: u64) -> nat {
    (before.seconds_per_liquidity_cumulative_x128.v()
        + (after.seconds_per_liquidity_cumulative_x128.v()
        - before.seconds_per_liquidity_cumulative_x128.v()) * (target - before.block_timestamp)
        / (after.block_timestamp - before.block_timestamp)) as nat
}

/// Conditions under which a lookback read of the ring is defined: the
/// search must find its bracket and arithmetic on any bracketing pair
/// must stay in range.
pub open spec fn lookback_safe(
    obs: Observations,
    time: u64,
    target: u32,
    index: u16,
    cardinality: u16,
) -> bool {
    let l0 = ((index + 1) as int) % (cardinality as int);
    &&& ring_wf(obs, time, index, cardinality)
    &&& (!lte_spec(time, obs.at(index as int).block_timestamp as u32, target) && lte_spec(
        time,
        oldest_of(obs, index, cardinality).block_timestamp as u32,
        target,
    ) ==> exists|j: int|
        l0 <= j < l0 + cardinality - 1 && #[trigger] brackets(obs, time, target, j, cardinality))
    &&& forall|j: int|
        l0 <= j < l0 + cardinality - 1 && #[trigger] brackets(obs, time, target, j, cardinality)
            ==> pair_safe(
            ring_at(obs, j, cardinality),
            ring_at(obs, j + 1, cardinality),
            target as u64,
        )
}

/// The pair of observations surrounding `target`: the newest observation
/// when it is not newer than the target (extended forward in time when it
/// is strictly older), or the stored pair found by binary search.  Fails
/// with `ErrOld` when the target precedes the oldest recorded sample.
pub fn get_surrounding_observations(
    obs: &Observations,
    time: u64,
    target: u32,
    tick: i32,
    index: u16,
    liquidity: u128,
    cardinality: u16,
) -> (r: Result<(Observation, Observation), Error>)
    requires
        cardinality >= 1,
        index < cardinality,
        lookback_safe(*obs, time, target, index, cardinality),
        ({
            let newest = obs.at(index as int);
            lte_spec(time, newest.block_timestamp as u32, target) && newest.block_timestamp
                != target as u64 ==> transform_safe(newest, target as u64, tick, liquidity)
        }),
    ensures
        ({
            let newest = obs.at(index as int);
            &&& (lte_spec(time, newest.block_timestamp as u32, target)
                && newest.block_timestamp == target as u64 ==> r == Result::<
                (Observation, Observation),
                Error,
            >::Ok((newest, Observation::spec_empty())))
            &&& (lte_spec(time, newest.block_timestamp as u32, target)
                && newest.block_timestamp != target as u64 ==> r is Ok && r->Ok_0.0 == newest
                && r->Ok_0.1.block_timestamp == target as u64 && r->Ok_0.1.tick_cumulative
                == newest.tick_cumulative + tick * (target as u64 - newest.block_timestamp)
                && r->Ok_0.1.seconds_per_liquidity_cumulative_x128.v() == transform_spl_spec(
                newest,
                target as u64,
                liquidity,
            ))
            &&& (!lte_spec(time, newest.block_timestamp as u32, target) && !lte_spec(
                time,
                oldest_of(*obs, index, cardinality).block_timestamp as u32,
                target,
            ) ==> r == Result::<(Observation, Observation), Error>::Err(Error::ErrOld))
            &&& (!lte_spec(time, newest.block_timestamp as u32, target) && lte_spec(
                time,
                oldest_of(*obs, index, cardinality).block_timestamp as u32,
                target,
            ) ==> r is Ok && exists|j: int|
                ((index + 1) as int) % (cardinality as int) <= j < ((index + 1) as int) % (
                cardinality as int) + cardinality - 1 && #[trigger] brackets(
                    *obs,
                    time,
                    target,
                    j,
                    cardinality,
                ) && r->Ok_0.0 == ring_at(*obs, j, cardinality) && r->Ok_0.1 == ring_at(
                    *obs,
                    j + 1,
                    cardinality,
                ))
        }),
{
    let mut before_or_at = obs.get(index as u64);
    if lte(time, before_or_at.block_timestamp as u32, target) {
        if before_or_at.block_timestamp == target as u64 {
            return Ok((before_or_at, Observation::empty()));
        } else {
            let extended = transform(&before_or_at, target as u64, tick, liquidity);
            return Ok((before_or_at, extended));
        }
    }
    before_or_at = obs.get(((index as u64) + 1) % (cardinality as u64));
    if !before_or_at.initialized {
        before_or_at = obs.get(0);
    }
    if !lte(time, before_or_at.block_timestamp as u32, target) {
        return Err(Error::ErrOld);
    }
    proof {
        let l0 = ((index + 1) as int) % (cardinality as int);
        let r0 = l0 + cardinality - 1;
        lemma_ring_newest(*obs, index, cardinality);
    }
    Ok(binary_search(obs, time, target, index, cardinality))
}

/// The newest window slot is the indexed one.
proof fn lemma_ring_newest(obs: Observations, index: u16, cardinality: u16)
    requires
        1 <= cardinality,
        index < cardinality,
    ensures
        ring_at(
            obs,
            ((index + 1) as int) % (cardinality as int) + cardinality - 1,
            cardinality,
        ) == obs.at(index as int),
{
    let c = cardinality as int;
    let l0 = ((index + 1) as int) % c;
    let pos = l0 + c - 1;
    lemma_fundamental_div_mod((index + 1) as int, c);
    lemma_mod_division_less_than_divisor((index + 1) as int, c);
    let q = ((index + 1) as int) / c;
    assert(pos == index + 1 - q * c + c - 1) by (nonlinear_arith)
        requires
            index + 1 == c * q + l0,
            pos == l0 + c - 1,
    ;
    if index + 1 <= index {
    }
    // pos = index + (1 - q) * c; q is 0 or 1 since 0 <= index < 2^16
    assert(pos % c == (index as int) % c) by {
        lemma_mod_multiples_vanish(1 - q, index as int, c);
        assert(pos == (1 - q) * c + index) by (nonlinear_arith)
            requires
                pos == index + 1 - q * c + c - 1,
        ;
    }
    lemma_small_mod(index as nat, cardinality as nat);
    assert(ring_at(obs, pos, cardinality) == obs.at(pos % c));
}

/// Arithmetic safety of one lookup, shared by `observe_single` and
/// `observe`.
pub open spec fn single_safe(
    obs: Observations,
    time: u64,
    seconds_ago: u64,
    tick: i32,
    index: u16,
    liquidity: u128,
    cardinality: u16,
) -> bool {
    &&& (seconds_ago == 0 && obs.at(index as int).block_timestamp != time ==> transform_safe(
        obs.at(index as int),
        time,
        tick,
        liquidity,
    ))
    &&& (seconds_ago != 0 ==> seconds_ago <= time && lookback_safe(
        obs,
        time,
        (time - seconds_ago) as u32,
        index,
        cardinality,
    ) && (lte_spec(
        time,
        obs.at(index as int).block_timestamp as u32,
        (time - seconds_ago) as u32,
    ) && obs.at(index as int).block_timestamp != ((time - seconds_ago) as u32) as u64
        ==> transform_safe(
        obs.at(index as int),
        ((time - seconds_ago) as u32) as u64,
        tick,
        liquidity,
    )))
}

/// The target of a lookup precedes the oldest recorded sample: the one
/// condition under which a nonzero lookback fails.
pub open spec fn too_old(
    obs: Observations,
    time: u64,
    seconds_ago: u64,
    index: u16,
    cardinality: u16,
) -> bool {
    let target = (time - seconds_ago) as u32;
    !lte_spec(time, obs.at(index as int).block_timestamp as u32, target) && !lte_spec(
        time,
        oldest_of(obs, index, cardinality).block_timestamp as u32,
        target,
    )
}

/// What a successful lookup returns: the freshest observation, extended
/// to the requested time when it is strictly older, for a zero lookback;
/// otherwise a stored sample at the target, or a linear interpolation
/// between the pair of samples surrounding it.
pub open spec fn single_result_spec(
    obs: Observations,
    time: u64,
    seconds_ago: u64,
    tick: i32,
    index: u16,
    liquidity: u128,
    cardinality: u16,
    tc: i64,
    spl: U256,
) -> bool {
    if seconds_ago == 0 {
        let last = obs.at(index as int);
        if last.block_timestamp == time {
            tc == last.tick_cumulative && spl == last.seconds_per_liquidity_cumulative_x128
        } else {
            tc == last.tick_cumulative + tick * (time - last.block_timestamp) && spl.v()
                == transform_spl_spec(last, time, liquidity)
        }
    } else {
        let target = (time - seconds_ago) as u32;
        let newest = obs.at(index as int);
        ||| (exists|j: int|
            #[trigger] brackets(obs, time, target, j, cardinality) && ({
                let before = ring_at(obs, j, cardinality);
                let after = ring_at(obs, j + 1, cardinality);
                ||| (target as u64 == before.block_timestamp && tc == before.tick_cumulative
                    && spl == before.seconds_per_liquidity_cumulative_x128)
                ||| (target as u64 == after.block_timestamp && tc == after.tick_cumulative
                    && spl == after.seconds_per_liquidity_cumulative_x128)
                ||| (before.block_timestamp < (target as u64) < after.block_timestamp && tc
                    == interp_tc_spec(before, after, target as u64) && spl.v()
                    == interp_spl_spec(before, after, target as u64))
            }))
        ||| (lte_spec(time, newest.block_timestamp as u32, target) && (newest.block_timestamp
            == target as u64 ==> tc == newest.tick_cumulative && spl
            == newest.seconds_per_liquidity_cumulative_x128) && (newest.block_timestamp
            != target as u64 ==> tc == newest.tick_cumulative + tick * (target as u64
            - newest.block_timestamp) && spl.v() == transform_spl_spec(
            newest,
            target as u64,
            liquidity,
        )))
    }
}

/// The cumulative values as of `seconds_ago` before `time`: the freshest
/// observation (extended to now) for zero, an exact stored sample when
/// one exists, and a linear interpolation between the surrounding pair
/// otherwise.
pub fn observe_single(
    obs: &Observations,
    time: u64,
    seconds_ago: u64,
    tick: i32,
    index: u16,
    liquidity: u128,
    cardinality: u16,
) -> (r: Result<(i64, U256), Error>)
    requires
        cardinality >= 1,
        index < cardinality,
        single_safe(*obs, time, seconds_ago, tick, index, liquidity, cardinality),
    ensures
        r is Ok ==> single_result_spec(
            *obs,
            time,
            seconds_ago,
            tick,
            index,
            liquidity,
            cardinality,
            r->Ok_0.0,
            r->Ok_0.1,
        ),
        seconds_ago == 0 ==> r is Ok,
        seconds_ago != 0 ==> (r is Err <==> too_old(*obs, time, seconds_ago, index, cardinality)),
        r is Err ==> r == Result::<(i64, U256), Error>::Err(Error::ErrOld),
{
    if seconds_ago == 0 {
        let mut last = obs.get(index as u64);
        if last.block_timestamp != time {
            last = transform(&last, time, tick, liquidity);
        }
        return Ok((last.tick_cumulative, last.seconds_per_liquidity_cumulative_x128));
    }
    let target_wide = time - seconds_ago;
    let target = target_wide as u32;
    let (before_or_at, at_or_after) = match get_surrounding_observations(
        obs,
        time,
        target,
        tick,
        index,
        liquidity,
        cardinality,
    ) {
        Ok(pair) => pair,
        Err(e) => {
            return Err(e);
        },
    };
    if target as u64 == before_or_at.block_timestamp {
        Ok((before_or_at.tick_cumulative, before_or_at.seconds_per_liquidity_cumulative_x128))
    } else if target as u64 == at_or_after.block_timestamp {
        Ok((at_or_after.tick_cumulative, at_or_after.seconds_per_liquidity_cumulative_x128))
    } else {
        proof {
            lemma_v_bound(before_or_at.seconds_per_liquidity_cumulative_x128);
            lemma_v_bound(at_or_after.seconds_per_liquidity_cumulative_x128);
            let l0 = ((index + 1) as int) % (cardinality as int);
            let newest = obs.at(index as int);
            assert(!lte_spec(time, newest.block_timestamp as u32, target));
            let j = choose|j: int|
                l0 <= j < l0 + cardinality - 1 && #[trigger] brackets(
                    *obs,
                    time,
                    target,
                    j,
                    cardinality,
                ) && before_or_at == ring_at(*obs, j, cardinality) && at_or_after == ring_at(
                    *obs,
                    j + 1,
                    cardinality,
                );
            assert(pair_safe(before_or_at, at_or_after, target as u64));
        }
        let observation_time_delta = at_or_after.block_timestamp - before_or_at.block_timestamp;
        let target_delta = (target as u64) - before_or_at.block_timestamp;
        let d128 = (at_or_after.tick_cumulative as i128) - (before_or_at.tick_cumulative as i128);
        let mag: u64 = if d128 >= 0 {
            d128 as u64
        } else {
            (-d128) as u64
        };
        proof {
            lemma_quotient_scaled_le(
                mag as nat,
                observation_time_delta as nat,
                target_delta as nat,
            );
        }
        let contribution = (mag / observation_time_delta) * target_delta;
        proof {
            if d128 >= 0 {
                assert(before_or_at.tick_cumulative + contribution
                    <= at_or_after.tick_cumulative);
            } else {
                assert(before_or_at.tick_cumulative - contribution
                    >= at_or_after.tick_cumulative);
            }
        }
        let tc_wide = if d128 >= 0 {
            (before_or_at.tick_cumulative as i128) + (contribution as i128)
        } else {
            (before_or_at.tick_cumulative as i128) - (contribution as i128)
        };
        let tick_cumulative = tc_wide as i64;
        let spl_delta = at_or_after.seconds_per_liquidity_cumulative_x128.sub_u(
            &before_or_at.seconds_per_liquidity_cumulative_x128,
        );
        let scaled = spl_delta.mul_u(&U256::from_u64(target_delta));
        let quotient = scaled.div_u(&U256::from_u64(observation_time_delta));
        proof {
            lemma_scaled_le(
                spl_delta.v(),
                target_delta as nat,
                observation_time_delta as nat,
            );
        }
        let spl = before_or_at.seconds_per_liquidity_cumulative_x128.add_u(&quotient);
        Ok((tick_cumulative, spl))
    }
}

/// `(x / d) * t <= x` when `t <= d`.
proof fn lemma_quotient_scaled_le(x: nat, d: nat, t: nat)
    requires
        d > 0,
        t <= d,
    ensures
        (x / d) * t <= x,
{
    lemma_fundamental_div_mod(x as int, d as int);
    lemma_mod_division_less_than_divisor(x as int, d as int);
    assert((x / d) * t <= x) by (nonlinear_arith)
        requires
            x == (d as int) * ((x as int) / (d as int)) + (x as int) % (d as int),
            0 <= (x as int) % (d as int),
            t <= d,
            d > 0,
            x >= 0,
    ;
}

/// `x * a / b <= x` when `a <= b`.
proof fn lemma_scaled_le(x: nat, a: nat, b: nat)
    requires
        b > 0,
        a <= b,
    ensures
        x * a / b <= x,
{
    lemma_fundamental_div_mod((x * a) as int, b as int);
    lemma_mod_division_less_than_divisor((x * a) as int, b as int);
    assert(x * a / b <= x) by (nonlinear_arith)
        requires
            (x * a) as int == (b as int) * ((x * a) as int / (b as int)) + (x * a) as int % (
            b as int),
            0 <= (x * a) as int % (b as int),
            a <= b,
            b > 0,
            x >= 0,
    ;
}

/// Maps `observe_single` over a list of lookback offsets: element `k` of
/// each output is the lookup at `seconds_agos[k]`, and the whole call
/// succeeds exactly when every requested target is still recorded.
pub fn observe(
    obs: &Observations,
    time: u64,
    seconds_agos: &Vec<u32>,
    tick: i32,
    index: u16,
    liquidity: u128,
    cardinality: u16,
) -> (r: Result<(Vec<i64>, Vec<U256>), Error>)
    requires
        index < cardinality,
        forall|k: int|
            0 <= k < seconds_agos@.len() ==> single_safe(
                *obs,
                time,
                #[trigger] seconds_agos@[k] as u64,
                tick,
                index,
                liquidity,
                cardinality,
            ),
    ensures
        cardinality == 0 ==> r == Result::<(Vec<i64>, Vec<U256>), Error>::Err(Error::ErrI),
        cardinality > 0 ==> (r is Ok <==> forall|k: int|
            0 <= k < seconds_agos@.len() ==> !(#[trigger] seconds_agos@[k] as u64 != 0 && too_old(
                *obs,
                time,
                seconds_agos@[k] as u64,
                index,
                cardinality,
            ))),
        cardinality > 0 && r is Err ==> r == Result::<(Vec<i64>, Vec<U256>), Error>::Err(
            Error::ErrOld,
        ),
        r is Ok ==> r->Ok_0.0@.len() == seconds_agos@.len() && r->Ok_0.1@.len()
            == seconds_agos@.len() && forall|k: int|
            0 <= k < seconds_agos@.len() ==> single_result_spec(
                *obs,
                time,
                #[trigger] seconds_agos@[k] as u64,
                tick,
                index,
                liquidity,
                cardinality,
                r->Ok_0.0@[k],
                r->Ok_0.1@[k],
            ),
{
    if cardinality == 0 {
        return Err(Error::ErrI);
    }
    let mut tick_cumulatives: Vec<i64> = Vec::new();
    let mut spls: Vec<U256> = Vec::new();
    let n = seconds_agos.len();
    for k in 0..n
        invariant
            n == seconds_agos@.len(),
            tick_cumulatives@.len() == k,
            spls@.len() == k,
            cardinality >= 1,
            index < cardinality,
            forall|j: int|
                0 <= j < seconds_agos@.len() ==> single_safe(
                    *obs,
                    time,
                    #[trigger] seconds_agos@[j] as u64,
                    tick,
                    index,
                    liquidity,
                    cardinality,
                ),
            forall|j: int|
                0 <= j < k ==> !(#[trigger] seconds_agos@[j] as u64 != 0 && too_old(
                    *obs,
                    time,
                    seconds_agos@[j] as u64,
                    index,
                    cardinality,
                )),
            forall|j: int|
                0 <= j < k ==> single_result_spec(
                    *obs,
                    time,
                    #[trigger] seconds_agos@[j] as u64,
                    tick,
                    index,
                    liquidity,
                    cardinality,
                    tick_cumulatives@[j],
                    spls@[j],
                ),
    {
        let (tc, spl) = match observe_single(
            obs,
            time,
            seconds_agos[k] as u64,
            tick,
            index,
            liquidity,
            cardinality,
        ) {
            Ok(pair) => pair,
            Err(e) => {
                return Err(e);
            },
        };
        tick_cumulatives.push(tc);
        spls.push(spl);
    }
    Ok((tick_cumulatives, spls))
}

} // verus!
