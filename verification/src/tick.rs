//! Per-tick state: aggregate liquidity, fee growth on the far side, and
//! the bookkeeping updated when the price crosses the tick.

use vstd::prelude::*;
use vstd::arithmetic::div_mod::*;

use crate::error::Error;
use crate::i128::I128;
use crate::liquidity_math::add_delta;
use crate::u256::{U256, lemma_v_bound, p128, p256};

verus! {

/// Everything the pool tracks for one initialized tick.
#[derive(Clone, Copy, PartialEq, Eq, Structural, Debug)]
pub struct TickInfo {
    pub liquidity_gross: u128,
    pub liquidity_net: I128,
    pub fee_growth_outside0_x128: U256,
    pub fee_growth_outside1_x128: U256,
    pub tick_cumulative_outside: i64,
    pub seconds_per_liquidity_outside_x128: U256,
    pub seconds_outside: u32,
    pub initialized: bool,
}

impl TickInfo {
    /// The state of a tick nothing has touched.
    pub open spec fn spec_empty() -> TickInfo {
        TickInfo {
            liquidity_gross: 0,
            liquidity_net: I128(0),
            fee_growth_outside0_x128: U256::spec_zero(),
            fee_growth_outside1_x128: U256::spec_zero(),
            tick_cumulative_outside: 0,
            seconds_per_liquidity_outside_x128: U256::spec_zero(),
            seconds_outside: 0,
            initialized: false,
        }
    }

    pub fn empty() -> (r: TickInfo)
        ensures
            r == TickInfo::spec_empty(),
    {
        TickInfo {
            liquidity_gross: 0,
            liquidity_net: I128(0),
            fee_growth_outside0_x128: U256 { lo: 0, hi: 0 },
            fee_growth_outside1_x128: U256 { lo: 0, hi: 0 },
            tick_cumulative_outside: 0,
            seconds_per_liquidity_outside_x128: U256 { lo: 0, hi: 0 },
            seconds_outside: 0,
            initialized: false,
        }
    }
}

/// Wrapping difference modulo 2^256: the "outside" trackers rely on it.
pub open spec fn wsub(a: nat, b: nat) -> nat {
    if a >= b {
        (a - b) as nat
    } else {
        (a + p256() - b) as nat
    }
}

/// The info stored for `key`; untouched ticks read as empty.
pub open spec fn tick_lookup(s: Seq<(i32, TickInfo)>, key: int) -> TickInfo
    decreases s.len(),
{
    if s.len() == 0 {
        TickInfo::spec_empty()
    } else if s[0].0 == key {
        s[0].1
    } else {
        tick_lookup(s.drop_first(), key)
    }
}

proof fn lemma_tick_lookup_skip(s: Seq<(i32, TickInfo)>, k: int, key: int)
    requires
        0 <= k <= s.len(),
        forall|j: int| 0 <= j < k ==> (#[trigger] s[j]).0 != key,
    ensures
        tick_lookup(s, key) == tick_lookup(s.skip(k), key),
    decreases k,
{
    if k > 0 {
        assert(forall|j: int| 0 <= j < k - 1 ==> (#[trigger] s.skip(1)[j]).0 != key);
        lemma_tick_lookup_skip(s.skip(1), k - 1, key);
        assert(s.skip(1).skip(k - 1) =~= s.skip(k));
        assert(s.drop_first() =~= s.skip(1));
    } else {
        assert(s.skip(0) =~= s);
    }
}

proof fn lemma_tick_lookup_hit(s: Seq<(i32, TickInfo)>, i: int, key: int)
    requires
        0 <= i < s.len(),
        s[i].0 == key,
        forall|j: int| 0 <= j < i ==> (#[trigger] s[j]).0 != key,
    ensures
        tick_lookup(s, key) == s[i].1,
{
    lemma_tick_lookup_skip(s, i, key);
    assert(s.skip(i)[0] == s[i]);
}

proof fn lemma_tick_lookup_frame(s1: Seq<(i32, TickInfo)>, s2: Seq<(i32, TickInfo)>, i: int, key: int)
    requires
        0 <= i < s1.len(),
        s2.len() == s1.len(),
        forall|j: int| 0 <= j < s1.len() && j != i ==> s1[j] == s2[j],
        s1[i].0 == s2[i].0,
        s1[i].0 != key,
    ensures
        tick_lookup(s1, key) == tick_lookup(s2, key),
    decreases s1.len(),
{
    if s1.len() > 0 {
        if i == 0 {
            assert(forall|j: int|
                0 <= j < s1.drop_first().len() ==> s1.drop_first()[j] == s2.drop_first()[j]);
            assert(s1.drop_first() =~= s2.drop_first());
        } else {
            assert(s1[0] == s2[0]);
            lemma_tick_lookup_frame(s1.drop_first(), s2.drop_first(), i - 1, key);
        }
    }
}

proof fn lemma_tick_lookup_push(s: Seq<(i32, TickInfo)>, entry: (i32, TickInfo), key: int)
    requires
        entry.0 != key,
    ensures
        tick_lookup(s.push(entry), key) == tick_lookup(s, key),
    decreases s.len(),
{
    if s.len() == 0 {
        assert(s.push(entry)[0] == entry);
        assert(s.push(entry).drop_first() =~= s);
    } else {
        assert(s.push(entry)[0] == s[0]);
        assert(s.push(entry).drop_first() =~= s.drop_first().push(entry));
        lemma_tick_lookup_push(s.drop_first(), entry, key);
    }
}

/// All per-tick records of a pool.
pub struct Ticks {
    pub entries: Vec<(i32, TickInfo)>,
}

impl Ticks {
    /// The record of a tick; untouched ticks read as empty.
    pub open spec fn at(self, t: int) -> TickInfo {
        tick_lookup(self.entries@, t)
    }

    pub fn new() -> (r: Ticks)
        ensures
            forall|t: int| r.at(t) == TickInfo::spec_empty(),
    {
        Ticks { entries: Vec::new() }
    }

    pub fn get(&self, t: i32) -> (r: TickInfo)
        ensures
            r == self.at(t as int),
    {
        let n = self.entries.len();
        for i in 0..n
            invariant
                n == self.entries@.len(),
                forall|j: int| 0 <= j < i ==> (#[trigger] self.entries@[j]).0 != t,
        {
            if self.entries[i].0 == t {
                proof {
                    lemma_tick_lookup_hit(self.entries@, i as int, t as int);
                }
                return self.entries[i].1;
            }
        }
        proof {
            lemma_tick_lookup_skip(self.entries@, self.entries@.len() as int, t as int);
        }
        TickInfo::empty()
    }

    pub fn set(&mut self, t: i32, info: TickInfo)
        ensures
            final(self).at(t as int) == info,
            forall|o: int| o != t as int ==> final(self).at(o) == old(self).at(o),
    {
        let n = self.entries.len();
        for i in 0..n
            invariant
                n == self.entries@.len(),
                *self == *old(self),
                forall|j: int| 0 <= j < i ==> (#[trigger] self.entries@[j]).0 != t,
        {
            if self.entries[i].0 == t {
                let ghost prev = self.entries@;
                self.entries.set(i, (t, info));
                proof {
                    lemma_tick_lookup_hit(prev, i as int, t as int);
                    lemma_tick_lookup_hit(self.entries@, i as int, t as int);
                    assert forall|o: int| o != t as int implies tick_lookup(self.entries@, o)
                        == tick_lookup(prev, o) by {
                        lemma_tick_lookup_frame(prev, self.entries@, i as int, o);
                    }
                }
                return ;
            }
        }
        let ghost prev = self.entries@;
        self.entries.push((t, info));
        proof {
            lemma_tick_lookup_skip(prev, prev.len() as int, t as int);
            lemma_tick_lookup_hit(self.entries@, prev.len() as int, t as int);
            assert forall|o: int| o != t as int implies tick_lookup(self.entries@, o)
                == tick_lookup(prev, o) by {
                lemma_tick_lookup_push(prev, (t, info), o);
            }
        }
    }
}

/// The cap on a single tick's aggregate liquidity:
/// `u128::MAX / number of usable ticks` for the spacing.
pub fn tick_spacing_to_max_liquidity_per_tick(tick_spacing: i32) -> (r: u128)
    requires
        1 <= tick_spacing <= 0x8000,
    ensures
        r == (p128() - 1) as nat / (2 * (887272nat / (tick_spacing as nat)) + 1),
{
    let q = 887272u32 / (tick_spacing as u32);
    let num_ticks = 2 * q + 1;
    u128::MAX / (num_ticks as u128)
}

/// Fee growth of token0 accumulated strictly inside a tick range, by
/// wrapping subtraction of both sides' "outside" trackers from the total.
pub open spec fn fee_growth_inside0_spec(
    ticks: Ticks,
    tick_lower: int,
    tick_upper: int,
    tick_current: int,
    g0: nat,
) -> nat {
    let lo = ticks.at(tick_lower);
    let up = ticks.at(tick_upper);
    let below = if tick_current >= tick_lower {
        lo.fee_growth_outside0_x128.v()
    } else {
        wsub(g0, lo.fee_growth_outside0_x128.v())
    };
    let above = if tick_current < tick_upper {
        up.fee_growth_outside0_x128.v()
    } else {
        wsub(g0, up.fee_growth_outside0_x128.v())
    };
    wsub(wsub(g0, below), above)
}

/// Fee growth of token1 accumulated strictly inside a tick range.
pub open spec fn fee_growth_inside1_spec(
    ticks: Ticks,
    tick_lower: int,
    tick_upper: int,
    tick_current: int,
    g1: nat,
) -> nat {
    let lo = ticks.at(tick_lower);
    let up = ticks.at(tick_upper);
    let below = if tick_current >= tick_lower {
        lo.fee_growth_outside1_x128.v()
    } else {
        wsub(g1, lo.fee_growth_outside1_x128.v())
    };
    let above = if tick_current < tick_upper {
        up.fee_growth_outside1_x128.v()
    } else {
        wsub(g1, up.fee_growth_outside1_x128.v())
    };
    wsub(wsub(g1, below), above)
}

/// Fee growth accumulated inside a tick range, one value per token, by
/// wrapping subtraction of the two sides' "outside" trackers from the
/// global total.
pub fn get_fee_growth_inside(
    ticks: &Ticks,
    tick_lower: i32,
    tick_upper: i32,
    tick_current: i32,
    fee_growth_global0_x128: &U256,
    fee_growth_global1_x128: &U256,
) -> (r: (U256, U256))
    ensures
        r.0.v() == fee_growth_inside0_spec(
            *ticks,
            tick_lower as int,
            tick_upper as int,
            tick_current as int,
            fee_growth_global0_x128.v(),
        ),
        r.1.v() == fee_growth_inside1_spec(
            *ticks,
            tick_lower as int,
            tick_upper as int,
            tick_current as int,
            fee_growth_global1_x128.v(),
        ),
{
    let lower = ticks.get(tick_lower);
    let upper = ticks.get(tick_upper);
    let (below0, below1) = if tick_current >= tick_lower {
        (lower.fee_growth_outside0_x128, lower.fee_growth_outside1_x128)
    } else {
        (
            fee_growth_global0_x128.wrapping_sub(&lower.fee_growth_outside0_x128),
            fee_growth_global1_x128.wrapping_sub(&lower.fee_growth_outside1_x128),
        )
    };
    let (above0, above1) = if tick_current < tick_upper {
        (upper.fee_growth_outside0_x128, upper.fee_growth_outside1_x128)
    } else {
        (
            fee_growth_global0_x128.wrapping_sub(&upper.fee_growth_outside0_x128),
            fee_growth_global1_x128.wrapping_sub(&upper.fee_growth_outside1_x128),
        )
    };
    let inside0 = fee_growth_global0_x128.wrapping_sub(&below0).wrapping_sub(&above0);
    let inside1 = fee_growth_global1_x128.wrapping_sub(&below1).wrapping_sub(&above1);
    (inside0, inside1)
}

/// Applies a liquidity change to one tick.  Returns whether the tick
/// changed between empty and initialized.  Seeds the "outside" trackers
/// from the globals when a tick at or below the current price first
/// receives liquidity.
#[verifier::rlimit(30)]
pub fn update(
    ticks: &mut Ticks,
    tick: i32,
    tick_current: i32,
    liquidity_delta: i128,
    fee_growth_global0_x128: &U256,
    fee_growth_global1_x128: &U256,
    seconds_per_liquidity_cumulative_x128: &U256,
    tick_cumulative: i64,
    time: u64,
    upper: bool,
    max_liquidity: u128,
) -> (r: Result<bool, Error>)
    requires
        ({
            let net = old(ticks).at(tick as int).liquidity_net.iv();
            if upper {
                i128::MIN <= net - liquidity_delta <= i128::MAX
            } else {
                i128::MIN <= net + liquidity_delta <= i128::MAX
            }
        }),
    ensures
        ({
            let before = old(ticks).at(tick as int);
            let gross_after = before.liquidity_gross + liquidity_delta;
            &&& (r is Err ==> *final(ticks) == *old(ticks))
            &&& (!(0 <= gross_after < p128()) ==> r is Err)
            &&& (0 <= gross_after < p128() && gross_after > max_liquidity ==> r == Result::<
                bool,
                Error,
            >::Err(Error::ErrLO))
            &&& (0 <= gross_after <= max_liquidity && gross_after < p128() ==> {
                let flipped = (gross_after == 0) != (before.liquidity_gross == 0);
                let seeded = before.liquidity_gross == 0 && tick <= tick_current;
                let after = final(ticks).at(tick as int);
                &&& r == Result::<bool, Error>::Ok(flipped)
                &&& after.liquidity_gross == gross_after
                &&& after.liquidity_net.iv() == (if upper {
                    before.liquidity_net.iv() - liquidity_delta
                } else {
                    before.liquidity_net.iv() + liquidity_delta
                })
                &&& after.initialized == (before.initialized || before.liquidity_gross == 0)
                &&& after.fee_growth_outside0_x128 == (if seeded {
                    *fee_growth_global0_x128
                } else {
                    before.fee_growth_outside0_x128
                })
                &&& after.fee_growth_outside1_x128 == (if seeded {
                    *fee_growth_global1_x128
                } else {
                    before.fee_growth_outside1_x128
                })
                &&& after.seconds_per_liquidity_outside_x128 == (if seeded {
                    *seconds_per_liquidity_cumulative_x128
                } else {
                    before.seconds_per_liquidity_outside_x128
                })
                &&& after.tick_cumulative_outside == (if seeded {
                    tick_cumulative
                } else {
                    before.tick_cumulative_outside
                })
                &&& after.seconds_outside == (if seeded {
                    time as u32
                } else {
                    before.seconds_outside
                })
                &&& forall|o: int| o != tick as int ==> final(ticks).at(o) == old(ticks).at(o)
            })
        }),
{
    let mut info = ticks.get(tick);
    let liquidity_gross_before = info.liquidity_gross;
    let liquidity_gross_after = match add_delta(liquidity_gross_before, liquidity_delta) {
        Ok(x) => x,
        Err(e) => {
            return Err(e);
        },
    };
    if liquidity_gross_after > max_liquidity {
        return Err(Error::ErrLO);
    }
    let flipped = (liquidity_gross_after == 0) != (liquidity_gross_before == 0);
    if liquidity_gross_before == 0 {
        if tick <= tick_current {
            info.fee_growth_outside0_x128 = *fee_growth_global0_x128;
            info.fee_growth_outside1_x128 = *fee_growth_global1_x128;
            info.seconds_per_liquidity_outside_x128 = *seconds_per_liquidity_cumulative_x128;
            info.tick_cumulative_outside = tick_cumulative;
            info.seconds_outside = time as u32;
        }
        info.initialized = true;
    }
    info.liquidity_gross = liquidity_gross_after;
    info.liquidity_net = if upper {
        info.liquidity_net.sub_i(liquidity_delta)
    } else {
        info.liquidity_net.add_i(liquidity_delta)
    };
    ticks.set(tick, info);
    Ok(flipped)
}

/// Forgets a tick's record entirely.
pub fn clear(ticks: &mut Ticks, tick: i32)
    ensures
        final(ticks).at(tick as int) == TickInfo::spec_empty(),
        forall|o: int| o != tick as int ==> final(ticks).at(o) == old(ticks).at(o),
{
    ticks.set(tick, TickInfo::empty());
}

/// Crossing a tick mirrors every "outside" tracker to the other side of
/// the current price and hands back the signed liquidity to apply.
pub fn cross(
    ticks: &mut Ticks,
    tick: i32,
    fee_growth_global0_x128: &U256,
    fee_growth_global1_x128: &U256,
    seconds_per_liquidity_cumulative_x128: &U256,
    tick_cumulative: i64,
    time: u64,
) -> (r: i128)
    ensures
        ({
            let before = old(ticks).at(tick as int);
            let after = final(ticks).at(tick as int);
            &&& r == before.liquidity_net.iv()
            &&& after.fee_growth_outside0_x128.v() == wsub(
                fee_growth_global0_x128.v(),
                before.fee_growth_outside0_x128.v(),
            )
            &&& after.fee_growth_outside1_x128.v() == wsub(
                fee_growth_global1_x128.v(),
                before.fee_growth_outside1_x128.v(),
            )
            &&& after.seconds_per_liquidity_outside_x128.v() == wsub(
                seconds_per_liquidity_cumulative_x128.v(),
                before.seconds_per_liquidity_outside_x128.v(),
            )
            &&& after.tick_cumulative_outside == tick_cumulative.wrapping_sub(
                before.tick_cumulative_outside,
            )
            &&& after.seconds_outside == (time as u32).wrapping_sub(before.seconds_outside)
            &&& after.liquidity_gross == before.liquidity_gross
            &&& after.liquidity_net == before.liquidity_net
            &&& after.initialized == before.initialized
            &&& forall|o: int| o != tick as int ==> final(ticks).at(o) == old(ticks).at(o)
        }),
{
    let mut info = ticks.get(tick);
    info.fee_growth_outside0_x128 = fee_growth_global0_x128.wrapping_sub(
        &info.fee_growth_outside0_x128,
    );
    info.fee_growth_outside1_x128 = fee_growth_global1_x128.wrapping_sub(
        &info.fee_growth_outside1_x128,
    );
    info.seconds_per_liquidity_outside_x128 = seconds_per_liquidity_cumulative_x128.wrapping_sub(
        &info.seconds_per_liquidity_outside_x128,
    );
    info.tick_cumulative_outside = tick_cumulative.wrapping_sub(info.tick_cumulative_outside);
    info.seconds_outside = (time as u32).wrapping_sub(info.seconds_outside);
    let net = info.liquidity_net.value();
    ticks.set(tick, info);
    net
}

/// Law: crossing a tick conserves fee growth.  The new "outside" tracker
/// plus the amount that was outside before the cross add up to the global
/// total, modulo 2^256 — whatever side of the tick the price is on.
pub proof fn lemma_cross_fee_growth_conservation(global: nat, outside_before: nat)
    requires
        global < p256(),
        outside_before < p256(),
    ensures
        (wsub(global, outside_before) + outside_before) % p256() == global,
{
    crate::u256::lemma_pow2_words();
    vstd::arithmetic::power2::lemma_pow2_pos(256);
    if global >= outside_before {
        lemma_small_mod(global, p256());
    } else {
        lemma_mod_multiples_vanish(1, global as int, p256() as int);
        lemma_small_mod(global, p256());
    }
}

} // verus!
