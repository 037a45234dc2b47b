//! Per-position accounting: liquidity, fee-growth snapshots and tokens
//! owed to the owner.

use vstd::prelude::*;
use vstd::arithmetic::div_mod::*;
use vstd::arithmetic::power2::*;

use crate::error::Error;
use crate::fullmath::{mul_div, q128};
use crate::liquidity_math::add_delta;
use crate::tick::wsub;
use crate::u256::{U256, lemma_pow2_words, lemma_v_bound, p128, p256};

verus! {

/// The record of one (owner, lower, upper) position.
#[derive(Clone, Copy, PartialEq, Eq, Structural, Debug)]
pub struct PositionInfo {
    pub liquidity: u128,
    pub fee_growth_inside0_last_x128: U256,
    pub fee_growth_inside1_last_x128: U256,
    pub tokens_owed0: u128,
    pub tokens_owed1: u128,
}

impl PositionInfo {
    pub open spec fn spec_empty() -> PositionInfo {
        PositionInfo {
            liquidity: 0,
            fee_growth_inside0_last_x128: U256::spec_zero(),
            fee_growth_inside1_last_x128: U256::spec_zero(),
            tokens_owed0: 0,
            tokens_owed1: 0,
        }
    }

    pub fn empty() -> (r: PositionInfo)
        ensures
            r == PositionInfo::spec_empty(),
    {
        PositionInfo {
            liquidity: 0,
            fee_growth_inside0_last_x128: U256 { lo: 0, hi: 0 },
            fee_growth_inside1_last_x128: U256 { lo: 0, hi: 0 },
            tokens_owed0: 0,
            tokens_owed1: 0,
        }
    }
}

/// Fees newly owed to a position: the wrapped fee-growth delta times its
/// liquidity, in Q128.128.  The quotient is deliberately truncated to its
/// low 128 bits: the owed counters themselves accrue with wrapping
/// addition by design, so a delta past 128 bits folds the same way
/// instead of aborting, and owners are expected to collect long before
/// either bound.
pub open spec fn owed_delta(growth_now: nat, growth_last: nat, liquidity: nat) -> nat {
    (wsub(growth_now, growth_last) * liquidity / pow2(128)) % p128()
}

/// Credits accrued fees and applies a liquidity change to a position.
///
/// A zero delta on an empty position fails with `ErrNP`; the tokens-owed
/// counters accrue with wrapping addition (the documented overflow: the
/// owner must collect before they wrap).
pub fn update(
    info: &mut PositionInfo,
    liquidity_delta: i128,
    fee_growth_inside0_x128: &U256,
    fee_growth_inside1_x128: &U256,
) -> (r: Result<(), Error>)
    ensures
        ({
            let before = *old(info);
            let next_liq = before.liquidity + liquidity_delta;
            &&& (liquidity_delta == 0 && before.liquidity == 0 ==> r == Result::<(), Error>::Err(
                Error::ErrNP,
            ) && *final(info) == before)
            &&& (liquidity_delta != 0 && !(0 <= next_liq < p128()) ==> r is Err && *final(info)
                == before)
            &&& ((liquidity_delta == 0 && before.liquidity > 0) || (liquidity_delta != 0 && 0
                <= next_liq < p128()) ==> {
                let owed0 = owed_delta(
                    fee_growth_inside0_x128.v(),
                    before.fee_growth_inside0_last_x128.v(),
                    before.liquidity as nat,
                );
                let owed1 = owed_delta(
                    fee_growth_inside1_x128.v(),
                    before.fee_growth_inside1_last_x128.v(),
                    before.liquidity as nat,
                );
                &&& r is Ok
                &&& final(info).liquidity == (if liquidity_delta == 0 {
                    before.liquidity as int
                } else {
                    next_liq
                })
                &&& final(info).fee_growth_inside0_last_x128 == *fee_growth_inside0_x128
                &&& final(info).fee_growth_inside1_last_x128 == *fee_growth_inside1_x128
                &&& final(info).tokens_owed0 == (if owed0 > 0 || owed1 > 0 {
                    before.tokens_owed0.wrapping_add(owed0 as u128)
                } else {
                    before.tokens_owed0
                })
                &&& final(info).tokens_owed1 == (if owed0 > 0 || owed1 > 0 {
                    before.tokens_owed1.wrapping_add(owed1 as u128)
                } else {
                    before.tokens_owed1
                })
            })
        }),
{
    let liquidity_next = if liquidity_delta == 0 {
        if info.liquidity == 0 {
            return Err(Error::ErrNP);
        }
        info.liquidity
    } else {
        match add_delta(info.liquidity, liquidity_delta) {
            Ok(x) => x,
            Err(e) => {
                return Err(e);
            },
        }
    };
    let scale = q128();
    proof {
        lemma_pow2_words();
        lemma_pow2_pos(128);
    }
    let delta0 = fee_growth_inside0_x128.wrapping_sub(&info.fee_growth_inside0_last_x128);
    let delta1 = fee_growth_inside1_x128.wrapping_sub(&info.fee_growth_inside1_last_x128);
    proof {
        lemma_owed_fits(delta0.v(), info.liquidity as nat);
        lemma_owed_fits(delta1.v(), info.liquidity as nat);
    }
    let tokens_owed0 = match mul_div(&delta0, &U256::from_u128(info.liquidity), &scale) {
        Ok(x) => x.low_u128(),
        Err(_) => {
            proof {
                assert(false);
            }
            0
        },
    };
    let tokens_owed1 = match mul_div(&delta1, &U256::from_u128(info.liquidity), &scale) {
        Ok(x) => x.low_u128(),
        Err(_) => {
            proof {
                assert(false);
            }
            0
        },
    };
    if liquidity_delta != 0 {
        info.liquidity = liquidity_next;
    }
    info.fee_growth_inside0_last_x128 = *fee_growth_inside0_x128;
    info.fee_growth_inside1_last_x128 = *fee_growth_inside1_x128;
    if tokens_owed0 > 0 || tokens_owed1 > 0 {
        info.tokens_owed0 = info.tokens_owed0.wrapping_add(tokens_owed0);
        info.tokens_owed1 = info.tokens_owed1.wrapping_add(tokens_owed1);
    }
    Ok(())
}

/// A position key: owner account, lower tick, upper tick.
pub type PositionKey = (u64, i32, i32);

/// The record stored for `key`; untouched positions read as empty.
pub open spec fn position_lookup(s: Seq<(PositionKey, PositionInfo)>, key: PositionKey) -> PositionInfo
    decreases s.len(),
{
    if s.len() == 0 {
        PositionInfo::spec_empty()
    } else if s[0].0 == key {
        s[0].1
    } else {
        position_lookup(s.drop_first(), key)
    }
}

proof fn lemma_position_lookup_skip(s: Seq<(PositionKey, PositionInfo)>, k: int, key: PositionKey)
    requires
        0 <= k <= s.len(),
        forall|j: int| 0 <= j < k ==> (#[trigger] s[j]).0 != key,
    ensures
        position_lookup(s, key) == position_lookup(s.skip(k), key),
    decreases k,
{
    if k > 0 {
        assert(forall|j: int| 0 <= j < k - 1 ==> (#[trigger] s.skip(1)[j]).0 != key);
        lemma_position_lookup_skip(s.skip(1), k - 1, key);
        assert(s.skip(1).skip(k - 1) =~= s.skip(k));
        assert(s.drop_first() =~= s.skip(1));
    } else {
        assert(s.skip(0) =~= s);
    }
}

proof fn lemma_position_lookup_hit(s: Seq<(PositionKey, PositionInfo)>, i: int, key: PositionKey)
    requires
        0 <= i < s.len(),
        s[i].0 == key,
        forall|j: int| 0 <= j < i ==> (#[trigger] s[j]).0 != key,
    ensures
        position_lookup(s, key) == s[i].1,
{
    lemma_position_lookup_skip(s, i, key);
    assert(s.skip(i)[0] == s[i]);
}

proof fn lemma_position_lookup_frame(
    s1: Seq<(PositionKey, PositionInfo)>,
    s2: Seq<(PositionKey, PositionInfo)>,
    i: int,
    key: PositionKey,
)
    requires
        0 <= i < s1.len(),
        s2.len() == s1.len(),
        forall|j: int| 0 <= j < s1.len() && j != i ==> s1[j] == s2[j],
        s1[i].0 == s2[i].0,
        s1[i].0 != key,
    ensures
        position_lookup(s1, key) == position_lookup(s2, key),
    decreases s1.len(),
{
    if s1.len() > 0 {
        if i == 0 {
            assert(forall|j: int|
                0 <= j < s1.drop_first().len() ==> s1.drop_first()[j] == s2.drop_first()[j]);
            assert(s1.drop_first() =~= s2.drop_first());
        } else {
            assert(s1[0] == s2[0]);
            lemma_position_lookup_frame(s1.drop_first(), s2.drop_first(), i - 1, key);
        }
    }
}

proof fn lemma_position_lookup_push(
    s: Seq<(PositionKey, PositionInfo)>,
    entry: (PositionKey, PositionInfo),
    key: PositionKey,
)
    requires
        entry.0 != key,
    ensures
        position_lookup(s.push(entry), key) == position_lookup(s, key),
    decreases s.len(),
{
    if s.len() == 0 {
        assert(s.push(entry)[0] == entry);
        assert(s.push(entry).drop_first() =~= s);
    } else {
        assert(s.push(entry)[0] == s[0]);
        assert(s.push(entry).drop_first() =~= s.drop_first().push(entry));
        lemma_position_lookup_push(s.drop_first(), entry, key);
    }
}

/// All positions of a pool, keyed by owner and tick range.
pub struct Positions {
    pub entries: Vec<(PositionKey, PositionInfo)>,
}

impl Positions {
    /// The record of a key; untouched positions read as empty.
    pub open spec fn at(self, key: PositionKey) -> PositionInfo {
        position_lookup(self.entries@, key)
    }

    pub fn new() -> (r: Positions)
        ensures
            forall|k: PositionKey| r.at(k) == PositionInfo::spec_empty(),
    {
        Positions { entries: Vec::new() }
    }

    pub fn get(&self, key: PositionKey) -> (r: PositionInfo)
        ensures
            r == self.at(key),
    {
        let n = self.entries.len();
        for i in 0..n
            invariant
                n == self.entries@.len(),
                forall|j: int| 0 <= j < i ==> (#[trigger] self.entries@[j]).0 != key,
        {
            let e = &self.entries[i];
            if e.0.0 == key.0 && e.0.1 == key.1 && e.0.2 == key.2 {
                proof {
                    lemma_position_lookup_hit(self.entries@, i as int, key);
                }
                return self.entries[i].1;
            }
        }
        proof {
            lemma_position_lookup_skip(self.entries@, self.entries@.len() as int, key);
        }
        PositionInfo::empty()
    }

    pub fn set(&mut self, key: PositionKey, info: PositionInfo)
        ensures
            final(self).at(key) == info,
            forall|o: PositionKey| o != key ==> final(self).at(o) == old(self).at(o),
    {
        let n = self.entries.len();
        for i in 0..n
            invariant
                n == self.entries@.len(),
                *self == *old(self),
                forall|j: int| 0 <= j < i ==> (#[trigger] self.entries@[j]).0 != key,
        {
            let e = &self.entries[i];
            if e.0.0 == key.0 && e.0.1 == key.1 && e.0.2 == key.2 {
                let ghost prev = self.entries@;
                self.entries.set(i, (key, info));
                proof {
                    lemma_position_lookup_hit(prev, i as int, key);
                    lemma_position_lookup_hit(self.entries@, i as int, key);
                    assert forall|o: PositionKey| o != key implies position_lookup(
                        self.entries@,
                        o,
                    ) == position_lookup(prev, o) by {
                        lemma_position_lookup_frame(prev, self.entries@, i as int, o);
                    }
                }
                return ;
            }
        }
        let ghost prev = self.entries@;
        self.entries.push((key, info));
        proof {
            lemma_position_lookup_skip(prev, prev.len() as int, key);
            lemma_position_lookup_hit(self.entries@, prev.len() as int, key);
            assert forall|o: PositionKey| o != key implies position_lookup(self.entries@, o)
                == position_lookup(prev, o) by {
                lemma_position_lookup_push(prev, (key, info), o);
            }
        }
    }
}

/// The fee quotient `d * l / 2^128` always fits 256 bits.
proof fn lemma_owed_fits(d: nat, l: nat)
    requires
        d < p256(),
        l < p128(),
    ensures
        d * l / pow2(128) < p256(),
{
    lemma_pow2_words();
    lemma_pow2_pos(128);
    lemma_fundamental_div_mod((d * l) as int, pow2(128) as int);
    lemma_mod_division_less_than_divisor((d * l) as int, pow2(128) as int);
    assert(d * l / pow2(128) < p256()) by (nonlinear_arith)
        requires
            d < p256(),
            l < p128(),
            pow2(128) == p128(),
            (d * l) as int == (pow2(128) as int) * ((d * l) as int / pow2(128) as int) + (d
                * l) as int % pow2(128) as int,
            0 <= (d * l) as int % pow2(128) as int,
            p256() == p128() * p128(),
            p128() > 0,
            d >= 0,
            l >= 0,
    ;
}

} // verus!
