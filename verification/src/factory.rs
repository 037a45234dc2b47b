//! The factory: the fee-tier registry and the pool registry.
//!
//! Pools are registered under the host's content hash of their canonical
//! key; deploying the pool contract itself is the embedding's concern.

use vstd::prelude::*;

use crate::error::Error;
use crate::utils::{is_token_sorted, token_lt};

verus! {

/// Tick spacing enabled for a fee tier, zero when the tier is unknown.
pub open spec fn tier_lookup(s: Seq<(u32, i32)>, fee: u32) -> i32
    decreases s.len(),
{
    if s.len() == 0 {
        0
    } else if s[0].0 == fee {
        s[0].1
    } else {
        tier_lookup(s.drop_first(), fee)
    }
}

proof fn lemma_tier_lookup_skip(s: Seq<(u32, i32)>, k: int, fee: u32)
    requires
        0 <= k <= s.len(),
        forall|j: int| 0 <= j < k ==> (#[trigger] s[j]).0 != fee,
    ensures
        tier_lookup(s, fee) == tier_lookup(s.skip(k), fee),
    decreases k,
{
    if k > 0 {
        assert(forall|j: int| 0 <= j < k - 1 ==> (#[trigger] s.skip(1)[j]).0 != fee);
        lemma_tier_lookup_skip(s.skip(1), k - 1, fee);
        assert(s.skip(1).skip(k - 1) =~= s.skip(k));
        assert(s.drop_first() =~= s.skip(1));
    } else {
        assert(s.skip(0) =~= s);
    }
}

proof fn lemma_tier_lookup_hit(s: Seq<(u32, i32)>, i: int, fee: u32)
    requires
        0 <= i < s.len(),
        s[i].0 == fee,
        forall|j: int| 0 <= j < i ==> (#[trigger] s[j]).0 != fee,
    ensures
        tier_lookup(s, fee) == s[i].1,
{
    lemma_tier_lookup_skip(s, i, fee);
    assert(s.skip(i)[0] == s[i]);
}

/// The registered pool under a key hash; zero when absent.
pub open spec fn pool_lookup(s: Seq<([u8; 32], u64)>, key: Seq<u8>) -> u64
    decreases s.len(),
{
    if s.len() == 0 {
        0
    } else if s[0].0@ =~= key {
        s[0].1
    } else {
        pool_lookup(s.drop_first(), key)
    }
}

/// Byte equality of two 32-byte identities.
pub fn array_eq32(a: &[u8; 32], b: &[u8; 32]) -> (r: bool)
    ensures
        r == (a@ =~= b@),
{
    let mut i: usize = 0;
    while i < 32
        invariant
            0 <= i <= 32,
            forall|j: int| 0 <= j < i ==> a@[j] == b@[j],
        decreases 32 - i,
    {
        if a[i] != b[i] {
            proof {
                assert(a@[i as int] != b@[i as int]);
            }
            return false;
        }
        i = i + 1;
    }
    proof {
        assert(a@ =~= b@);
    }
    true
}

/// The factory state: enabled fee tiers and registered pools.
pub struct Factory {
    pub fee_amount_tick_spacing: Vec<(u32, i32)>,
    pub pool_map: Vec<([u8; 32], u64)>,
    pub next_pool_id: u64,
}

impl Factory {
    /// Registered tiers carry nonzero spacings and pools nonzero
    /// identifiers, so a zero lookup means absence.
    pub open spec fn wf(self) -> bool {
        &&& forall|j: int|
            0 <= j < self.fee_amount_tick_spacing@.len() ==> (
            #[trigger] self.fee_amount_tick_spacing@[j]).1 != 0
        &&& forall|j: int| 0 <= j < self.pool_map@.len() ==> (#[trigger] self.pool_map@[j]).1 >= 1
        &&& self.next_pool_id >= 1
    }

    /// The tick spacing of a fee tier; zero for unknown tiers.
    pub open spec fn tier(self, fee: u32) -> i32 {
        tier_lookup(self.fee_amount_tick_spacing@, fee)
    }

    /// The pool registered under a key hash; zero when absent.
    pub open spec fn pool_at(self, key: Seq<u8>) -> u64 {
        pool_lookup(self.pool_map@, key)
    }

    /// A fresh factory seeded with the three standard fee tiers.
    pub fn init_factory() -> (r: Factory)
        ensures
            r.tier(500) == 10,
            r.tier(3000) == 60,
            r.tier(10000) == 200,
            r.next_pool_id == 1,
            r.wf(),
    {
        let mut fee_amount_tick_spacing: Vec<(u32, i32)> = Vec::new();
        fee_amount_tick_spacing.push((500, 10));
        fee_amount_tick_spacing.push((3000, 60));
        fee_amount_tick_spacing.push((10000, 200));
        let r = Factory { fee_amount_tick_spacing, pool_map: Vec::new(), next_pool_id: 1 };
        proof {
            lemma_tier_lookup_hit(r.fee_amount_tick_spacing@, 0, 500);
            lemma_tier_lookup_hit(r.fee_amount_tick_spacing@, 1, 3000);
            lemma_tier_lookup_hit(r.fee_amount_tick_spacing@, 2, 10000);
        }
        r
    }

    /// The tick spacing enabled for a fee.
    pub fn get_fee_amount_tick_spacing(&self, fee: u32) -> (r: i32)
        ensures
            r == self.tier(fee),
    {
        let n = self.fee_amount_tick_spacing.len();
        for i in 0..n
            invariant
                n == self.fee_amount_tick_spacing@.len(),
                forall|j: int|
                    0 <= j < i ==> (#[trigger] self.fee_amount_tick_spacing@[j]).0 != fee,
        {
            if self.fee_amount_tick_spacing[i].0 == fee {
                proof {
                    lemma_tier_lookup_hit(self.fee_amount_tick_spacing@, i as int, fee);
                }
                return self.fee_amount_tick_spacing[i].1;
            }
        }
        proof {
            lemma_tier_lookup_skip(
                self.fee_amount_tick_spacing@,
                self.fee_amount_tick_spacing@.len() as int,
                fee,
            );
        }
        0
    }

    /// Enables a new fee tier.  The fee must stay below one (in
    /// millionths), the spacing within its bound, and the tier unused.
    pub fn enable_fee_amount(&mut self, fee: u32, tick_spacing: i32) -> (r: Result<(), Error>)
        requires
            old(self).wf(),
        ensures
            final(self).wf(),
            fee >= 1000000 ==> r == Result::<(), Error>::Err(Error::ErrFactoryFee) && *final(self)
                == *old(self),
            fee < 1000000 && !(0 < tick_spacing < 16384) ==> r == Result::<(), Error>::Err(
                Error::ErrInvalidTickSpacing,
            ) && *final(self) == *old(self),
            fee < 1000000 && 0 < tick_spacing < 16384 && old(self).tier(fee) != 0 ==> r
                == Result::<(), Error>::Err(Error::ErrFeeExist) && *final(self) == *old(self),
            fee < 1000000 && 0 < tick_spacing < 16384 && old(self).tier(fee) == 0 ==> r is Ok
                && final(self).tier(fee) == tick_spacing,
    {
        if fee >= 1000000 {
            return Err(Error::ErrFactoryFee);
        }
        if !(tick_spacing > 0 && tick_spacing < 16384) {
            return Err(Error::ErrInvalidTickSpacing);
        }
        if self.get_fee_amount_tick_spacing(fee) != 0 {
            return Err(Error::ErrFeeExist);
        }
        let ghost prev = self.fee_amount_tick_spacing@;
        self.fee_amount_tick_spacing.push((fee, tick_spacing));
        proof {
            lemma_tier_lookup_zero(prev, fee);
            lemma_tier_lookup_hit(self.fee_amount_tick_spacing@, prev.len() as int, fee);
        }
        Ok(())
    }

    /// The pool registered under a key hash, zero when none is.
    pub fn get_pool_address(&self, pool_key: &[u8; 32]) -> (r: u64)
        ensures
            r == self.pool_at(pool_key@),
    {
        let n = self.pool_map.len();
        for i in 0..n
            invariant
                n == self.pool_map@.len(),
                forall|j: int| 0 <= j < i ==> !((#[trigger] self.pool_map@[j]).0@ =~= pool_key@),
        {
            let hit = array_eq32(&self.pool_map[i].0, pool_key);
            if hit {
                proof {
                    lemma_pool_lookup_hit(self.pool_map@, i as int, pool_key@);
                }
                return self.pool_map[i].1;
            }
        }
        proof {
            lemma_pool_lookup_skip(self.pool_map@, self.pool_map@.len() as int, pool_key@);
        }
        0
    }

    /// Registers a pool for a token pair and fee.  The tokens must
    /// differ, come with a known fee tier, sort to a nonzero first
    /// identity, and not collide with a registered pool.  The embedding
    /// supplies the host hash of the canonical key and deploys the pool.
    pub fn create_pool(
        &mut self,
        token_a: &[u8; 32],
        token_b: &[u8; 32],
        fee: u32,
        pool_key: &[u8; 32],
    ) -> (r: Result<(i32, u64), Error>)
        requires
            old(self).wf(),
        ensures
            final(self).wf(),
            token_a@ =~= token_b@ ==> r == Result::<(i32, u64), Error>::Err(Error::ErrSameToken),
            ({
                let sorted0 = if token_lt(token_a@, token_b@, 0) {
                    token_a@
                } else {
                    token_b@
                };
                !(token_a@ =~= token_b@) && (exists|j: int|
                    0 <= j < 32 && #[trigger] sorted0[j] != 0) && old(self).tier(fee) != 0 && old(
                    self,
                ).pool_at(pool_key@) == 0 && old(self).next_pool_id < 0xffff_ffff_ffff_ffff ==> r
                    is Ok
            }),
            r is Ok ==> ({
                &&& old(self).tier(fee) != 0
                &&& old(self).pool_at(pool_key@) == 0
                &&& r->Ok_0.0 == old(self).tier(fee)
                &&& r->Ok_0.1 == old(self).next_pool_id
                &&& final(self).pool_at(pool_key@) == old(self).next_pool_id
                &&& final(self).next_pool_id == old(self).next_pool_id + 1
            }),
            old(self).tier(fee) == 0 && !(token_a@ =~= token_b@) ==> r is Err,
    {
        if array_eq32(token_a, token_b) {
            return Err(Error::ErrSameToken);
        }
        let (token0, _token1) = if is_token_sorted(token_a, token_b) {
            (token_a, token_b)
        } else {
            (token_b, token_a)
        };
        let mut token0_is_null = true;
        for i in 0..32
            invariant
                token0_is_null == (forall|j: int| 0 <= j < i ==> token0@[j] == 0),
        {
            if token0[i] != 0 {
                token0_is_null = false;
            }
            proof {
                if token0@[i as int] != 0 {
                } else {
                }
            }
        }
        if token0_is_null {
            return Err(Error::ErrTokenNull);
        }
        let tick_spacing = self.get_fee_amount_tick_spacing(fee);
        if tick_spacing == 0 {
            return Err(Error::ErrTickSpacingNull);
        }
        if self.get_pool_address(pool_key) != 0 {
            return Err(Error::ErrPoolExist);
        }
        if self.next_pool_id == u64::MAX {
            return Err(Error::ErrPoolExist);
        }
        let pool_id = self.next_pool_id;
        self.next_pool_id = pool_id + 1;
        let ghost prev = self.pool_map@;
        self.pool_map.push((*pool_key, pool_id));
        proof {
            lemma_pool_lookup_zero(prev, pool_key@);
            lemma_pool_lookup_hit(self.pool_map@, prev.len() as int, pool_key@);
        }
        Ok((tick_spacing, pool_id))
    }
}

/// A zero tier lookup in a well-formed registry means the fee is absent.
proof fn lemma_tier_lookup_zero(s: Seq<(u32, i32)>, fee: u32)
    requires
        forall|j: int| 0 <= j < s.len() ==> (#[trigger] s[j]).1 != 0,
        tier_lookup(s, fee) == 0,
    ensures
        forall|j: int| 0 <= j < s.len() ==> (#[trigger] s[j]).0 != fee,
    decreases s.len(),
{
    if s.len() > 0 {
        assert(s[0].1 != 0);
        if s[0].0 == fee {
        } else {
            assert(forall|j: int|
                0 <= j < s.drop_first().len() ==> (#[trigger] s.drop_first()[j]).1 != 0);
            lemma_tier_lookup_zero(s.drop_first(), fee);
            assert(forall|j: int| 1 <= j < s.len() ==> s[j] == s.drop_first()[j - 1]);
        }
    }
}

proof fn lemma_pool_lookup_skip(s: Seq<([u8; 32], u64)>, k: int, key: Seq<u8>)
    requires
        0 <= k <= s.len(),
        forall|j: int| 0 <= j < k ==> !((#[trigger] s[j]).0@ =~= key),
    ensures
        pool_lookup(s, key) == pool_lookup(s.skip(k), key),
    decreases k,
{
    if k > 0 {
        assert(forall|j: int| 0 <= j < k - 1 ==> !((#[trigger] s.skip(1)[j]).0@ =~= key));
        lemma_pool_lookup_skip(s.skip(1), k - 1, key);
        assert(s.skip(1).skip(k - 1) =~= s.skip(k));
        assert(s.drop_first() =~= s.skip(1));
    } else {
        assert(s.skip(0) =~= s);
    }
}

proof fn lemma_pool_lookup_hit(s: Seq<([u8; 32], u64)>, i: int, key: Seq<u8>)
    requires
        0 <= i < s.len(),
        s[i].0@ =~= key,
        forall|j: int| 0 <= j < i ==> !((#[trigger] s[j]).0@ =~= key),
    ensures
        pool_lookup(s, key) == s[i].1,
{
    lemma_pool_lookup_skip(s, i, key);
    assert(s.skip(i)[0] == s[i]);
}

/// A zero pool lookup in a well-formed registry means the key is absent.
proof fn lemma_pool_lookup_zero(s: Seq<([u8; 32], u64)>, key: Seq<u8>)
    requires
        forall|j: int| 0 <= j < s.len() ==> (#[trigger] s[j]).1 >= 1,
        pool_lookup(s, key) == 0,
    ensures
        forall|j: int| 0 <= j < s.len() ==> !((#[trigger] s[j]).0@ =~= key),
    decreases s.len(),
{
    if s.len() > 0 {
        assert(s[0].1 >= 1);
        if s[0].0@ =~= key {
        } else {
            assert(forall|j: int|
                0 <= j < s.drop_first().len() ==> (#[trigger] s.drop_first()[j]).1 >= 1);
            lemma_pool_lookup_zero(s.drop_first(), key);
            assert(forall|j: int| 1 <= j < s.len() ==> s[j] == s.drop_first()[j - 1]);
        }
    }
}

} // verus!
