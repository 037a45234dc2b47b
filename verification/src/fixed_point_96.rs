//! The Q64.96 fixed-point scale.

use vstd::prelude::*;
use vstd::arithmetic::power2::pow2;

use crate::u256::U256;

verus! {

/// Number of fractional bits in a Q64.96 value.
pub const RESOLUTION: u8 = 96;

/// 2^96.
pub fn q96() -> (r: U256)
    ensures
        r.v() == pow2(96),
{
    crate::fullmath::q96()
}

} // verus!
