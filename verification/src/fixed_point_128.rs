//! The Q128.128 fixed-point scale.

use vstd::prelude::*;
use vstd::arithmetic::power2::pow2;

use crate::u256::U256;

verus! {

/// 2^128.
pub fn q128() -> (r: U256)
    ensures
        r.v() == pow2(128),
{
    crate::fullmath::q128()
}

} // verus!
