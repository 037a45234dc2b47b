//! A thin named wrapper around `i128`, used where a signed per-tick
//! liquidity delta is stored.

use vstd::prelude::*;

verus! {

/// A signed 128-bit value.
#[derive(Clone, Copy, PartialEq, Eq, Structural, Debug)]
pub struct I128(pub i128);

impl I128 {
    pub open spec fn iv(self) -> int {
        self.0 as int
    }

    pub fn new(v: i128) -> (r: I128)
        ensures
            r.iv() == v,
    {
        I128(v)
    }

    pub fn value(&self) -> (r: i128)
        ensures
            r == self.iv(),
    {
        self.0
    }

    /// Checked addition.
    pub fn add_i(&self, other: i128) -> (r: I128)
        requires
            i128::MIN <= self.iv() + other <= i128::MAX,
        ensures
            r.iv() == self.iv() + other,
    {
        I128(self.0 + other)
    }

    /// Checked subtraction.
    pub fn sub_i(&self, other: i128) -> (r: I128)
        requires
            i128::MIN <= self.iv() - other <= i128::MAX,
        ensures
            r.iv() == self.iv() - other,
    {
        I128(self.0 - other)
    }
}

} // verus!
