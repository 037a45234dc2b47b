//! Checked conversions between the wide integer types.

use vstd::prelude::*;
use vstd::arithmetic::power2::*;

use crate::error::Error;
use crate::i128::I128;
use crate::i256::I256;
use crate::u256::{U256, lemma_pow2_words, p128, p256};

verus! {

/// A signed 256-bit value that fits 128 bits, narrowed.
pub fn to_i128(y: I256) -> (r: I128)
    requires
        y.wf(),
        -0x8000_0000_0000_0000_0000_0000_0000_0000 <= y.iv()
            < 0x8000_0000_0000_0000_0000_0000_0000_0000,
    ensures
        r.iv() == y.iv(),
{
    let m = y.abs_u256().as_u128();
    if y.is_neg() {
        if m == 0x8000_0000_0000_0000_0000_0000_0000_0000 {
            I128(i128::MIN)
        } else {
            I128(-(m as i128))
        }
    } else {
        I128(m as i128)
    }
}

/// An unsigned 256-bit value reinterpreted as signed; it must fit.
pub fn to_i256(y: U256) -> (r: I256)
    requires
        y.v() < p256() / 2,
    ensures
        r.iv() == y.v(),
        r.wf(),
{
    I256::from_u256(y)
}

/// Checks that a square-root price fits 160 bits (the historical check
/// admits exactly 2^160 as well).
pub fn to_u160(y: U256) -> (r: Result<U256, Error>)
    ensures
        r is Ok <==> y.v() <= pow2(160),
        r is Ok ==> r->Ok_0 == y,
        r is Err ==> r == Result::<U256, Error>::Err(Error::ConvertU160Overflow),
{
    proof {
        lemma_pow2_words();
        lemma_pow2_adds(128, 32);
        lemma2_to64();
    }
    let bound = U256 { lo: 0, hi: 0x1_0000_0000 };
    proof {
        assert(bound.v() == pow2(160));
    }
    if y.le_u(&bound) {
        Ok(y)
    } else {
        Err(Error::ConvertU160Overflow)
    }
}

} // verus!
