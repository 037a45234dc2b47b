//! Checked addition of a signed delta to an unsigned liquidity amount.

use vstd::prelude::*;

use crate::error::Error;

verus! {

/// `x + y` on liquidity: fails with `ErrLS` when a negative delta exceeds
/// the balance and with `ErrLA` when a positive delta overflows `u128`.
pub fn add_delta(x: u128, y: i128) -> (r: Result<u128, Error>)
    ensures
        r is Ok <==> 0 <= x + y < 0x1_0000_0000_0000_0000_0000_0000_0000_0000,
        r is Ok ==> r->Ok_0 == x + y,
        y < 0 && x + y < 0 ==> r == Result::<u128, Error>::Err(Error::ErrLS),
        y >= 0 && x + y >= 0x1_0000_0000_0000_0000_0000_0000_0000_0000 ==> r
            == Result::<u128, Error>::Err(Error::ErrLA),
{
    if y < 0 {
        let minus_y = ((-(y + 1)) as u128) + 1;
        if x >= minus_y {
            Ok(x - minus_y)
        } else {
            Err(Error::ErrLS)
        }
    } else {
        if u128::MAX - x >= y as u128 {
            Ok(x + y as u128)
        } else {
            Err(Error::ErrLA)
        }
    }
}

} // verus!
