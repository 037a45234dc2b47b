//! The pause switch honoured by user-facing router entry points.

use vstd::prelude::*;

use crate::error::Error;

verus! {

/// Rejects operations while the module is paused.
pub fn when_not_paused(paused: bool) -> (r: Result<(), Error>)
    ensures
        r is Ok <==> !paused,
        paused ==> r == Result::<(), Error>::Err(Error::ContractPaused),
{
    if paused {
        Err(Error::ContractPaused)
    } else {
        Ok(())
    }
}

} // verus!
