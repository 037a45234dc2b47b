//! Event payloads reported to the host on state changes it must announce.

use vstd::prelude::*;

verus! {

/// A larger observation ring was staged.
#[derive(Clone, Copy, PartialEq, Eq, Structural, Debug)]
pub struct IncreaseObservationCardinalityNext {
    pub observation_cardinality_next_old: u16,
    pub observation_cardinality_next_new: u16,
}

impl IncreaseObservationCardinalityNext {
    pub fn new(observation_cardinality_next_old: u16, observation_cardinality_next_new: u16) -> (r:
        IncreaseObservationCardinalityNext)
        ensures
            r.observation_cardinality_next_old == observation_cardinality_next_old,
            r.observation_cardinality_next_new == observation_cardinality_next_new,
    {
        IncreaseObservationCardinalityNext {
            observation_cardinality_next_old,
            observation_cardinality_next_new,
        }
    }
}

/// The protocol-fee nibbles changed.
#[derive(Clone, Copy, PartialEq, Eq, Structural, Debug)]
pub struct SetFeeProtocol {
    pub fee_protocol0_old: u8,
    pub fee_protocol1_old: u8,
    pub fee_protocol0: u8,
    pub fee_protocol1: u8,
}

impl SetFeeProtocol {
    pub fn new(fee_protocol0_old: u8, fee_protocol1_old: u8, fee_protocol0: u8, fee_protocol1: u8) -> (r:
        SetFeeProtocol)
        ensures
            r.fee_protocol0_old == fee_protocol0_old,
            r.fee_protocol1_old == fee_protocol1_old,
            r.fee_protocol0 == fee_protocol0,
            r.fee_protocol1 == fee_protocol1,
    {
        SetFeeProtocol { fee_protocol0_old, fee_protocol1_old, fee_protocol0, fee_protocol1 }
    }
}

} // verus!
