//! Error kinds shared across the whole library.
//!
//! Every failure aborts the surrounding operation; callers receive the
//! discriminator as a stable `u16` code.

use vstd::prelude::*;

verus! {

/// Every way an operation of this library can fail.
#[derive(Clone, Copy, PartialEq, Eq, Structural, Debug)]
pub enum Error {
    ErrMoreThan,
    ContractLocked,
    OnlyOwnerCanRevoke,
    ContractPaused,
    InvalidTestingMode,
    InvalidMulDiv,
    ErrLS,
    ErrLA,
    ErrT,
    ErrR,
    InvalidNumber,
    SqrtRatioInternalError,
    ConvertU160Overflow,
    ContractAlreadyInitialized,
    FailedToCreateDictionary,
    InvalidFactoryOwner,
    ErrLO,
    ErrFlipTick,
    ErrTLU,
    ErrTLM,
    ErrTUM,
    ErrLowerUninitialized,
    ErrUpperUninitialized,
    ErrNP,
    ErrI,
    ErrOld,
    ErrMintAmount,
    ErrMintM0,
    ErrMintM1,
    ErrSwapAS,
    ErrSwapLOK,
    ErrSwapSPL,
    ErrIIA,
    ErrL,
    ErrF0,
    ErrF1,
    ErrFeeProtocol,
    ErrNotPool,
    ErrSameToken,
    ErrTokenNull,
    ErrTickSpacingNull,
    ErrPoolExist,
    ErrAI,
    ErrFactoryFee,
    ErrInvalidTickSpacing,
    ErrFeeExist,
    ErrSwapCallee,
    ErrInvalidTestingMode,
    ErrLOK,
    ErrTransactionTooOld,
    ErrPriceSlippageCheck,
    ErrInvalidMintCallback,
    ErrNotApproved,
    ErrInvalidLiquidity,
    ErrInvalidCollectParams,
    ErrInvalidSwapCallbackParams,
    ErrPositionNotCleared,
    ErrInvalidAmountOut,
    ErrTooMuchRequested,
    ErrTooLittleReceived,
    ErrInvalidTokenOrder,
    ErrInvalidLiquiditySessionParams,
    ErrInsufficientBalanceWCSPR,
}

/// The stable `u16` code of an error, as reported to callers.
pub fn as_u16(err: Error) -> (r: u16)
    ensures
        r == code_of(err),
{
    match err {
        Error::ErrMoreThan => 15000,
        Error::ContractLocked => 15001,
        Error::OnlyOwnerCanRevoke => 15002,
        Error::ContractPaused => 15003,
        Error::InvalidTestingMode => 15004,
        Error::InvalidMulDiv => 15005,
        Error::ErrLS => 15006,
        Error::ErrLA => 15007,
        Error::ErrT => 15008,
        Error::ErrR => 15009,
        Error::InvalidNumber => 15010,
        Error::SqrtRatioInternalError => 15011,
        Error::ConvertU160Overflow => 15012,
        Error::ContractAlreadyInitialized => 15013,
        Error::FailedToCreateDictionary => 15014,
        Error::InvalidFactoryOwner => 15015,
        Error::ErrLO => 15016,
        Error::ErrFlipTick => 15017,
        Error::ErrTLU => 15018,
        Error::ErrTLM => 15019,
        Error::ErrTUM => 15020,
        Error::ErrLowerUninitialized => 15021,
        Error::ErrUpperUninitialized => 15022,
        Error::ErrNP => 15023,
        Error::ErrI => 15024,
        Error::ErrOld => 15025,
        Error::ErrMintAmount => 15026,
        Error::ErrMintM0 => 15027,
        Error::ErrMintM1 => 15028,
        Error::ErrSwapAS => 15029,
        Error::ErrSwapLOK => 15030,
        Error::ErrSwapSPL => 15031,
        Error::ErrIIA => 15032,
        Error::ErrL => 15033,
        Error::ErrF0 => 15034,
        Error::ErrF1 => 15035,
        Error::ErrFeeProtocol => 15036,
        Error::ErrNotPool => 15037,
        Error::ErrSameToken => 15038,
        Error::ErrTokenNull => 15039,
        Error::ErrTickSpacingNull => 15040,
        Error::ErrPoolExist => 15041,
        Error::ErrAI => 15042,
        Error::ErrFactoryFee => 15043,
        Error::ErrInvalidTickSpacing => 15044,
        Error::ErrFeeExist => 15045,
        Error::ErrSwapCallee => 15046,
        Error::ErrInvalidTestingMode => 15047,
        Error::ErrLOK => 15048,
        Error::ErrTransactionTooOld => 15049,
        Error::ErrPriceSlippageCheck => 15050,
        Error::ErrInvalidMintCallback => 15051,
        Error::ErrNotApproved => 15052,
        Error::ErrInvalidLiquidity => 15053,
        Error::ErrInvalidCollectParams => 15054,
        Error::ErrInvalidSwapCallbackParams => 15055,
        Error::ErrPositionNotCleared => 15056,
        Error::ErrInvalidAmountOut => 15057,
        Error::ErrTooMuchRequested => 15058,
        Error::ErrTooLittleReceived => 15059,
        Error::ErrInvalidTokenOrder => 15060,
        Error::ErrInvalidLiquiditySessionParams => 15061,
        Error::ErrInsufficientBalanceWCSPR => 15062,
    }
}

/// The code of each error kind.
pub open spec fn code_of(err: Error) -> u16 {
    match err {
        Error::ErrMoreThan => 15000,
        Error::ContractLocked => 15001,
        Error::OnlyOwnerCanRevoke => 15002,
        Error::ContractPaused => 15003,
        Error::InvalidTestingMode => 15004,
        Error::InvalidMulDiv => 15005,
        Error::ErrLS => 15006,
        Error::ErrLA => 15007,
        Error::ErrT => 15008,
        Error::ErrR => 15009,
        Error::InvalidNumber => 15010,
        Error::SqrtRatioInternalError => 15011,
        Error::ConvertU160Overflow => 15012,
        Error::ContractAlreadyInitialized => 15013,
        Error::FailedToCreateDictionary => 15014,
        Error::InvalidFactoryOwner => 15015,
        Error::ErrLO => 15016,
        Error::ErrFlipTick => 15017,
        Error::ErrTLU => 15018,
        Error::ErrTLM => 15019,
        Error::ErrTUM => 15020,
        Error::ErrLowerUninitialized => 15021,
        Error::ErrUpperUninitialized => 15022,
        Error::ErrNP => 15023,
        Error::ErrI => 15024,
        Error::ErrOld => 15025,
        Error::ErrMintAmount => 15026,
        Error::ErrMintM0 => 15027,
        Error::ErrMintM1 => 15028,
        Error::ErrSwapAS => 15029,
        Error::ErrSwapLOK => 15030,
        Error::ErrSwapSPL => 15031,
        Error::ErrIIA => 15032,
        Error::ErrL => 15033,
        Error::ErrF0 => 15034,
        Error::ErrF1 => 15035,
        Error::ErrFeeProtocol => 15036,
        Error::ErrNotPool => 15037,
        Error::ErrSameToken => 15038,
        Error::ErrTokenNull => 15039,
        Error::ErrTickSpacingNull => 15040,
        Error::ErrPoolExist => 15041,
        Error::ErrAI => 15042,
        Error::ErrFactoryFee => 15043,
        Error::ErrInvalidTickSpacing => 15044,
        Error::ErrFeeExist => 15045,
        Error::ErrSwapCallee => 15046,
        Error::ErrInvalidTestingMode => 15047,
        Error::ErrLOK => 15048,
        Error::ErrTransactionTooOld => 15049,
        Error::ErrPriceSlippageCheck => 15050,
        Error::ErrInvalidMintCallback => 15051,
        Error::ErrNotApproved => 15052,
        Error::ErrInvalidLiquidity => 15053,
        Error::ErrInvalidCollectParams => 15054,
        Error::ErrInvalidSwapCallbackParams => 15055,
        Error::ErrPositionNotCleared => 15056,
        Error::ErrInvalidAmountOut => 15057,
        Error::ErrTooMuchRequested => 15058,
        Error::ErrTooLittleReceived => 15059,
        Error::ErrInvalidTokenOrder => 15060,
        Error::ErrInvalidLiquiditySessionParams => 15061,
        Error::ErrInsufficientBalanceWCSPR => 15062,
    }
}

/// A guard: `Ok` exactly when the condition holds, the error otherwise.
pub fn require(v: bool, e: Error) -> (r: Result<(), Error>)
    ensures
        r is Ok <==> v,
        !v ==> r == Result::<(), Error>::Err(e),
{
    if v {
        Ok(())
    } else {
        Err(e)
    }
}

} // verus!
