//! Conversions between token amounts and liquidity over a price range.

use vstd::prelude::*;
use vstd::arithmetic::power2::*;

use crate::error::Error;
use crate::fullmath::{ceil_div, mul_div, q96};
use crate::u256::{U256, lemma_pow2_words, lemma_v_bound, p128, p256};

verus! {

/// Narrows a liquidity figure to 128 bits; callers must know it fits.
pub fn to_u128(x: &U256) -> (r: u128)
    requires
        x.v() < p128(),
    ensures
        r == x.v(),
{
    x.as_u128()
}

/// Liquidity purchasable with `amount0` of token0 over a range:
/// `amount0 * (sa * sb / 2^96) / (sb - sa)`.
pub fn get_liquidity_for_amount0(
    sqrt_ratio_a_x96_in: &U256,
    sqrt_ratio_b_x96_in: &U256,
    amount0: &U256,
) -> (r: Result<u128, Error>)
    ensures
        ({
            let sa = if sqrt_ratio_a_x96_in.v() <= sqrt_ratio_b_x96_in.v() {
                sqrt_ratio_a_x96_in.v()
            } else {
                sqrt_ratio_b_x96_in.v()
            };
            let sb = if sqrt_ratio_a_x96_in.v() <= sqrt_ratio_b_x96_in.v() {
                sqrt_ratio_b_x96_in.v()
            } else {
                sqrt_ratio_a_x96_in.v()
            };
            let intermediate = sa * sb / pow2(96);
            &&& (r is Ok <==> intermediate < p256() && sa < sb && amount0.v() * intermediate / ((
            sb - sa) as nat) < p128())
            &&& (r is Ok ==> r->Ok_0 == amount0.v() * intermediate / ((sb - sa) as nat))
        }),
{
    let (sqrt_ratio_a_x96, sqrt_ratio_b_x96) = if sqrt_ratio_a_x96_in.gt_u(sqrt_ratio_b_x96_in) {
        (*sqrt_ratio_b_x96_in, *sqrt_ratio_a_x96_in)
    } else {
        (*sqrt_ratio_a_x96_in, *sqrt_ratio_b_x96_in)
    };
    proof {
        lemma_pow2_pos(96);
    }
    let intermediate = mul_div(&sqrt_ratio_a_x96, &sqrt_ratio_b_x96, &q96())?;
    if !sqrt_ratio_a_x96.lt_u(&sqrt_ratio_b_x96) {
        return Err(Error::InvalidMulDiv);
    }
    let wide = mul_div(amount0, &intermediate, &sqrt_ratio_b_x96.sub_u(&sqrt_ratio_a_x96))?;
    proof {
        lemma_wide_half(wide);
    }
    if wide.hi != 0 {
        return Err(Error::InvalidMulDiv);
    }
    Ok(wide.low_u128())
}

/// A 256-bit value is below 2^128 exactly when its high word is zero.
proof fn lemma_wide_half(x: U256)
    ensures
        (x.hi == 0) == (x.v() < p128()),
        x.hi == 0 ==> x.v() % p128() == x.v(),
{
    if x.hi == 0 {
        assert(x.v() == x.lo + 0 * p128());
        vstd::arithmetic::div_mod::lemma_small_mod(x.v(), p128());
    } else {
        assert(x.v() >= p128()) by (nonlinear_arith)
            requires
                x.v() == x.lo + x.hi * p128(),
                x.hi >= 1,
                x.lo >= 0,
        ;
    }
}

/// Liquidity purchasable with `amount1` of token1 over a range:
/// `amount1 * 2^96 / (sb - sa)`.
pub fn get_liquidity_for_amount1(
    sqrt_ratio_a_x96_in: &U256,
    sqrt_ratio_b_x96_in: &U256,
    amount1: &U256,
) -> (r: Result<u128, Error>)
    ensures
        ({
            let sa = if sqrt_ratio_a_x96_in.v() <= sqrt_ratio_b_x96_in.v() {
                sqrt_ratio_a_x96_in.v()
            } else {
                sqrt_ratio_b_x96_in.v()
            };
            let sb = if sqrt_ratio_a_x96_in.v() <= sqrt_ratio_b_x96_in.v() {
                sqrt_ratio_b_x96_in.v()
            } else {
                sqrt_ratio_a_x96_in.v()
            };
            &&& (r is Ok <==> sa < sb && amount1.v() * pow2(96) / ((sb - sa) as nat) < p128())
            &&& (r is Ok ==> r->Ok_0 == amount1.v() * pow2(96) / ((sb - sa) as nat))
        }),
{
    let (sqrt_ratio_a_x96, sqrt_ratio_b_x96) = if sqrt_ratio_a_x96_in.gt_u(sqrt_ratio_b_x96_in) {
        (*sqrt_ratio_b_x96_in, *sqrt_ratio_a_x96_in)
    } else {
        (*sqrt_ratio_a_x96_in, *sqrt_ratio_b_x96_in)
    };
    if !sqrt_ratio_a_x96.lt_u(&sqrt_ratio_b_x96) {
        return Err(Error::InvalidMulDiv);
    }
    proof {
        lemma_pow2_pos(96);
    }
    let wide = mul_div(amount1, &q96(), &sqrt_ratio_b_x96.sub_u(&sqrt_ratio_a_x96))?;
    proof {
        lemma_wide_half(wide);
    }
    if wide.hi != 0 {
        return Err(Error::InvalidMulDiv);
    }
    Ok(wide.low_u128())
}

/// The largest liquidity both budgets afford: token0 rules below the
/// range, token1 above, and the smaller of the two inside it.
pub fn get_liquidity_for_amounts(
    sqrt_ratio_x96: &U256,
    sqrt_ratio_a_x96_in: &U256,
    sqrt_ratio_b_x96_in: &U256,
    amount0: &U256,
    amount1: &U256,
) -> (r: Result<u128, Error>)
    ensures
        ({
            let sa = if sqrt_ratio_a_x96_in.v() <= sqrt_ratio_b_x96_in.v() {
                sqrt_ratio_a_x96_in.v()
            } else {
                sqrt_ratio_b_x96_in.v()
            };
            let sb = if sqrt_ratio_a_x96_in.v() <= sqrt_ratio_b_x96_in.v() {
                sqrt_ratio_b_x96_in.v()
            } else {
                sqrt_ratio_a_x96_in.v()
            };
            let cur = sqrt_ratio_x96.v();
            let l0_below = amount0.v() * (sa * sb / pow2(96)) / ((sb - sa) as nat);
            let l0_mid = amount0.v() * (cur * sb / pow2(96)) / ((sb - cur) as nat);
            let l1_mid = amount1.v() * pow2(96) / ((cur - sa) as nat);
            let l1_above = amount1.v() * pow2(96) / ((sb - sa) as nat);
            &&& (cur <= sa ==> {
                &&& (r is Ok <==> sa * sb / pow2(96) < p256() && sa < sb && l0_below < p128())
                &&& (r is Ok ==> r->Ok_0 == l0_below)
            })
            &&& (sa < cur < sb ==> {
                &&& (r is Ok <==> cur * sb / pow2(96) < p256() && l0_mid < p128() && l1_mid
                    < p128())
                &&& (r is Ok ==> r->Ok_0 == (if l0_mid < l1_mid {
                    l0_mid
                } else {
                    l1_mid
                }))
            })
            &&& (cur >= sb && cur > sa ==> {
                &&& (r is Ok <==> sa < sb && l1_above < p128())
                &&& (r is Ok ==> r->Ok_0 == l1_above)
            })
        }),
{
    let (sqrt_ratio_a_x96, sqrt_ratio_b_x96) = if sqrt_ratio_a_x96_in.gt_u(sqrt_ratio_b_x96_in) {
        (*sqrt_ratio_b_x96_in, *sqrt_ratio_a_x96_in)
    } else {
        (*sqrt_ratio_a_x96_in, *sqrt_ratio_b_x96_in)
    };
    if sqrt_ratio_x96.le_u(&sqrt_ratio_a_x96) {
        get_liquidity_for_amount0(&sqrt_ratio_a_x96, &sqrt_ratio_b_x96, amount0)
    } else if sqrt_ratio_x96.lt_u(&sqrt_ratio_b_x96) {
        let liquidity0 = get_liquidity_for_amount0(sqrt_ratio_x96, &sqrt_ratio_b_x96, amount0)?;
        let liquidity1 = get_liquidity_for_amount1(&sqrt_ratio_a_x96, sqrt_ratio_x96, amount1)?;
        if liquidity0 < liquidity1 {
            Ok(liquidity0)
        } else {
            Ok(liquidity1)
        }
    } else {
        get_liquidity_for_amount1(&sqrt_ratio_a_x96, &sqrt_ratio_b_x96, amount1)
    }
}

/// Token0 owed for a liquidity figure over a range.
pub fn get_amount0_for_liquidity(
    sqrt_ratio_a_x96_in: &U256,
    sqrt_ratio_b_x96_in: &U256,
    liquidity: u128,
) -> (r: Result<U256, Error>)
    ensures
        ({
            let sa = if sqrt_ratio_a_x96_in.v() <= sqrt_ratio_b_x96_in.v() {
                sqrt_ratio_a_x96_in.v()
            } else {
                sqrt_ratio_b_x96_in.v()
            };
            let sb = if sqrt_ratio_a_x96_in.v() <= sqrt_ratio_b_x96_in.v() {
                sqrt_ratio_b_x96_in.v()
            } else {
                sqrt_ratio_a_x96_in.v()
            };
            &&& (r is Ok <==> sa > 0 && ((liquidity as nat) * pow2(96)) * ((sb - sa) as nat) / sb
                < p256())
            &&& (r is Ok ==> r->Ok_0.v() == ((liquidity as nat) * pow2(96)) * ((sb - sa) as nat)
                / sb / sa)
        }),
{
    let (sqrt_ratio_a_x96, sqrt_ratio_b_x96) = if sqrt_ratio_a_x96_in.gt_u(sqrt_ratio_b_x96_in) {
        (*sqrt_ratio_b_x96_in, *sqrt_ratio_a_x96_in)
    } else {
        (*sqrt_ratio_a_x96_in, *sqrt_ratio_b_x96_in)
    };
    proof {
        lemma_pow2_words();
        lemma_pow2_adds(128, 96);
        lemma_pow2_strictly_increases(224, 256);
        lemma_pow2_pos(96);
        assert(liquidity * pow2(96) < pow2(224)) by (nonlinear_arith)
            requires
                liquidity < pow2(128),
                pow2(224) == pow2(128) * pow2(96),
                pow2(96) > 0,
        ;
    }
    if sqrt_ratio_a_x96.is_zero() {
        return Err(Error::InvalidMulDiv);
    }
    let numerator = U256::from_u128(liquidity).shl(96);
    let inner = mul_div(
        &numerator,
        &sqrt_ratio_b_x96.sub_u(&sqrt_ratio_a_x96),
        &sqrt_ratio_b_x96,
    )?;
    Ok(inner.div_u(&sqrt_ratio_a_x96))
}

/// Token1 owed for a liquidity figure over a range.
pub fn get_amount1_for_liquidity(
    sqrt_ratio_a_x96_in: &U256,
    sqrt_ratio_b_x96_in: &U256,
    liquidity: u128,
) -> (r: Result<U256, Error>)
    ensures
        ({
            let sa = if sqrt_ratio_a_x96_in.v() <= sqrt_ratio_b_x96_in.v() {
                sqrt_ratio_a_x96_in.v()
            } else {
                sqrt_ratio_b_x96_in.v()
            };
            let sb = if sqrt_ratio_a_x96_in.v() <= sqrt_ratio_b_x96_in.v() {
                sqrt_ratio_b_x96_in.v()
            } else {
                sqrt_ratio_a_x96_in.v()
            };
            &&& (r is Ok <==> (liquidity as nat) * ((sb - sa) as nat) / pow2(96) < p256())
            &&& (r is Ok ==> r->Ok_0.v() == (liquidity as nat) * ((sb - sa) as nat) / pow2(96))
        }),
{
    let (sqrt_ratio_a_x96, sqrt_ratio_b_x96) = if sqrt_ratio_a_x96_in.gt_u(sqrt_ratio_b_x96_in) {
        (*sqrt_ratio_b_x96_in, *sqrt_ratio_a_x96_in)
    } else {
        (*sqrt_ratio_a_x96_in, *sqrt_ratio_b_x96_in)
    };
    proof {
        lemma_pow2_pos(96);
    }
    mul_div(
        &U256::from_u128(liquidity),
        &sqrt_ratio_b_x96.sub_u(&sqrt_ratio_a_x96),
        &q96(),
    )
}

/// Both token amounts for a liquidity figure, split by where the current
/// price sits relative to the range.
pub fn get_amounts_for_liquidity(
    sqrt_ratio_x96: &U256,
    sqrt_ratio_a_x96_in: &U256,
    sqrt_ratio_b_x96_in: &U256,
    liquidity: u128,
) -> (r: Result<(U256, U256), Error>)
    ensures
        ({
            let sa = if sqrt_ratio_a_x96_in.v() <= sqrt_ratio_b_x96_in.v() {
                sqrt_ratio_a_x96_in.v()
            } else {
                sqrt_ratio_b_x96_in.v()
            };
            let sb = if sqrt_ratio_a_x96_in.v() <= sqrt_ratio_b_x96_in.v() {
                sqrt_ratio_b_x96_in.v()
            } else {
                sqrt_ratio_a_x96_in.v()
            };
            let cur = sqrt_ratio_x96.v();
            let l = liquidity as nat;
            &&& (cur <= sa ==> {
                &&& (r is Ok <==> sa > 0 && (l * pow2(96)) * ((sb - sa) as nat) / sb < p256())
                &&& (r is Ok ==> r->Ok_0.0.v() == (l * pow2(96)) * ((sb - sa) as nat) / sb / sa
                    && r->Ok_0.1.v() == 0)
            })
            &&& (sa < cur < sb ==> {
                &&& (r is Ok <==> (l * pow2(96)) * ((sb - cur) as nat) / sb < p256() && l * ((cur
                    - sa) as nat) / pow2(96) < p256())
                &&& (r is Ok ==> r->Ok_0.0.v() == (l * pow2(96)) * ((sb - cur) as nat) / sb / cur
                    && r->Ok_0.1.v() == l * ((cur - sa) as nat) / pow2(96))
            })
            &&& (cur >= sb && cur > sa ==> {
                &&& (r is Ok <==> l * ((sb - sa) as nat) / pow2(96) < p256())
                &&& (r is Ok ==> r->Ok_0.0.v() == 0 && r->Ok_0.1.v() == l * ((sb - sa) as nat)
                    / pow2(96))
            })
        }),
{
    let (sqrt_ratio_a_x96, sqrt_ratio_b_x96) = if sqrt_ratio_a_x96_in.gt_u(sqrt_ratio_b_x96_in) {
        (*sqrt_ratio_b_x96_in, *sqrt_ratio_a_x96_in)
    } else {
        (*sqrt_ratio_a_x96_in, *sqrt_ratio_b_x96_in)
    };
    if sqrt_ratio_x96.le_u(&sqrt_ratio_a_x96) {
        let amount0 = get_amount0_for_liquidity(&sqrt_ratio_a_x96, &sqrt_ratio_b_x96, liquidity)?;
        Ok((amount0, U256::zero()))
    } else if sqrt_ratio_x96.lt_u(&sqrt_ratio_b_x96) {
        let amount0 = get_amount0_for_liquidity(sqrt_ratio_x96, &sqrt_ratio_b_x96, liquidity)?;
        let amount1 = get_amount1_for_liquidity(&sqrt_ratio_a_x96, sqrt_ratio_x96, liquidity)?;
        Ok((amount0, amount1))
    } else {
        let amount1 = get_amount1_for_liquidity(&sqrt_ratio_a_x96, &sqrt_ratio_b_x96, liquidity)?;
        Ok((U256::zero(), amount1))
    }
}

} // verus!
