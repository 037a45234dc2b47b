//! Square-root price movement and token amounts from liquidity ranges.
//!
//! All contracts are exact rational formulas over the operands' values:
//! a next price rounds so that the pool never gives out more than the
//! curve allows, and amount deltas round against the pool.

use vstd::prelude::*;
use vstd::arithmetic::div_mod::*;
use vstd::arithmetic::mul::*;
use vstd::arithmetic::power2::*;

use crate::error::Error;
use crate::fullmath::{ceil_div, lemma_ceil_div, mul_div, mul_div_rounding_up, q96,
    unsafe_div_rounding_up};
use crate::i256::I256;
use crate::safe_cast::to_u160;
use crate::u256::{U256, lemma_pow2_words, lemma_v_bound, p256};

verus! {

/// Token0 owed over a price range: `L * 2^96 * (sb - sa) / (sb * sa)`,
/// with both divisions rounded the same way.
pub open spec fn amount0_delta_spec(sa: nat, sb: nat, l: nat, round_up: bool) -> nat
    recommends
        0 < sa <= sb,
{
    let num1 = l * pow2(96);
    let num2 = (sb - sa) as nat;
    if round_up {
        ceil_div(ceil_div(num1 * num2, sb), sa)
    } else {
        (num1 * num2 / sb) / sa
    }
}

/// Token1 owed over a price range: `L * (sb - sa) / 2^96`.
pub open spec fn amount1_delta_spec(sa: nat, sb: nat, l: nat, round_up: bool) -> nat
    recommends
        sa <= sb,
{
    if round_up {
        ceil_div(l * ((sb - sa) as nat), pow2(96))
    } else {
        l * ((sb - sa) as nat) / pow2(96)
    }
}

/// Sorts two square-root prices.
fn sort_ratios(sqrt_ratio_0_x96: &U256, sqrt_ratio_1_x96: &U256) -> (r: (U256, U256))
    ensures
        r.0.v() <= r.1.v(),
        (r.0.v() == sqrt_ratio_0_x96.v() && r.1.v() == sqrt_ratio_1_x96.v()) || (r.0.v()
            == sqrt_ratio_1_x96.v() && r.1.v() == sqrt_ratio_0_x96.v()),
{
    if sqrt_ratio_0_x96.gt_u(sqrt_ratio_1_x96) {
        (*sqrt_ratio_1_x96, *sqrt_ratio_0_x96)
    } else {
        (*sqrt_ratio_0_x96, *sqrt_ratio_1_x96)
    }
}

/// Amount of token0 between two prices; the prices may come in either
/// order and the lower one must be positive.
pub fn get_amount0_delta(
    sqrt_ratio_0_x96: &U256,
    sqrt_ratio_1_x96: &U256,
    liquidity: u128,
    round_up: bool,
) -> (r: Result<U256, Error>)
    ensures
        ({
            let sa = if sqrt_ratio_0_x96.v() <= sqrt_ratio_1_x96.v() {
                sqrt_ratio_0_x96.v()
            } else {
                sqrt_ratio_1_x96.v()
            };
            let sb = if sqrt_ratio_0_x96.v() <= sqrt_ratio_1_x96.v() {
                sqrt_ratio_1_x96.v()
            } else {
                sqrt_ratio_0_x96.v()
            };
            &&& (sa == 0 ==> r == Result::<U256, Error>::Err(Error::SqrtRatioInternalError))
            &&& (sa > 0 && round_up ==> {
                let inner = ceil_div(((liquidity as nat) * pow2(96)) * ((sb - sa) as nat), sb);
                &&& (r is Ok <==> inner < p256())
                &&& (r is Ok ==> r->Ok_0.v() == amount0_delta_spec(sa, sb, liquidity as nat, true))
                &&& (r is Err ==> r == Result::<U256, Error>::Err(Error::InvalidMulDiv))
            })
            &&& (sa > 0 && !round_up ==> {
                let inner = ((liquidity as nat) * pow2(96)) * ((sb - sa) as nat) / sb;
                &&& (r is Ok <==> inner < p256())
                &&& (r is Ok ==> r->Ok_0.v() == amount0_delta_spec(sa, sb, liquidity as nat, false))
                &&& (r is Err ==> r == Result::<U256, Error>::Err(Error::InvalidMulDiv))
            })
        }),
{
    let (sqrt_ratio_a_x96, sqrt_ratio_b_x96) = sort_ratios(sqrt_ratio_0_x96, sqrt_ratio_1_x96);
    proof {
        lemma_pow2_words();
        lemma_pow2_adds(128, 96);
        lemma_pow2_strictly_increases(224, 256);
        lemma_pow2_pos(96);
        assert(liquidity * pow2(96) < pow2(224)) by (nonlinear_arith)
            requires
                liquidity < pow2(128),
                pow2(224) == pow2(128) * pow2(96),
                pow2(96) > 0,
        ;
    }
    let numerator1 = U256::from_u128(liquidity).shl(96);
    let numerator2 = sqrt_ratio_b_x96.sub_u(&sqrt_ratio_a_x96);
    if sqrt_ratio_a_x96.is_zero() {
        return Err(Error::SqrtRatioInternalError);
    }
    if round_up {
        let inner = mul_div_rounding_up(&numerator1, &numerator2, &sqrt_ratio_b_x96)?;
        Ok(unsafe_div_rounding_up(&inner, &sqrt_ratio_a_x96))
    } else {
        let inner = mul_div(&numerator1, &numerator2, &sqrt_ratio_b_x96)?;
        Ok(inner.div_u(&sqrt_ratio_a_x96))
    }
}

/// Amount of token1 between two prices; the prices may come in either
/// order.
pub fn get_amount1_delta(
    sqrt_ratio_0_x96: &U256,
    sqrt_ratio_1_x96: &U256,
    liquidity: u128,
    round_up: bool,
) -> (r: Result<U256, Error>)
    ensures
        ({
            let sa = if sqrt_ratio_0_x96.v() <= sqrt_ratio_1_x96.v() {
                sqrt_ratio_0_x96.v()
            } else {
                sqrt_ratio_1_x96.v()
            };
            let sb = if sqrt_ratio_0_x96.v() <= sqrt_ratio_1_x96.v() {
                sqrt_ratio_1_x96.v()
            } else {
                sqrt_ratio_0_x96.v()
            };
            &&& (r is Ok <==> amount1_delta_spec(sa, sb, liquidity as nat, round_up) < p256())
            &&& (r is Ok ==> r->Ok_0.v() == amount1_delta_spec(sa, sb, liquidity as nat, round_up))
            &&& (r is Err ==> r == Result::<U256, Error>::Err(Error::InvalidMulDiv))
        }),
{
    let (sqrt_ratio_a_x96, sqrt_ratio_b_x96) = sort_ratios(sqrt_ratio_0_x96, sqrt_ratio_1_x96);
    let diff = sqrt_ratio_b_x96.sub_u(&sqrt_ratio_a_x96);
    let scale = q96();
    proof {
        lemma_pow2_pos(96);
        lemma_ceil_div((liquidity as nat) * diff.v(), pow2(96));
        lemma_div_is_ordered(
            (liquidity as int) * (diff.v() as int),
            (liquidity as int) * (diff.v() as int) + 1,
            pow2(96) as int,
        );
    }
    if round_up {
        mul_div_rounding_up(&U256::from_u128(liquidity), &diff, &scale)
    } else {
        mul_div(&U256::from_u128(liquidity), &diff, &scale)
    }
}

/// The price after adding `a` of token0 to liquidity `l` at price `s`,
/// rounded up: `ceil(l * 2^96 * s / (l * 2^96 + a * s))`, or the
/// precision-losing fallback when the products overflow 256 bits.
pub open spec fn next_from_amount0_up_spec(s: nat, l: nat, a: nat) -> nat {
    let n1 = l * pow2(96);
    if a * s < p256() && n1 + a * s < p256() {
        ceil_div(n1 * s, (n1 + a * s) as nat)
    } else {
        ceil_div(n1, n1 / s + a)
    }
}

/// The price after removing `a` of token0: `ceil(l * 2^96 * s / (l * 2^96 - a * s))`.
pub open spec fn next_from_amount0_down_spec(s: nat, l: nat, a: nat) -> nat {
    let n1 = l * pow2(96);
    ceil_div(n1 * s, (n1 - a * s) as nat)
}

/// The price movement caused by `a` of token1: `a * 2^96 / l`, rounded
/// down when adding and up when removing.
pub open spec fn amount1_quotient_spec(l: nat, a: nat, add: bool) -> nat {
    if add {
        a * pow2(96) / l
    } else {
        ceil_div(a * pow2(96), l)
    }
}

/// `ceil(x / d) <= c` when `x <= d * c`.
proof fn lemma_ceil_le(x: nat, d: nat, c: nat)
    requires
        d > 0,
        x <= d * c,
    ensures
        ceil_div(x, d) <= c,
{
    lemma_ceil_div(x, d);
    lemma_fundamental_div_mod(x as int, d as int);
    lemma_mod_division_less_than_divisor(x as int, d as int);
    assert(ceil_div(x, d) <= c) by (nonlinear_arith)
        requires
            x == d * ((x as int) / (d as int)) + (x as int) % (d as int),
            0 <= (x as int) % (d as int),
            ((x as int) % (d as int)) < d,
            x <= d * c,
            d > 0,
            ceil_div(x, d) == (x as int) / (d as int) + (if (x as int) % (d as int) > 0 {
                1int
            } else {
                0int
            }),
    ;
}

/// Next square-root price after paying in token0, rounding up so the
/// computed price never understates what the pool is owed.
pub fn get_next_sqrt_price_from_amount0_rounding_up(
    sqrt_p_x96: &U256,
    liquidity: u128,
    amount: &U256,
    add: bool,
) -> (r: Result<U256, Error>)
    requires
        sqrt_p_x96.v() > 0,
        liquidity > 0,
        (add && !(amount.v() * sqrt_p_x96.v() < p256() && (liquidity as nat) * pow2(96) + amount.v()
            * sqrt_p_x96.v() < p256())) ==> (liquidity as nat) * pow2(96) / sqrt_p_x96.v()
            + amount.v() < p256(),
    ensures
        ({
            let s = sqrt_p_x96.v();
            let l = liquidity as nat;
            let a = amount.v();
            let n1 = l * pow2(96);
            &&& (a == 0 ==> r == Result::<U256, Error>::Ok(*sqrt_p_x96))
            &&& (a > 0 && add ==> {
                let val = next_from_amount0_up_spec(s, l, a);
                &&& (r is Ok <==> val <= pow2(160))
                &&& (r is Ok ==> r->Ok_0.v() == val)
                &&& (r is Err ==> r == Result::<U256, Error>::Err(Error::ConvertU160Overflow))
            })
            &&& (a > 0 && !add && !(a * s < p256() && n1 > a * s) ==> r == Result::<
                U256,
                Error,
            >::Err(Error::SqrtRatioInternalError))
            &&& (a > 0 && !add && a * s < p256() && n1 > a * s ==> {
                let val = next_from_amount0_down_spec(s, l, a);
                &&& (r is Ok <==> val < p256() && val <= pow2(160))
                &&& (r is Ok ==> r->Ok_0.v() == val)
                &&& (val >= p256() ==> r == Result::<U256, Error>::Err(Error::InvalidMulDiv))
                &&& (val < p256() && val > pow2(160) ==> r == Result::<U256, Error>::Err(
                    Error::ConvertU160Overflow,
                ))
            })
        }),
{
    if amount.is_zero() {
        return Ok(*sqrt_p_x96);
    }
    proof {
        lemma_pow2_words();
        lemma_pow2_adds(128, 96);
        lemma_pow2_strictly_increases(224, 256);
        lemma_pow2_pos(96);
        assert(liquidity * pow2(96) < pow2(224)) by (nonlinear_arith)
            requires
                liquidity < pow2(128),
                pow2(224) == pow2(128) * pow2(96),
                pow2(96) > 0,
        ;
    }
    let numerator1 = U256::from_u128(liquidity).shl(96);
    let product_wide = crate::u256::mul_full(amount, sqrt_p_x96);
    let product_fits = product_wide.w2 == 0 && product_wide.w3 == 0;
    proof {
        if product_fits {
            crate::u256::lemma_u512_low_converse(product_wide);
        } else {
            if product_wide.v() < p256() {
                crate::u256::lemma_u512_low(product_wide);
            }
        }
    }
    if add {
        if product_fits {
            let product = product_wide.to_u256();
            let (denominator, overflow) = numerator1.overflowing_add(&product);
            if !overflow {
                proof {
                    let n1 = numerator1.v();
                    let s = sqrt_p_x96.v();
                    lemma_v_bound(*sqrt_p_x96);
                    lemma_pow2_pos(96);
                    assert(n1 >= 1) by (nonlinear_arith)
                        requires
                            n1 == (liquidity as nat) * pow2(96),
                            liquidity >= 1,
                            pow2(96) >= 1,
                    ;
                    assert(n1 * s <= denominator.v() * s) by (nonlinear_arith)
                        requires
                            n1 <= denominator.v(),
                            s >= 0,
                    ;
                    lemma_ceil_le(n1 * s, denominator.v(), s);
                }
                let inner = match mul_div_rounding_up(&numerator1, sqrt_p_x96, &denominator) {
                    Ok(x) => x,
                    Err(_) => {
                        proof {
                            assert(false);
                        }
                        U256::zero()
                    },
                };
                return to_u160(inner);
            }
        }
        // the exact product overflows; divide first and accept the
        // precision loss in favour of never overstating the price
        let den = numerator1.div_u(sqrt_p_x96).add_u(amount);
        proof {
            lemma_pow2_pos(96);
        }
        let inner = unsafe_div_rounding_up(&numerator1, &den);
        to_u160(inner)
    } else {
        if product_fits {
            let product = product_wide.to_u256();
            if numerator1.gt_u(&product) {
                let denominator = numerator1.sub_u(&product);
                let inner = mul_div_rounding_up(&numerator1, sqrt_p_x96, &denominator)?;
                return to_u160(inner);
            }
        }
        Err(Error::SqrtRatioInternalError)
    }
}

/// Next square-root price after a move in token1: the price rises by
/// `a * 2^96 / l` when adding and falls by its ceiling when removing.
pub fn get_next_sqrt_price_from_amount1_rounding_down(
    sqrt_p_x96: &U256,
    liquidity: u128,
    amount: &U256,
    add: bool,
) -> (r: Result<U256, Error>)
    requires
        liquidity > 0,
        (add && amount.v() * pow2(96) / (liquidity as nat) < p256()) ==> sqrt_p_x96.v()
            + amount.v() * pow2(96) / (liquidity as nat) < p256(),
    ensures
        ({
            let s = sqrt_p_x96.v();
            let l = liquidity as nat;
            let a = amount.v();
            let q = amount1_quotient_spec(l, a, add);
            &&& (add && q >= p256() ==> r == Result::<U256, Error>::Err(Error::InvalidMulDiv))
            &&& (add && q < p256() ==> {
                &&& (r is Ok <==> s + q <= pow2(160))
                &&& (r is Ok ==> r->Ok_0.v() == s + q)
                &&& (r is Err ==> r == Result::<U256, Error>::Err(Error::ConvertU160Overflow))
            })
            &&& (!add && q >= p256() ==> r == Result::<U256, Error>::Err(Error::InvalidMulDiv))
            &&& (!add && q < p256() && s <= q ==> r == Result::<U256, Error>::Err(
                Error::SqrtRatioInternalError,
            ))
            &&& (!add && q < p256() && s > q ==> {
                &&& (r is Ok <==> s - q <= pow2(160))
                &&& (r is Ok ==> r->Ok_0.v() == s - q)
                &&& (r is Err ==> r == Result::<U256, Error>::Err(Error::ConvertU160Overflow))
            })
        }),
{
    proof {
        lemma_pow2_words();
        lemma_pow2_adds(160, 96);
        lemma_pow2_strictly_increases(160, 256);
        lemma_pow2_strictly_increases(256, 257);
        lemma_pow2_pos(96);
        lemma_pow2_pos(160);
    }
    let max_u160 = U256 { lo: u128::MAX, hi: 0xffff_ffff };
    proof {
        assert(max_u160.v() == pow2(160) - 1) by {
            lemma_pow2_adds(128, 32);
            lemma2_to64();
        }
    }
    let scale = q96();
    if add {
        let quotient = if amount.le_u(&max_u160) {
            proof {
                assert(amount.v() * pow2(96) < p256()) by (nonlinear_arith)
                    requires
                        amount.v() < pow2(160),
                        p256() == pow2(160) * pow2(96),
                        pow2(96) > 0,
                ;
            }
            let shifted = amount.shl(96);
            shifted.div_u(&U256::from_u128(liquidity))
        } else {
            match mul_div(amount, &scale, &U256::from_u128(liquidity)) {
                Ok(x) => x,
                Err(e) => {
                    return Err(e);
                },
            }
        };
        to_u160(sqrt_p_x96.add_u(&quotient))
    } else {
        let quotient_or_err = if amount.le_u(&max_u160) {
            proof {
                assert(amount.v() * pow2(96) < p256()) by (nonlinear_arith)
                    requires
                        amount.v() < pow2(160),
                        p256() == pow2(160) * pow2(96),
                        pow2(96) > 0,
                ;
                lemma_ceil_div(amount.v() * pow2(96), liquidity as nat);
                lemma_fundamental_div_mod((amount.v() * pow2(96)) as int, liquidity as int);
                lemma_mod_division_less_than_divisor(
                    (amount.v() * pow2(96)) as int,
                    liquidity as int,
                );
                assert(amount.v() * pow2(96) / (liquidity as nat) < p256()) by (nonlinear_arith)
                    requires
                        liquidity >= 1,
                        amount.v() * pow2(96) < p256(),
                        (amount.v() * pow2(96)) as int == (liquidity as int) * ((amount.v() * pow2(
                            96,
                        )) as int / (liquidity as int)) + (amount.v() * pow2(96)) as int % (
                        liquidity as int),
                        0 <= (amount.v() * pow2(96)) as int % (liquidity as int),
                ;
            }
            let shifted = amount.shl(96);
            Ok(unsafe_div_rounding_up(&shifted, &U256::from_u128(liquidity)))
        } else {
            mul_div_rounding_up(amount, &scale, &U256::from_u128(liquidity))
        };
        let quotient = quotient_or_err?;
        if sqrt_p_x96.gt_u(&quotient) {
            to_u160(sqrt_p_x96.sub_u(&quotient))
        } else {
            Err(Error::SqrtRatioInternalError)
        }
    }
}

/// Next square-root price after an exact input amount: token0 in pushes
/// the price down, token1 in pushes it up.
pub fn get_next_sqrt_price_from_input(
    sqrt_p_x96: &U256,
    liquidity: u128,
    amount_in: &U256,
    zero_for_one: bool,
) -> (r: Result<U256, Error>)
    requires
        (zero_for_one && sqrt_p_x96.v() > 0 && liquidity > 0 && !(amount_in.v() * sqrt_p_x96.v()
            < p256() && (liquidity as nat) * pow2(96) + amount_in.v() * sqrt_p_x96.v() < p256()))
            ==> (liquidity as nat) * pow2(96) / sqrt_p_x96.v() + amount_in.v() < p256(),
        (!zero_for_one && sqrt_p_x96.v() > 0 && liquidity > 0 && amount_in.v() * pow2(96)
            / (liquidity as nat) < p256()) ==> sqrt_p_x96.v() + amount_in.v() * pow2(96)
            / (liquidity as nat) < p256(),
    ensures
        sqrt_p_x96.v() == 0 || liquidity == 0 ==> r == Result::<U256, Error>::Err(
            Error::SqrtRatioInternalError,
        ),
        sqrt_p_x96.v() > 0 && liquidity > 0 && zero_for_one ==> {
            let val = if amount_in.v() == 0 {
                sqrt_p_x96.v()
            } else {
                next_from_amount0_up_spec(sqrt_p_x96.v(), liquidity as nat, amount_in.v())
            };
            &&& (r is Ok <==> amount_in.v() == 0 || val <= pow2(160))
            &&& (r is Ok ==> r->Ok_0.v() == val)
        },
        sqrt_p_x96.v() > 0 && liquidity > 0 && !zero_for_one ==> {
            let q = amount1_quotient_spec(liquidity as nat, amount_in.v(), true);
            &&& (q >= p256() ==> r == Result::<U256, Error>::Err(Error::InvalidMulDiv))
            &&& (q < p256() ==> {
                &&& (r is Ok <==> sqrt_p_x96.v() + q <= pow2(160))
                &&& (r is Ok ==> r->Ok_0.v() == sqrt_p_x96.v() + q)
            })
        },
{
    if sqrt_p_x96.is_zero() || liquidity == 0 {
        return Err(Error::SqrtRatioInternalError);
    }
    if zero_for_one {
        get_next_sqrt_price_from_amount0_rounding_up(sqrt_p_x96, liquidity, amount_in, true)
    } else {
        get_next_sqrt_price_from_amount1_rounding_down(sqrt_p_x96, liquidity, amount_in, true)
    }
}

/// Next square-root price after an exact output amount: token1 out pulls
/// the price down, token0 out pushes it up.
pub fn get_next_sqrt_price_from_output(
    sqrt_p_x96: &U256,
    liquidity: u128,
    amount_out: &U256,
    zero_for_one: bool,
) -> (r: Result<U256, Error>)
    ensures
        sqrt_p_x96.v() == 0 || liquidity == 0 ==> r == Result::<U256, Error>::Err(
            Error::SqrtRatioInternalError,
        ),
        sqrt_p_x96.v() > 0 && liquidity > 0 && zero_for_one ==> {
            let q = amount1_quotient_spec(liquidity as nat, amount_out.v(), false);
            &&& (q >= p256() ==> r == Result::<U256, Error>::Err(Error::InvalidMulDiv))
            &&& (q < p256() && sqrt_p_x96.v() <= q ==> r == Result::<U256, Error>::Err(
                Error::SqrtRatioInternalError,
            ))
            &&& (q < p256() && sqrt_p_x96.v() > q ==> {
                &&& (r is Ok <==> sqrt_p_x96.v() - q <= pow2(160))
                &&& (r is Ok ==> r->Ok_0.v() == sqrt_p_x96.v() - q)
            })
        },
        sqrt_p_x96.v() > 0 && liquidity > 0 && !zero_for_one ==> {
            let s = sqrt_p_x96.v();
            let l = liquidity as nat;
            let a = amount_out.v();
            let n1 = l * pow2(96);
            &&& (a > 0 && !(a * s < p256() && n1 > a * s) ==> r == Result::<U256, Error>::Err(
                Error::SqrtRatioInternalError,
            ))
            &&& (a == 0 ==> r == Result::<U256, Error>::Ok(*sqrt_p_x96))
            &&& (a > 0 && a * s < p256() && n1 > a * s ==> {
                let val = next_from_amount0_down_spec(s, l, a);
                &&& (r is Ok <==> val < p256() && val <= pow2(160))
                &&& (r is Ok ==> r->Ok_0.v() == val)
            })
        },
{
    if sqrt_p_x96.is_zero() || liquidity == 0 {
        return Err(Error::SqrtRatioInternalError);
    }
    if zero_for_one {
        get_next_sqrt_price_from_amount1_rounding_down(sqrt_p_x96, liquidity, amount_out, false)
    } else {
        get_next_sqrt_price_from_amount0_rounding_up(sqrt_p_x96, liquidity, amount_out, false)
    }
}

/// Signed token0 amount for a signed liquidity delta: negative liquidity
/// rounds down (the pool pays out), positive rounds up (the pool is owed).
pub fn get_amount0_delta_2(
    sqrt_ratio_0_x96: &U256,
    sqrt_ratio_1_x96: &U256,
    liquidity: i128,
) -> (r: Result<I256, Error>)
    ensures
        ({
            let sa = if sqrt_ratio_0_x96.v() <= sqrt_ratio_1_x96.v() {
                sqrt_ratio_0_x96.v()
            } else {
                sqrt_ratio_1_x96.v()
            };
            let sb = if sqrt_ratio_0_x96.v() <= sqrt_ratio_1_x96.v() {
                sqrt_ratio_1_x96.v()
            } else {
                sqrt_ratio_0_x96.v()
            };
            let mag = (if liquidity < 0 {
                -liquidity
            } else {
                liquidity as int
            }) as nat;
            &&& (r is Ok && liquidity < 0 ==> r->Ok_0.iv() == -(amount0_delta_spec(
                sa,
                sb,
                mag,
                false,
            ) as int))
            &&& (r is Ok && liquidity >= 0 ==> r->Ok_0.iv() == amount0_delta_spec(
                sa,
                sb,
                mag,
                true,
            ))
            &&& (r is Ok ==> r->Ok_0.wf() && sa > 0)
            &&& (sa == 0 ==> r is Err)
            &&& (liquidity >= 0 && sa > 0 && ceil_div((mag * pow2(96)) * ((sb - sa) as nat), sb)
                < p256() ==> r is Ok)
            &&& (liquidity < 0 && sa > 0 && (mag * pow2(96)) * ((sb - sa) as nat) / sb < p256()
                ==> r is Ok)
        }),
{
    if liquidity < 0 {
        let mag = ((-(liquidity + 1)) as u128) + 1;
        let a = get_amount0_delta(sqrt_ratio_0_x96, sqrt_ratio_1_x96, mag, false)?;
        Ok(I256::neg_of_u256(a))
    } else {
        let a = get_amount0_delta(sqrt_ratio_0_x96, sqrt_ratio_1_x96, liquidity as u128, true)?;
        Ok(I256::from_u256(a))
    }
}

/// Signed token1 amount for a signed liquidity delta, rounded like
/// `get_amount0_delta_2`.
pub fn get_amount1_delta_2(
    sqrt_ratio_0_x96: &U256,
    sqrt_ratio_1_x96: &U256,
    liquidity: i128,
) -> (r: Result<I256, Error>)
    ensures
        ({
            let sa = if sqrt_ratio_0_x96.v() <= sqrt_ratio_1_x96.v() {
                sqrt_ratio_0_x96.v()
            } else {
                sqrt_ratio_1_x96.v()
            };
            let sb = if sqrt_ratio_0_x96.v() <= sqrt_ratio_1_x96.v() {
                sqrt_ratio_1_x96.v()
            } else {
                sqrt_ratio_0_x96.v()
            };
            let mag = (if liquidity < 0 {
                -liquidity
            } else {
                liquidity as int
            }) as nat;
            &&& (r is Ok && liquidity < 0 ==> r->Ok_0.iv() == -(amount1_delta_spec(
                sa,
                sb,
                mag,
                false,
            ) as int))
            &&& (r is Ok && liquidity >= 0 ==> r->Ok_0.iv() == amount1_delta_spec(
                sa,
                sb,
                mag,
                true,
            ))
            &&& (r is Ok ==> r->Ok_0.wf())
            &&& (amount1_delta_spec(sa, sb, mag, liquidity >= 0) < p256() ==> r is Ok)
        }),
{
    if liquidity < 0 {
        let mag = ((-(liquidity + 1)) as u128) + 1;
        let a = get_amount1_delta(sqrt_ratio_0_x96, sqrt_ratio_1_x96, mag, false)?;
        Ok(I256::neg_of_u256(a))
    } else {
        let a = get_amount1_delta(sqrt_ratio_0_x96, sqrt_ratio_1_x96, liquidity as u128, true)?;
        Ok(I256::from_u256(a))
    }
}

} // verus!
