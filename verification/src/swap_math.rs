//! One step of a swap: clamp against the target price and split the move
//! into amount in, amount out and fee.

use vstd::prelude::*;
use vstd::arithmetic::div_mod::*;
use vstd::arithmetic::mul::*;
use vstd::arithmetic::power2::*;

use crate::error::Error;
use crate::fullmath::{ceil_div, lemma_ceil_div, mul_div, mul_div_rounding_up};
use crate::i256::I256;
use crate::sqrt_price_math::{amount0_delta_spec, amount1_delta_spec, amount1_quotient_spec,
    get_amount0_delta, get_amount1_delta, get_next_sqrt_price_from_input,
    get_next_sqrt_price_from_output, next_from_amount0_down_spec, next_from_amount0_up_spec};
use crate::u256::{U256, lemma_pow2_words, lemma_v_bound, p128, p256};

verus! {

/// The exact-in amount still available once the fee is carved out.
pub open spec fn less_fee_spec(rem: nat, fee_pips: nat) -> nat {
    rem * (1000000 - fee_pips) as nat / 1000000
}

/// The input owed to move all the way to the target price.
pub open spec fn step_amount_in_to_target(s: nat, t: nat, l: nat) -> nat {
    if s >= t {
        amount0_delta_spec(t, s, l, true)
    } else {
        amount1_delta_spec(s, t, l, true)
    }
}

/// The output available when moving all the way to the target price.
pub open spec fn step_amount_out_to_target(s: nat, t: nat, l: nat) -> nat {
    if s >= t {
        amount1_delta_spec(t, s, l, false)
    } else {
        amount0_delta_spec(s, t, l, false)
    }
}

/// `x * a / b <= x` for `a <= b`.
proof fn lemma_mul_div_shrinks(x: nat, a: nat, b: nat)
    requires
        b > 0,
        a <= b,
    ensures
        x * a / b <= x,
{
    lemma_fundamental_div_mod((x * a) as int, b as int);
    lemma_mod_division_less_than_divisor((x * a) as int, b as int);
    assert(x * a / b <= x) by (nonlinear_arith)
        requires
            (x * a) as int == (b as int) * ((x * a) as int / (b as int)) + (x * a) as int % (
            b as int),
            0 <= (x * a) as int % (b as int),
            a <= b,
            b > 0,
            x >= 0,
    ;
}

/// `ceil(x / d) <= c` when `x <= d * c`.
proof fn lemma_step_ceil_le(x: nat, d: nat, c: nat)
    requires
        d > 0,
        x <= d * c,
    ensures
        ceil_div(x, d) <= c,
{
    lemma_ceil_div(x, d);
    lemma_fundamental_div_mod(x as int, d as int);
    lemma_mod_division_less_than_divisor(x as int, d as int);
    assert(ceil_div(x, d) <= c) by (nonlinear_arith)
        requires
            x == d * ((x as int) / (d as int)) + (x as int) % (d as int),
            0 <= (x as int) % (d as int),
            ((x as int) % (d as int)) < d,
            x <= d * c,
            d > 0,
            ceil_div(x, d) == (x as int) / (d as int) + (if (x as int) % (d as int) > 0 {
                1int
            } else {
                0int
            }),
    ;
}

/// Token0 owed between two prices is never more than `l * 2^96`, and
/// token1 owed never more than `l * sb / 2^96`; both fit 256 bits for
/// 160-bit prices.
pub proof fn lemma_delta_bounds(sa: nat, sb: nat, l: nat)
    requires
        0 < sa <= sb <= pow2(160),
        l < p128(),
    ensures
        ceil_div((l * pow2(96)) * ((sb - sa) as nat), sb) < p256(),
        (l * pow2(96)) * ((sb - sa) as nat) / sb < p256(),
        amount1_delta_spec(sa, sb, l, true) < p256(),
        amount1_delta_spec(sa, sb, l, false) < p256(),
        amount0_delta_spec(sa, sb, l, true) < p256(),
        amount1_delta_spec(sa, sb, l, true) < pow2(193),
        amount0_delta_spec(sa, sb, l, true) <= l * pow2(96),
        l * pow2(96) < pow2(224),
        amount0_delta_spec(sa, sb, l, true) < pow2(224),
{
    lemma_pow2_words();
    lemma_pow2_adds(128, 96);
    lemma_pow2_adds(160, 96);
    lemma_pow2_adds(128, 65);
    lemma_pow2_strictly_increases(224, 256);
    lemma_pow2_strictly_increases(193, 256);
    lemma_pow2_pos(96);
    lemma_pow2_pos(160);
    let n1 = l * pow2(96);
    let n2 = (sb - sa) as nat;
    assert(n1 < pow2(224) && n1 * n2 <= sb * n1) by (nonlinear_arith)
        requires
            l < pow2(128),
            pow2(224) == pow2(128) * pow2(96),
            n1 == l * pow2(96),
            n2 <= sb,
            pow2(96) > 0,
            n1 >= 0,
    ;
    lemma_step_ceil_le(n1 * n2, sb, n1);
    lemma_ceil_div(n1 * n2, sb);
    lemma_pow2_strictly_increases(224, 225);
    assert(n1 * n2 / sb <= ceil_div(n1 * n2, sb));
    // token1: l * n2 / 2^96 < 2^192, and its ceiling is at most one more
    lemma_pow2_adds(128, 160);
    assert(l * n2 < pow2(288)) by (nonlinear_arith)
        requires
            l < pow2(128),
            n2 <= pow2(160),
            pow2(288) == pow2(128) * pow2(160),
            l >= 0,
            pow2(160) > 0,
    ;
    assert(pow2(288) == pow2(96) * pow2(192)) by {
        lemma_pow2_adds(96, 192);
    }
    lemma_step_ceil_le(l * n2, pow2(96), pow2(192));
    lemma_ceil_div(l * n2, pow2(96));
    lemma_pow2_strictly_increases(192, 193);
    lemma_pow2_strictly_increases(192, 256);
    assert(l * n2 <= pow2(96) * pow2(192)) by (nonlinear_arith)
        requires
            l * n2 < pow2(96) * pow2(192),
    ;
    let up = ceil_div(n1 * n2, sb);
    lemma_pow2_pos(224);
    assert(up <= sa * n1) by (nonlinear_arith)
        requires
            up <= n1,
            sa >= 1,
            n1 >= 0,
    ;
    lemma_step_ceil_le(up, sa, n1);
}


/// `ceil(x / d) >= c` when `x >= d * c`.
proof fn lemma_step_ceil_ge(x: nat, d: nat, c: nat)
    requires
        d > 0,
        x >= d * c,
    ensures
        ceil_div(x, d) >= c,
{
    lemma_ceil_div(x, d);
    lemma_fundamental_div_mod(x as int, d as int);
    lemma_mod_division_less_than_divisor(x as int, d as int);
    assert(ceil_div(x, d) >= c) by (nonlinear_arith)
        requires
            x == d * ((x as int) / (d as int)) + (x as int) % (d as int),
            0 <= (x as int) % (d as int),
            ((x as int) % (d as int)) < d,
            x >= d * c,
            d > 0,
            ceil_div(x, d) == (x as int) / (d as int) + (if (x as int) % (d as int) > 0 {
                1int
            } else {
                0int
            }),
    ;
}

/// A price moved up by token0 never rises: the rounded-up quotient stays
/// at or below the starting price.
proof fn lemma_next_up_le_s(s: nat, l: nat, a: nat)
    requires
        s >= 1,
        l >= 1,
        l < p128(),
    ensures
        next_from_amount0_up_spec(s, l, a) <= s,
        next_from_amount0_up_spec(s, l, a) >= 1,
        a == 0 ==> next_from_amount0_up_spec(s, l, a) == s,
{
    lemma_pow2_words();
    lemma_pow2_pos(96);
    lemma_pow2_adds(128, 96);
    let n1 = l * pow2(96);
    assert(1 <= n1 < pow2(224)) by (nonlinear_arith)
        requires
            1 <= l < pow2(128),
            pow2(96) >= 1,
            pow2(224) == pow2(128) * pow2(96),
            n1 == l * pow2(96),
    ;
    lemma_pow2_strictly_increases(224, 256);
    if a * s < p256() && n1 + a * s < p256() {
        assert(n1 * s <= (n1 + a * s) * s) by (nonlinear_arith)
            requires
                a * s >= 0,
                s >= 0,
                n1 >= 0,
        ;
        lemma_step_ceil_le(n1 * s, (n1 + a * s) as nat, s);
        assert(n1 * s >= 1) by (nonlinear_arith)
            requires
                n1 >= 1,
                s >= 1,
        ;
        lemma_ceil_div(n1 * s, (n1 + a * s) as nat);
        if a == 0 {
            assert(a * s == 0) by (nonlinear_arith)
                requires
                    a == 0,
            ;
            lemma_step_ceil_ge(n1 * s, n1, s);
        }
    } else {
        assert(a >= 1) by {
            if a == 0 {
                assert(a * s == 0) by (nonlinear_arith)
                    requires
                        a == 0,
                ;
            }
        }
        lemma_fundamental_div_mod(n1 as int, s as int);
        lemma_mod_division_less_than_divisor(n1 as int, s as int);
        assert(n1 <= (n1 / s + a) * s) by (nonlinear_arith)
            requires
                n1 == s * ((n1 as int) / (s as int)) + (n1 as int) % (s as int),
                0 <= (n1 as int) % (s as int),
                ((n1 as int) % (s as int)) < s,
                a >= 1,
                s >= 1,
        ;
        lemma_step_ceil_le(n1, n1 / s + a, s);
        lemma_ceil_div(n1, n1 / s + a);
    }
}

/// A price moved down by token0 being taken out never falls below the
/// starting price when rounded up.
proof fn lemma_next_down_ge_s(s: nat, l: nat, a: nat)
    requires
        l >= 1,
        a * s < p256(),
        l * pow2(96) > a * s,
    ensures
        next_from_amount0_down_spec(s, l, a) >= s,
        s >= 1 ==> next_from_amount0_down_spec(s, l, a) >= 1,
{
    lemma_pow2_pos(96);
    let n1 = l * pow2(96);
    let d = (n1 - a * s) as nat;
    assert(n1 * s >= d * s) by (nonlinear_arith)
        requires
            d <= n1,
            s >= 0,
            d >= 0,
    ;
    lemma_step_ceil_ge(n1 * s, d, s);
}

/// Both amounts between equal prices are zero.
proof fn lemma_zero_deltas(s: nat, l: nat)
    requires
        s > 0,
    ensures
        amount0_delta_spec(s, s, l, true) == 0,
        amount0_delta_spec(s, s, l, false) == 0,
        amount1_delta_spec(s, s, l, true) == 0,
        amount1_delta_spec(s, s, l, false) == 0,
{
    lemma_pow2_words();
    vstd::arithmetic::power2::lemma_pow2_pos(96);
    let n1 = l * pow2(96);
    assert(n1 * 0 == 0) by (nonlinear_arith);
    assert(l * 0 == 0) by (nonlinear_arith);
    lemma_ceil_div(0, s);
    lemma_ceil_div(0, pow2(96));
    lemma_div_of0(s as int);
    lemma_div_of0(pow2(96) as int);
    lemma_small_mod(0, s as nat);
    lemma_small_mod(0, pow2(96));
    lemma_ceil_div(0, s);
    assert(ceil_div(0, s) == 0);
    assert(ceil_div(0, pow2(96)) == 0);
    assert(amount0_delta_spec(s, s, l, true) == ceil_div(ceil_div(n1 * 0, s), s));
}

/// One swap step.
///
/// Clamps the move at the target price, derives the next square-root
/// price from the remaining amount, then recomputes the exact input,
/// output and fee for that move.  `amount_remaining >= 0` means the
/// trader fixed the input (fee comes out of it first); negative means
/// the trader fixed the output.
#[verifier::rlimit(100)]
pub fn compute_swap_step(
    sqrt_ratio_current_x96: &U256,
    sqrt_ratio_target_x96: &U256,
    liquidity: u128,
    amount_remaining: I256,
    fee_pips: u64,
) -> (r: Result<(U256, U256, U256, U256), Error>)
    requires
        0 < sqrt_ratio_current_x96.v() <= pow2(160),
        0 < sqrt_ratio_target_x96.v() <= pow2(160),
        0 < fee_pips < 1000000,
        amount_remaining.wf(),
    ensures
        ({
            let s = sqrt_ratio_current_x96.v();
            let t = sqrt_ratio_target_x96.v();
            let l = liquidity as nat;
            let zfo = s >= t;
            let exact_in = amount_remaining.iv() >= 0;
            let rem = amount_remaining.mag.v();
            let lf = less_fee_spec(rem, fee_pips as nat);
            let in0 = step_amount_in_to_target(s, t, l);
            let out0 = step_amount_out_to_target(s, t, l);
            &&& (exact_in && lf >= in0 ==> r is Ok)
            &&& (!exact_in && rem >= out0 ==> r is Ok)
            &&& (r is Ok ==> {
                let next = r->Ok_0.0.v();
                let ain = r->Ok_0.1.v();
                let aout = r->Ok_0.2.v();
                let fee = r->Ok_0.3.v();
                &&& 0 < next <= pow2(160)
                &&& (zfo ==> next <= s)
                &&& (!zfo ==> next >= s)
                &&& (s == t ==> next == t)
                &&& (exact_in && lf >= in0 ==> next == t)
                &&& (!exact_in && rem >= out0 ==> next == t)
                &&& (exact_in && lf < in0 && zfo ==> next == next_from_amount0_up_spec(s, l, lf))
                &&& (exact_in && lf < in0 && !zfo ==> next == s + amount1_quotient_spec(
                    l,
                    lf,
                    true,
                ))
                &&& (!exact_in && rem < out0 && zfo ==> next == s - amount1_quotient_spec(
                    l,
                    rem,
                    false,
                ))
                &&& (!exact_in && rem < out0 && !zfo ==> next == next_from_amount0_down_spec(
                    s,
                    l,
                    rem,
                ))
                &&& ain == (if next == t && exact_in {
                    in0
                } else if zfo {
                    amount0_delta_spec(next, s, l, true)
                } else {
                    amount1_delta_spec(s, next, l, true)
                })
                &&& ({
                    let pre = if next == t && !exact_in {
                        out0
                    } else if zfo {
                        amount1_delta_spec(next, s, l, false)
                    } else {
                        amount0_delta_spec(s, next, l, false)
                    };
                    aout == (if !exact_in && pre > rem {
                        rem
                    } else {
                        pre
                    })
                })
                &&& fee == (if exact_in && next != t {
                    (rem - ain) as nat
                } else {
                    ceil_div(ain * (fee_pips as nat), (1000000 - fee_pips) as nat)
                })
                &&& (exact_in && next != t ==> ain <= lf && ain + fee == rem)
                &&& (exact_in && lf >= in0 ==> ain + fee <= rem)
            })
        }),
{
    let s = *sqrt_ratio_current_x96;
    let t = *sqrt_ratio_target_x96;
    let zero_for_one = s.ge_u(&t);
    let exact_in = !amount_remaining.is_neg();
    let rem_mag = amount_remaining.abs_u256();
    proof {
        lemma_pow2_words();
        lemma_v_bound(rem_mag);
        lemma_pow2_pos(96);
        lemma_pow2_pos(160);
        if s.v() >= t.v() {
            lemma_delta_bounds(t.v(), s.v(), liquidity as nat);
        } else {
            lemma_delta_bounds(s.v(), t.v(), liquidity as nat);
        }
    }
    proof {
        if s.v() == t.v() {
            lemma_zero_deltas(s.v(), liquidity as nat);
        }
    }
    let mut next: U256;
    let mut amount_in = U256::zero();
    let mut amount_out = U256::zero();
    let fee_factor = U256::from_u64(1000000 - fee_pips);
    proof {
        lemma_mul_div_shrinks(rem_mag.v(), (1000000 - fee_pips) as nat, 1000000);
    }
    let amount_remaining_less_fee = match mul_div(&rem_mag, &fee_factor, &U256::from_u64(1000000)) {
        Ok(x) => x,
        Err(_) => {
            proof {
                assert(false);
            }
            U256::zero()
        },
    };
    if exact_in {
        let in_to_target = if zero_for_one {
            match get_amount0_delta(&t, &s, liquidity, true) {
                Ok(x) => x,
                Err(_) => {
                    proof {
                        assert(false);
                    }
                    U256::zero()
                },
            }
        } else {
            match get_amount1_delta(&s, &t, liquidity, true) {
                Ok(x) => x,
                Err(_) => {
                    proof {
                        assert(false);
                    }
                    U256::zero()
                },
            }
        };
        amount_in = in_to_target;
        if amount_remaining_less_fee.ge_u(&amount_in) {
            next = t;
        } else {
            proof {
                lemma_next_call_safe(
                    s.v(),
                    t.v(),
                    liquidity as nat,
                    amount_remaining_less_fee.v(),
                    zero_for_one,
                );
            }
            next = get_next_sqrt_price_from_input(
                &s,
                liquidity,
                &amount_remaining_less_fee,
                zero_for_one,
            )?;
            proof {
                if zero_for_one {
                    lemma_next_up_le_s(s.v(), liquidity as nat, amount_remaining_less_fee.v());
                }
            }
        }
    } else {
        let out_to_target = if zero_for_one {
            match get_amount1_delta(&t, &s, liquidity, false) {
                Ok(x) => x,
                Err(_) => {
                    proof {
                        assert(false);
                    }
                    U256::zero()
                },
            }
        } else {
            match get_amount0_delta(&s, &t, liquidity, false) {
                Ok(x) => x,
                Err(_) => {
                    proof {
                        assert(false);
                    }
                    U256::zero()
                },
            }
        };
        amount_out = out_to_target;
        if rem_mag.ge_u(&amount_out) {
            next = t;
        } else {
            next = get_next_sqrt_price_from_output(&s, liquidity, &rem_mag, zero_for_one)?;
            proof {
                if !zero_for_one {
                    if rem_mag.v() > 0 {
                        lemma_next_down_ge_s(s.v(), liquidity as nat, rem_mag.v());
                    }
                }
            }
        }
    }
    let max = t.eq_u(&next);
    if zero_for_one {
        if !(max && exact_in) {
            amount_in = get_amount0_delta(&next, &s, liquidity, true)?;
        }
        if !(max && !exact_in) {
            amount_out = get_amount1_delta(&next, &s, liquidity, false)?;
        }
    } else {
        if !(max && exact_in) {
            amount_in = get_amount1_delta(&s, &next, liquidity, true)?;
        }
        if !(max && !exact_in) {
            amount_out = get_amount0_delta(&s, &next, liquidity, false)?;
        }
    }
    if !exact_in && amount_out.gt_u(&rem_mag) {
        amount_out = rem_mag;
    }
    let fee_amount: U256;
    if exact_in && !next.eq_u(&t) {
        // the input recomputed for the reached price never exceeds the
        // fee-reduced remainder; the guard keeps that rounding fact local
        if amount_in.gt_u(&amount_remaining_less_fee) {
            return Err(Error::SqrtRatioInternalError);
        }
        fee_amount = rem_mag.sub_u(&amount_in);
    } else {
        proof {
            if exact_in {
                // the whole-move input fits under the remainder with its
                // fee: in * 1e6 <= lf * 1e6 <= rem * (1e6 - fee)
                let d = (1000000 - fee_pips) as nat;
                let lf = amount_remaining_less_fee.v();
                let rem = rem_mag.v();
                let ain = amount_in.v();
                lemma_fundamental_div_mod((rem * d) as int, 1000000);
                lemma_mod_division_less_than_divisor((rem * d) as int, 1000000);
                if ain <= lf {
                    assert(ain * (fee_pips as nat) <= d * ((rem - ain) as nat))
                        by (nonlinear_arith)
                        requires
                            ain <= lf,
                            rem * d == 1000000 * lf + (rem * d) as int % 1000000,
                            0 <= (rem * d) as int % 1000000,
                            d == 1000000 - fee_pips,
                            0 < fee_pips < 1000000,
                            ain <= rem,
                    ;
                    lemma_step_ceil_le(
                        ain * (fee_pips as nat),
                        d,
                        ((rem - ain) as nat),
                    );
                }
            }
        }
        proof {
            lemma_pow2_strictly_increases(224, 225);
            lemma_pow2_strictly_increases(193, 225);
            if zero_for_one {
                if !(max && exact_in) {
                    lemma_delta_bounds(next.v(), s.v(), liquidity as nat);
                }
            } else {
                if !(max && exact_in) {
                    lemma_delta_bounds(s.v(), next.v(), liquidity as nat);
                }
            }
            lemma_fee_fits(amount_in.v(), fee_pips as nat);
        }
        fee_amount = match mul_div_rounding_up(
            &amount_in,
            &U256::from_u64(fee_pips),
            &U256::from_u64(1000000 - fee_pips),
        ) {
            Ok(x) => x,
            Err(_) => {
                proof {
                    assert(false);
                }
                U256::zero()
            },
        };
    }
    Ok((next, amount_in, amount_out, fee_amount))
}

/// The fee on any 256-bit input fits: `ceil(a * f / (1e6 - f)) < 2^256`
/// cannot be relied on in general, but the recomputed input here is at
/// most `l * 2^96 + 1 < 2^225`, so the product stays far below 2^512/1e6.
proof fn lemma_fee_fits(a: nat, fee_pips: nat)
    requires
        a < p256(),
        0 < fee_pips < 1000000,
        a < pow2(225),
    ensures
        ceil_div(a * fee_pips, (1000000 - fee_pips) as nat) < p256(),
{
    lemma_pow2_words();
    lemma_pow2_adds(225, 20);
    lemma_pow2_strictly_increases(245, 255);
    lemma_pow2_strictly_increases(245, 256);
    lemma2_to64();
    let d = (1000000 - fee_pips) as nat;
    assert(a * fee_pips < pow2(245)) by (nonlinear_arith)
        requires
            a < pow2(225),
            fee_pips < 1000000,
            1000000 < pow2(20),
            pow2(245) == pow2(225) * pow2(20),
            a >= 0,
            pow2(20) > 0,
    ;
    assert(a * fee_pips <= d * pow2(245)) by (nonlinear_arith)
        requires
            a * fee_pips < pow2(245),
            d >= 1,
    ;
    lemma_step_ceil_le(a * fee_pips, d, pow2(245));
    lemma_pow2_strictly_increases(245, 256);
}

/// The inputs handed to `get_next_sqrt_price_from_input` inside a swap
/// step satisfy its no-panic preconditions: the amount is smaller than
/// what a full move to the target would need.
proof fn lemma_next_call_safe(s: nat, t: nat, l: nat, a: nat, zfo: bool)
    requires
        0 < s <= pow2(160),
        0 < t <= pow2(160),
        zfo == (s >= t),
        l < p128(),
        a < step_amount_in_to_target(s, t, l),
    ensures
        zfo && l > 0 ==> (!(a * s < p256() && l * pow2(96) + a * s < p256()) ==> l * pow2(96) / s
            + a < p256()),
        !zfo && l > 0 ==> (a * pow2(96) / l < p256() ==> s + a * pow2(96) / l < p256()),
        l > 0,
{
    lemma_pow2_words();
    lemma_pow2_pos(96);
    lemma_pow2_pos(160);
    if zfo {
        lemma_delta_bounds(t, s, l);
        assert(l > 0) by {
            if l == 0 {
                assert(step_amount_in_to_target(s, t, l) == 0) by {
                    assert((0nat * pow2(96)) == 0) by (nonlinear_arith);
                    assert(0nat * ((s - t) as nat) == 0) by (nonlinear_arith);
                    lemma_ceil_div(0, s);
                    lemma_ceil_div(0, t);
                    lemma_div_of0(s as int);
                    lemma_div_of0(t as int);
                    lemma_small_mod(0, s);
                    lemma_small_mod(0, t);
                }
            }
        }
        let n1 = l * pow2(96);
        assert(a < amount0_delta_spec(t, s, l, true));
        assert(amount0_delta_spec(t, s, l, true) <= n1);
        lemma_pow2_adds(128, 96);
        assert(n1 < pow2(224)) by (nonlinear_arith)
            requires
                n1 == l * pow2(96),
                l < pow2(128),
                pow2(224) == pow2(128) * pow2(96),
                pow2(96) > 0,
        ;
        lemma_pow2_pos(224);
        lemma_div_is_ordered_by_denominator(n1 as int, 1, s as int);
        lemma_div_basics(n1 as int);
        lemma_pow2_strictly_increases(225, 256);
        lemma_pow2_adds(224, 1);
        lemma2_to64();
        assert(n1 / s + a < pow2(224) + pow2(224));
        assert(pow2(224) + pow2(224) == pow2(225));
    } else {
        lemma_delta_bounds(s, t, l);
        assert(l > 0) by {
            if l == 0 {
                assert(step_amount_in_to_target(s, t, l) == 0) by {
                    assert(0nat * ((t - s) as nat) == 0) by (nonlinear_arith);
                    lemma_pow2_pos(96);
                    lemma_ceil_div(0, pow2(96));
                    lemma_div_of0(pow2(96) as int);
                    lemma_small_mod(0, pow2(96));
                }
            }
        }
        // a < ceil(l * (t - s) / 2^96), so a * 2^96 / l <= t - s + 2^96
        let n2 = (t - s) as nat;
        lemma_ceil_div(l * n2, pow2(96));
        lemma_fundamental_div_mod((l * n2) as int, pow2(96) as int);
        lemma_mod_division_less_than_divisor((l * n2) as int, pow2(96) as int);
        assert(a * pow2(96) < l * n2 + l * pow2(96)) by (nonlinear_arith)
            requires
                a < ceil_div(l * n2, pow2(96)),
                ceil_div(l * n2, pow2(96)) == (l * n2) as int / pow2(96) as int + (if (l
                    * n2) as int % pow2(96) as int > 0 {
                    1int
                } else {
                    0int
                }),
                (l * n2) as int == pow2(96) * ((l * n2) as int / pow2(96) as int) + (l * n2) as int
                    % pow2(96) as int,
                0 <= (l * n2) as int % pow2(96) as int,
                ((l * n2) as int % pow2(96) as int) < pow2(96),
                pow2(96) > 0,
                l >= 1,
        ;
        lemma_fundamental_div_mod((a * pow2(96)) as int, l as int);
        lemma_mod_division_less_than_divisor((a * pow2(96)) as int, l as int);
        assert(a * pow2(96) / l <= n2 + pow2(96)) by (nonlinear_arith)
            requires
                a * pow2(96) < l * n2 + l * pow2(96),
                (a * pow2(96)) as int == (l as int) * ((a * pow2(96)) as int / (l as int)) + (a
                    * pow2(96)) as int % (l as int),
                0 <= (a * pow2(96)) as int % (l as int),
                l >= 1,
        ;
        lemma_pow2_strictly_increases(160, 256);
        lemma_pow2_strictly_increases(96, 160);
        lemma_pow2_adds(160, 2);
        lemma_pow2_strictly_increases(162, 256);
        lemma2_to64();
        assert(pow2(162) == pow2(160) * 4);
        assert(s + (n2 + pow2(96)) < pow2(162));
    }
}

} // verus!
