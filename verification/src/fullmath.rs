//! Full-precision multiply-divide over 256-bit values.
//!
//! `mul_div` computes `floor(a * b / d)` through a 512-bit intermediate
//! product and fails exactly when the denominator is zero or the true
//! quotient does not fit in 256 bits.

use vstd::prelude::*;
use vstd::arithmetic::div_mod::*;
use vstd::arithmetic::mul::*;
use vstd::arithmetic::power2::*;

use crate::error::Error;
use crate::u256::{
    U256, U512, div_rem_512, div_rem_u256, lemma_pow2_words, lemma_u512_low, lemma_v_bound,
    mul_full, p128, p256, p384,
};

verus! {

/// Ceiling division on mathematical values.
pub open spec fn ceil_div(x: nat, d: nat) -> nat
    recommends
        d > 0,
{
    ((x + d - 1) / d as int) as nat
}

/// The ceiling is the floor plus one exactly when the division is inexact.
pub proof fn lemma_ceil_div(x: nat, d: nat)
    requires
        d > 0,
    ensures
        ceil_div(x, d) == x / d + (if x % d > 0 { 1nat } else { 0nat }),
        x / d <= ceil_div(x, d),
        ceil_div(x, d) * d >= x,
        x > 0 ==> ceil_div(x, d) >= 1,
{
    let xi = x as int;
    let di = d as int;
    lemma_fundamental_div_mod(xi, di);
    lemma_mod_division_less_than_divisor(xi, di);
    let q = xi / di;
    let m = xi % di;
    if m > 0 {
        assert(xi + di - 1 == (q + 1) * di + (m - 1)) by (nonlinear_arith)
            requires
                xi == di * q + m,
        ;
        lemma_fundamental_div_mod_converse(xi + di - 1, di, q + 1, m - 1);
    } else {
        assert(xi + di - 1 == q * di + (di - 1)) by (nonlinear_arith)
            requires
                xi == di * q + m,
                m == 0,
        ;
        lemma_fundamental_div_mod_converse(xi + di - 1, di, q, di - 1);
    }
    let c = ceil_div(x, d);
    assert(c * d >= x) by (nonlinear_arith)
        requires
            x == d * q + m,
            0 <= m < d,
            c == q + (if m > 0 { 1int } else { 0int }),
            d > 0,
    ;
}

/// Law: for every `a`, `b` and `d > 0`, the value returned by `mul_div`
/// (the floor quotient `a * b / d`) brackets the true ratio:
/// `mul_div(a,b,d) * d <= a * b < (mul_div(a,b,d) + 1) * d`, and the value
/// returned by `mul_div_rounding_up` is exactly its ceiling, one more than
/// the floor precisely when the division is inexact.
pub proof fn lemma_mul_div_bounds(a: nat, b: nat, d: nat)
    requires
        d > 0,
    ensures
        (a * b / d) * d <= a * b,
        a * b < (a * b / d + 1) * d,
        ceil_div(a * b, d) == a * b / d + (if (a * b) % d > 0 { 1nat } else { 0nat }),
{
    let xi = (a * b) as int;
    let di = d as int;
    lemma_fundamental_div_mod(xi, di);
    lemma_mod_division_less_than_divisor(xi, di);
    assert((xi / di) * di <= xi && xi < (xi / di + 1) * di) by (nonlinear_arith)
        requires
            xi == di * (xi / di) + xi % di,
            0 <= xi % di,
            (xi % di) < di,
    ;
    lemma_ceil_div(a * b, d);
}

/// 2^96, the Q64.96 scale.
pub fn q96() -> (r: U256)
    ensures
        r.v() == pow2(96),
{
    U256::power_of_two(96)
}

/// 2^128, the Q128.128 scale.
pub fn q128() -> (r: U256)
    ensures
        r.v() == pow2(128),
{
    U256::power_of_two(128)
}

/// `floor(a * b / denominator)` with a 512-bit intermediate product.
///
/// Fails with `InvalidMulDiv` exactly when the denominator is zero or the
/// quotient does not fit in 256 bits.
pub fn mul_div(a: &U256, b: &U256, denominator: &U256) -> (r: Result<U256, Error>)
    ensures
        r is Ok <==> denominator.v() > 0 && a.v() * b.v() / denominator.v() < p256(),
        r is Ok ==> r->Ok_0.v() == a.v() * b.v() / denominator.v(),
        r is Err ==> r == Result::<U256, Error>::Err(Error::InvalidMulDiv),
{
    if denominator.is_zero() {
        return Err(Error::InvalidMulDiv);
    }
    let product = mul_full(a, b);
    let (q, _rem) = div_rem_512(&product, denominator);
    proof {
        lemma_fundamental_div_mod_converse(
            product.v() as int,
            denominator.v() as int,
            q.v() as int,
            _rem.v() as int,
        );
        assert(q.v() == a.v() * b.v() / denominator.v());
        if q.w2 == 0 && q.w3 == 0 {
            assert(q.v() < p256()) by (nonlinear_arith)
                requires
                    q.v() == q.w0 + q.w1 * p128() + q.w2 * p256() + q.w3 * p384(),
                    q.w2 == 0,
                    q.w3 == 0,
                    q.w0 < p128(),
                    q.w1 < p128(),
                    p256() == p128() * p128(),
            ;
        } else {
            lemma_v_bound_contrapositive(q);
        }
    }
    if q.w2 == 0 && q.w3 == 0 {
        Ok(q.to_u256())
    } else {
        Err(Error::InvalidMulDiv)
    }
}

/// A `U512` with a nonzero upper word is at least 2^256.
proof fn lemma_v_bound_contrapositive(q: U512)
    requires
        q.w2 != 0 || q.w3 != 0,
    ensures
        q.v() >= p256(),
{
    if q.v() < p256() {
        lemma_u512_low(q);
    }
}

/// `(a * b) % denominator` with a 512-bit intermediate product.
pub fn mul_mod(a: &U256, b: &U256, denominator: &U256) -> (r: U256)
    requires
        denominator.v() > 0,
    ensures
        r.v() == (a.v() * b.v()) % denominator.v(),
{
    let product = mul_full(a, b);
    let (_q, rem) = div_rem_512(&product, denominator);
    proof {
        lemma_fundamental_div_mod_converse(
            product.v() as int,
            denominator.v() as int,
            _q.v() as int,
            rem.v() as int,
        );
    }
    rem
}

/// `ceil(a * b / denominator)`; fails when the denominator is zero or the
/// rounded-up quotient does not fit in 256 bits.
pub fn mul_div_rounding_up(a: &U256, b: &U256, denominator: &U256) -> (r: Result<U256, Error>)
    ensures
        r is Ok <==> denominator.v() > 0 && ceil_div(a.v() * b.v(), denominator.v()) < p256(),
        r is Ok ==> r->Ok_0.v() == ceil_div(a.v() * b.v(), denominator.v()),
        r is Err ==> r == Result::<U256, Error>::Err(Error::InvalidMulDiv),
{
    let result = match mul_div(a, b, denominator) {
        Ok(x) => x,
        Err(e) => {
            proof {
                if denominator.v() > 0 {
                    lemma_ceil_div(a.v() * b.v(), denominator.v());
                }
            }
            return Err(e);
        },
    };
    proof {
        lemma_ceil_div(a.v() * b.v(), denominator.v());
    }
    if mul_mod(a, b, denominator).gt_u(&U256::zero()) {
        if result.lt_u(&U256::max_value()) {
            Ok(result.add_u(&U256::one()))
        } else {
            Err(Error::InvalidMulDiv)
        }
    } else {
        Ok(result)
    }
}

/// `ceil(x / y)` for a nonzero divisor; never overflows.
pub fn unsafe_div_rounding_up(x: &U256, y: &U256) -> (r: U256)
    requires
        y.v() > 0,
    ensures
        r.v() == ceil_div(x.v(), y.v()),
{
    let (div, rem) = div_rem_u256(x, y);
    proof {
        lemma_ceil_div(x.v(), y.v());
        lemma_v_bound(*x);
        lemma_div_is_ordered_by_denominator(x.v() as int, 1, y.v() as int);
        lemma_div_basics(x.v() as int);
        if rem.v() > 0 {
            if y.v() == 1 {
                lemma_mod_multiples_basic(x.v() as int, 1);
                lemma_small_mod(0, 1);
                assert(x.v() % 1 == 0) by {
                    lemma_fundamental_div_mod(x.v() as int, 1);
                }
            }
            assert(y.v() >= 2);
            lemma_div_is_ordered_by_denominator(x.v() as int, 2, y.v() as int);
            lemma_div_decreases((x.v() + 1) as int, 2);
            assert(x.v() / 2 < p256());
        }
    }
    if rem.gt_u(&U256::zero()) {
        div.add_u(&U256::one())
    } else {
        div
    }
}

/// Wrapping difference modulo 2^160 of two 160-bit values.
pub open spec fn wsub160(a: nat, b: nat) -> nat {
    if a >= b {
        (a - b) as nat
    } else {
        (a + pow2(160) - b) as nat
    }
}

/// Difference modulo 2^160, for 160-bit operands.
pub fn overflow_sub_u160(a: &U256, b: &U256) -> (r: U256)
    requires
        a.v() < pow2(160),
        b.v() < pow2(160),
    ensures
        r.v() == wsub160(a.v(), b.v()),
{
    proof {
        lemma_pow2_words();
        lemma_pow2_strictly_increases(161, 256);
        lemma_pow2_adds(160, 1);
        lemma2_to64();
        assert(pow2(161) == pow2(160) * 2);
    }
    if a.lt_u(b) {
        let shifted = a.add_u(&U256::power_of_two(160));
        shifted.sub_u(b)
    } else {
        a.sub_u(b)
    }
}

} // verus!
