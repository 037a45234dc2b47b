//! Conversion between ticks and square-root prices in Q64.96.
//!
//! A tick `t` stands for the square-root price `1.0001^(t/2)`; the
//! conversion multiplies precomputed Q128.128 factors, one per bit of the
//! tick's magnitude.  The executable functions are proved equal to spec
//! mirrors of those fixed-point walks (`ratio_after`, `log_r`, `log_acc`),
//! which pin every bit of the result.

use vstd::prelude::*;
use vstd::arithmetic::div_mod::*;
use vstd::arithmetic::mul::*;
use vstd::arithmetic::power2::*;

use crate::error::Error;
use crate::fullmath::{ceil_div, lemma_ceil_div};
use crate::i256::I256;
use crate::u256::{U256, lemma_pow2_words, lemma_v_bound, mul_full, p128, p256, p384};

verus! {

pub const MIN_TICK: i32 = -887272;

pub const MAX_TICK: i32 = 887272;

/// Smallest representable square-root price, `sqrt_ratio(MIN_TICK)`.
pub fn min_sqrt_ratio() -> (r: U256)
    ensures
        r.v() == 4295128739,
{
    U256 { lo: 4295128739, hi: 0 }
}

/// Upper bound on square-root prices, `sqrt_ratio(MAX_TICK)`.
pub fn max_sqrt_ratio() -> (r: U256)
    ensures
        r.v() == 4294805859 * p128() + 318775800626314356294205765087544249638,
{
    U256 { lo: 318775800626314356294205765087544249638, hi: 4294805859 }
}

/// The Q128.128 factor applied for bit `i` of the tick magnitude.
pub open spec fn factor(i: int) -> nat {
    if i == 0 {
        340265354078544963557816517032075149313nat
    } else if i == 1 {
        340248342086729790484326174814286782778nat
    } else if i == 2 {
        340214320654664324051920982716015181260nat
    } else if i == 3 {
        340146287995602323631171512101879684304nat
    } else if i == 4 {
        340010263488231146823593991679159461444nat
    } else if i == 5 {
        339738377640345403697157401104375502016nat
    } else if i == 6 {
        339195258003219555707034227454543997025nat
    } else if i == 7 {
        338111622100601834656805679988414885971nat
    } else if i == 8 {
        335954724994790223023589805789778977700nat
    } else if i == 9 {
        331682121138379247127172139078559817300nat
    } else if i == 10 {
        323299236684853023288211250268160618739nat
    } else if i == 11 {
        307163716377032989948697243942600083929nat
    } else if i == 12 {
        277268403626896220162999269216087595045nat
    } else if i == 13 {
        225923453940442621947126027127485391333nat
    } else if i == 14 {
        149997214084966997727330242082538205943nat
    } else if i == 15 {
        66119101136024775622716233608466517926nat
    } else if i == 16 {
        12847376061809297530290974190478138313nat
    } else if i == 17 {
        485053260817066172746253684029974020nat
    } else if i == 18 {
        691415978906521570653435304214168nat
    } else if i == 19 {
        1404880482679654955896180642nat
    } else {
        0nat
    }
}

/// Bit `i` of `t`.
pub open spec fn bit_set(t: nat, i: nat) -> bool {
    (t / pow2(i)) % 2 == 1
}

/// The running Q128.128 product after the factors for bits `0..=i`.
pub open spec fn ratio_after(t: nat, i: int) -> nat
    decreases i,
{
    if i <= 0 {
        if bit_set(t, 0) {
            factor(0)
        } else {
            p128()
        }
    } else {
        let prev = ratio_after(t, i - 1);
        if bit_set(t, i as nat) {
            prev * factor(i) / p128()
        } else {
            prev
        }
    }
}

/// The square-root price of a tick, in Q64.96.
pub open spec fn sqrt_ratio_spec(tick: int) -> nat {
    let t = (if tick < 0 { -tick } else { tick }) as nat;
    let ratio = ratio_after(t, 19);
    let adjusted = if tick > 0 {
        if ratio == 0 { 0nat } else { (p256() - 1) as nat / ratio }
    } else {
        ratio
    };
    ceil_div(adjusted, pow2(32))
}

/// `a * c / 2^128`, the Q128.128 multiply-shift.
fn mul_shift(a: &U256, c: u128) -> (r: U256)
    ensures
        r.v() == a.v() * (c as nat) / p128(),
{
    let wide = mul_full(a, &U256::from_u128(c));
    proof {
        lemma_v_bound(*a);
        assert(a.v() * c < p384()) by (nonlinear_arith)
            requires
                a.v() < p256(),
                c < p128(),
                p384() == p256() * p128(),
        ;
    }
    wide.shr128_to_u256()
}

/// One factor application: multiply in the Q128.128 factor for bit `i`
/// when that bit of the tick magnitude is set.
fn factor_step(abs_tick: u32, ratio: U256, i: Ghost<int>, li: u32, c: u128) -> (r: U256)
    requires
        1 <= i@ <= 19,
        li == pow2(i@ as nat),
        c == factor(i@),
        ratio.v() == ratio_after(abs_tick as nat, i@ - 1),
    ensures
        r.v() == ratio_after(abs_tick as nat, i@),
{
    proof {
        lemma_pow2_pos(i@ as nat);
    }
    if (abs_tick / li) % 2 == 1 {
        mul_shift(&ratio, c)
    } else {
        ratio
    }
}

/// The Q64.96 square-root price of a tick.
///
/// Fails with `ErrT` exactly when the tick lies outside
/// `[MIN_TICK, MAX_TICK]`.
#[verifier::rlimit(100)]
pub fn get_sqrt_ratio_at_tick(tick: i32) -> (r: Result<U256, Error>)
    ensures
        r is Ok <==> MIN_TICK <= tick <= MAX_TICK,
        r is Ok ==> r->Ok_0.v() == sqrt_ratio_spec(tick as int),
        r is Err ==> r == Result::<U256, Error>::Err(Error::ErrT),
{
    let abs_tick: u32 = if tick < 0 {
        (-(tick as i64)) as u32
    } else {
        tick as u32
    };
    if abs_tick > 887272 {
        return Err(Error::ErrT);
    }
    proof {
        lemma2_to64();
    }
    let mut ratio: U256 = if abs_tick % 2 == 1 {
        U256::from_u128(340265354078544963557816517032075149313)
    } else {
        U256 { lo: 0, hi: 1 }
    };
    proof {
        lemma_pow2_words();
        assert(ratio.v() == ratio_after(abs_tick as nat, 0));
    }
    proof {
        lemma2_to64();
        lemma2_to64_rest();
    }
    ratio = factor_step(abs_tick, ratio, Ghost(1), 2, 340248342086729790484326174814286782778);
    ratio = factor_step(abs_tick, ratio, Ghost(2), 4, 340214320654664324051920982716015181260);
    ratio = factor_step(abs_tick, ratio, Ghost(3), 8, 340146287995602323631171512101879684304);
    ratio = factor_step(abs_tick, ratio, Ghost(4), 16, 340010263488231146823593991679159461444);
    ratio = factor_step(abs_tick, ratio, Ghost(5), 32, 339738377640345403697157401104375502016);
    ratio = factor_step(abs_tick, ratio, Ghost(6), 64, 339195258003219555707034227454543997025);
    ratio = factor_step(abs_tick, ratio, Ghost(7), 128, 338111622100601834656805679988414885971);
    ratio = factor_step(abs_tick, ratio, Ghost(8), 256, 335954724994790223023589805789778977700);
    ratio = factor_step(abs_tick, ratio, Ghost(9), 512, 331682121138379247127172139078559817300);
    ratio = factor_step(abs_tick, ratio, Ghost(10), 1024, 323299236684853023288211250268160618739);
    ratio = factor_step(abs_tick, ratio, Ghost(11), 2048, 307163716377032989948697243942600083929);
    ratio = factor_step(abs_tick, ratio, Ghost(12), 4096, 277268403626896220162999269216087595045);
    ratio = factor_step(abs_tick, ratio, Ghost(13), 8192, 225923453940442621947126027127485391333);
    ratio = factor_step(abs_tick, ratio, Ghost(14), 16384, 149997214084966997727330242082538205943);
    ratio = factor_step(abs_tick, ratio, Ghost(15), 32768, 66119101136024775622716233608466517926);
    ratio = factor_step(abs_tick, ratio, Ghost(16), 65536, 12847376061809297530290974190478138313);
    ratio = factor_step(abs_tick, ratio, Ghost(17), 131072, 485053260817066172746253684029974020);
    ratio = factor_step(abs_tick, ratio, Ghost(18), 262144, 691415978906521570653435304214168);
    ratio = factor_step(abs_tick, ratio, Ghost(19), 524288, 1404880482679654955896180642);
    let adjusted = if tick > 0 {
        if ratio.is_zero() {
            U256::zero()
        } else {
            U256::max_value().div_u(&ratio)
        }
    } else {
        ratio
    };
    let rem = adjusted.mod_pow2(32);
    let shifted = adjusted.shr(32);
    proof {
        lemma_pow2_words();
        lemma_ceil_div(adjusted.v(), pow2(32));
        lemma_pow2_pos(32);
        lemma_v_bound(adjusted);
        if rem.v() > 0 {
            lemma_div_is_ordered_by_denominator(adjusted.v() as int, 2, pow2(32) as int);
            lemma_pow2_unfold(32);
            lemma_div_is_ordered_by_denominator(adjusted.v() as int, 2, pow2(32) as int);
            assert(pow2(32) >= 2);
            lemma_div_decreases((adjusted.v() + 1) as int, 2);
        }
    }
    if rem.is_zero() {
        Ok(shifted)
    } else {
        Ok(shifted.add_u(&U256::one()))
    }
}


/// Floor of the base-2 logarithm.
pub open spec fn log2_floor(n: nat) -> nat
    decreases n,
{
    if n < 2 {
        0
    } else {
        1 + log2_floor(n / 2)
    }
}

/// The most-significant-bit contract determines the floor logarithm.
pub proof fn lemma_log2_floor(n: nat, r: nat)
    requires
        pow2(r) <= n < pow2((r + 1) as nat),
    ensures
        log2_floor(n) == r,
    decreases r,
{
    lemma2_to64();
    if r == 0 {
    } else {
        lemma_pow2_unfold(r);
        lemma_pow2_unfold((r + 1) as nat);
        lemma_pow2_pos((r - 1) as nat);
        assert(pow2((r - 1) as nat) <= n / 2 < pow2(r)) by {
            lemma_div_is_ordered(pow2(r) as int, n as int, 2);
            lemma_div_is_ordered(n as int, (pow2((r + 1) as nat) - 1) as int, 2);
            lemma_fundamental_div_mod((pow2((r + 1) as nat) - 1) as int, 2);
        }
        lemma_log2_floor(n / 2, (r - 1) as nat);
    }
}

/// The running value in the fixed-point logarithm walk after `j` squarings.
pub open spec fn log_r(r0: nat, j: int) -> nat
    decreases j,
{
    if j <= 0 {
        r0
    } else {
        let sq = log_r(r0, j - 1) * log_r(r0, j - 1) / pow2(127);
        if sq / p128() >= 1 {
            sq / 2
        } else {
            sq
        }
    }
}

/// The bit produced by step `j` of the logarithm walk.
pub open spec fn f_at(r0: nat, j: int) -> nat {
    (log_r(r0, j - 1) * log_r(r0, j - 1) / pow2(127)) / p128()
}

/// The fractional log bits accumulated after `j` steps, scaled by 2^64.
pub open spec fn log_acc(r0: nat, j: int) -> nat
    decreases j,
{
    if j <= 0 {
        0
    } else {
        log_acc(r0, j - 1) + f_at(r0, j) * pow2((64 - j) as nat)
    }
}

/// The unique tick whose square-root price is nearest below `s`.
pub open spec fn tick_at_spec(s: nat) -> int {
    let ratio = s * pow2(32);
    let msb = log2_floor(ratio) as int;
    let r0 = if msb >= 128 {
        ratio / pow2((msb - 127) as nat)
    } else {
        ratio * pow2((127 - msb) as nat)
    };
    let log2v = (msb - 128) * pow2(64) + log_acc(r0, 14);
    let ls = log2v * 255738958999603826347141;
    let tl = (ls - 3402992956809132418596140100660247210) / (pow2(128) as int);
    let th = (ls + 291339464771989622907027621153398088495) / (pow2(128) as int);
    if tl == th {
        tl
    } else if MIN_TICK <= th <= MAX_TICK && sqrt_ratio_spec(th) <= s {
        th
    } else {
        tl
    }
}

/// One squaring step of the logarithm walk: squares the running value,
/// renormalises, and returns the produced bit already scaled into place.
fn log_step(r: U256, j: Ghost<int>, r0: Ghost<nat>, shift_c: u128) -> (res: (U256, u128))
    requires
        1 <= j@ <= 14,
        r.v() == log_r(r0@, j@ - 1),
        r.v() < p128(),
        shift_c == pow2((64 - j@) as nat),
    ensures
        res.0.v() == log_r(r0@, j@),
        res.0.v() < p128(),
        res.1 == f_at(r0@, j@) * pow2((64 - j@) as nat),
        res.1 <= shift_c,
{
    let sq_wide = mul_full(&r, &r);
    proof {
        lemma_pow2_words();
        lemma_pow2_pos(127);
        crate::u256::lemma_v512_bound(sq_wide);
        lemma_div_is_ordered_by_denominator(sq_wide.v() as int, 1, pow2(127) as int);
        lemma_div_basics(sq_wide.v() as int);
        assert(sq_wide.v() < p256()) by (nonlinear_arith)
            requires
                sq_wide.v() == r.v() * r.v(),
                r.v() < p128(),
                p256() == p128() * p128(),
        ;
        assert(sq_wide.v() / pow2(127) < p256()) by {
            lemma_pow2_adds(127, 129);
            lemma_pow2_strictly_increases(129, 256);
            lemma_div_bound_quotient(sq_wide.v() as int, pow2(127) as int, pow2(129) as int);
            lemma_div_is_ordered(sq_wide.v() as int, sq_wide.v() as int, pow2(127) as int);
        }
    }
    let sq = sq_wide.shr127_to_u256();
    proof {
        assert(sq.v() < pow2(129)) by {
            lemma_pow2_adds(127, 129);
            lemma_div_bound_quotient(sq_wide.v() as int, pow2(127) as int, pow2(129) as int);
        }
        assert(sq.hi <= 1) by {
            lemma_pow2_words();
            lemma_pow2_adds(128, 1);
            lemma2_to64();
            assert(sq.v() == sq.lo + sq.hi * p128());
            if sq.hi >= 2 {
                assert(sq.v() >= 2 * p128()) by (nonlinear_arith)
                    requires
                        sq.v() == sq.lo + sq.hi * p128(),
                        sq.hi >= 2,
                ;
            }
        }
        assert((sq.v() / p128()) == sq.hi) by {
            lemma_div_multiples_vanish_fancy(sq.hi as int, sq.lo as int, p128() as int);
            assert(sq.v() == p128() * sq.hi + sq.lo) by (nonlinear_arith)
                requires
                    sq.v() == sq.lo + sq.hi * p128(),
            ;
        }
    }
    if sq.hi >= 1 {
        let half = sq.shr(1);
        proof {
            lemma2_to64();
            assert(half.v() < p128()) by {
                lemma_pow2_adds(128, 1);
                lemma_pow2_words();
                lemma_div_bound_quotient(sq.v() as int, 2, p128() as int);
            }
            assert(f_at(r0@, j@) == 1);
            assert(1 * pow2((64 - j@) as nat) == pow2((64 - j@) as nat)) by (nonlinear_arith);
        }
        (half, shift_c)
    } else {
        proof {
            assert(f_at(r0@, j@) == 0);
            assert(0 * pow2((64 - j@) as nat) == 0) by (nonlinear_arith);
        }
        (sq, 0)
    }
}

/// `x / d < b` when `x < d * b`.
proof fn lemma_div_bound_quotient(x: int, d: int, b: int)
    requires
        d > 0,
        0 <= x,
        x < d * b,
    ensures
        x / d < b,
{
    lemma_fundamental_div_mod(x, d);
    lemma_mod_division_less_than_divisor(x, d);
    assert(x / d < b) by (nonlinear_arith)
        requires
            x == d * (x / d) + x % d,
            0 <= x % d,
            (x % d) < d,
            x < d * b,
            d > 0,
    ;
}

/// Bounds on a floor quotient of a magnitude-bounded integer.
proof fn lemma_div_bound_abs(x: int, b: int, d: int)
    requires
        d > 0,
        b >= 0,
        -b <= x <= b,
    ensures
        -(b / d) - 1 <= x / d <= b / d,
{
    lemma_fundamental_div_mod(x, d);
    lemma_mod_division_less_than_divisor(x, d);
    lemma_fundamental_div_mod(b, d);
    lemma_mod_division_less_than_divisor(b, d);
    assert(-(b / d) - 1 <= x / d <= b / d) by (nonlinear_arith)
        requires
            x == d * (x / d) + x % d,
            0 <= x % d,
            (x % d) < d,
            b == d * (b / d) + b % d,
            0 <= b % d,
            (b % d) < d,
            -b <= x <= b,
            d > 0,
    ;
}

/// The tick for a Q64.96 square-root price, by the fixed-point logarithm
/// walk that `tick_at_spec` mirrors bit for bit: a base-2 logarithm from
/// the leading bit, fourteen squaring refinements, the change of base to
/// log of the square root of 1.0001, and a final correction of the
/// candidate pair against `get_sqrt_ratio_at_tick`.
///
/// Fails with `ErrR` exactly when `s` lies outside
/// `[min_sqrt_ratio, max_sqrt_ratio)`.
#[verifier::rlimit(100)]
pub fn get_tick_at_sqrt_ratio(sqrt_price_x96: U256) -> (r: Result<i32, Error>)
    ensures
        r is Ok <==> 4295128739 <= sqrt_price_x96.v() < 4294805859 * p128()
            + 318775800626314356294205765087544249638,
        r is Ok ==> r->Ok_0 == tick_at_spec(sqrt_price_x96.v()),
        r is Err ==> r == Result::<i32, Error>::Err(Error::ErrR),
{
    let s = sqrt_price_x96;
    if s.lt_u(&min_sqrt_ratio()) || !s.lt_u(&max_sqrt_ratio()) {
        return Err(Error::ErrR);
    }
    proof {
        lemma_pow2_words();
        lemma2_to64();
        lemma2_to64_rest();
        lemma_v_bound(s);
        lemma_pow2_adds(32, 128);
        lemma_pow2_adds(160, 1);
        assert(pow2(161) == pow2(160) * 2);
        assert(s.v() < pow2(161)) by (nonlinear_arith)
            requires
                s.v() < 4294805859 * p128() + 318775800626314356294205765087544249638,
                p128() == pow2(128),
                pow2(161) == pow2(32) * pow2(128) + pow2(32) * pow2(128),
                4294805859 < pow2(32),
                318775800626314356294205765087544249638 < pow2(128),
                pow2(32) >= 1,
        ;
        lemma_pow2_adds(161, 32);
        lemma_pow2_strictly_increases(193, 256);
        assert(s.v() * pow2(32) < p256()) by (nonlinear_arith)
            requires
                s.v() < pow2(161),
                pow2(193) == pow2(161) * pow2(32),
                pow2(193) < p256(),
        ;
        assert(s.v() * pow2(32) >= pow2(32)) by (nonlinear_arith)
            requires
                s.v() >= 1,
                pow2(32) > 0,
        ;
    }
    let ratio = s.shl(32);
    let msb = crate::bitmath::most_significant_bit_internal(ratio);
    proof {
        lemma_log2_floor(ratio.v(), msb as nat);
    }
    let r0 = if msb >= 128 {
        ratio.shr((msb - 127) as u32)
    } else {
        proof {
            lemma_pow2_adds(msb as nat + 1, (127 - msb) as nat);
            lemma_pow2_pos((127 - msb) as nat);
            assert(ratio.v() * pow2((127 - msb) as nat) < pow2(128)) by (nonlinear_arith)
                requires
                    ratio.v() < pow2((msb + 1) as nat),
                    pow2(128) == pow2((msb + 1) as nat) * pow2((127 - msb) as nat),
                    pow2((127 - msb) as nat) > 0,
            ;
            lemma_pow2_strictly_increases(128, 256);
        }
        ratio.shl((127 - msb) as u32)
    };
    proof {
        if msb >= 128 {
            lemma_pow2_adds((msb - 127) as nat, 128);
            lemma_div_bound_quotient(
                ratio.v() as int,
                pow2((msb - 127) as nat) as int,
                p128() as int,
            );
        } else {
            lemma_pow2_strictly_increases(128, 256);
        }
        assert(r0.v() < p128());
    }
    let ghost r0v = r0.v();
    let mut r = r0;
    let mut acc: u128 = 0;
    proof {
        assert(r.v() == log_r(r0v, 0));
        assert(acc == log_acc(r0v, 0));
    }
    let (r1, b1) = log_step(r, Ghost(1), Ghost(r0v), 0x8000000000000000);
    let (r2, b2) = log_step(r1, Ghost(2), Ghost(r0v), 0x4000000000000000);
    let (r3, b3) = log_step(r2, Ghost(3), Ghost(r0v), 0x2000000000000000);
    let (r4, b4) = log_step(r3, Ghost(4), Ghost(r0v), 0x1000000000000000);
    let (r5, b5) = log_step(r4, Ghost(5), Ghost(r0v), 0x800000000000000);
    let (r6, b6) = log_step(r5, Ghost(6), Ghost(r0v), 0x400000000000000);
    let (r7, b7) = log_step(r6, Ghost(7), Ghost(r0v), 0x200000000000000);
    let (r8, b8) = log_step(r7, Ghost(8), Ghost(r0v), 0x100000000000000);
    let (r9, b9) = log_step(r8, Ghost(9), Ghost(r0v), 0x80000000000000);
    let (r10, b10) = log_step(r9, Ghost(10), Ghost(r0v), 0x40000000000000);
    let (r11, b11) = log_step(r10, Ghost(11), Ghost(r0v), 0x20000000000000);
    let (r12, b12) = log_step(r11, Ghost(12), Ghost(r0v), 0x10000000000000);
    let (r13, b13) = log_step(r12, Ghost(13), Ghost(r0v), 0x8000000000000);
    let (r14, b14) = log_step(r13, Ghost(14), Ghost(r0v), 0x4000000000000);
    acc = ((((((((((((b1 + b2) + b3) + b4) + b5) + b6) + b7) + b8) + b9) + b10) + b11) + b12)
        + b13) + b14;
    proof {
        assert(log_acc(r0v, 1) == b1);
        assert(log_acc(r0v, 2) == b1 + b2);
        assert(log_acc(r0v, 3) == b1 + b2 + b3);
        assert(log_acc(r0v, 4) == b1 + b2 + b3 + b4);
        assert(log_acc(r0v, 5) == b1 + b2 + b3 + b4 + b5);
        assert(log_acc(r0v, 6) == b1 + b2 + b3 + b4 + b5 + b6);
        assert(log_acc(r0v, 7) == b1 + b2 + b3 + b4 + b5 + b6 + b7);
        assert(log_acc(r0v, 8) == b1 + b2 + b3 + b4 + b5 + b6 + b7 + b8);
        assert(log_acc(r0v, 9) == b1 + b2 + b3 + b4 + b5 + b6 + b7 + b8 + b9);
        assert(log_acc(r0v, 10) == b1 + b2 + b3 + b4 + b5 + b6 + b7 + b8 + b9 + b10);
        assert(log_acc(r0v, 11) == b1 + b2 + b3 + b4 + b5 + b6 + b7 + b8 + b9 + b10 + b11);
        assert(log_acc(r0v, 12) == b1 + b2 + b3 + b4 + b5 + b6 + b7 + b8 + b9 + b10 + b11 + b12);
        assert(log_acc(r0v, 13) == b1 + b2 + b3 + b4 + b5 + b6 + b7 + b8 + b9 + b10 + b11 + b12
            + b13);
        assert(log_acc(r0v, 14) == b1 + b2 + b3 + b4 + b5 + b6 + b7 + b8 + b9 + b10 + b11 + b12
            + b13 + b14);
        assert(acc == log_acc(r0v, 14));
        assert(acc < 0x10000000000000000);
    }
    let log2v: I256 = if msb >= 128 {
        let base = ((msb - 128) as u128) * 0x10000000000000000;
        I256::from_u128(base + acc)
    } else {
        let m = ((128 - msb) as u128) * 0x10000000000000000;
        if acc >= m {
            I256::from_u128(acc - m)
        } else {
            I256::neg_of_u256(U256::from_u128(m - acc))
        }
    };
    proof {
        let msbi = msb as int;
        assert(log2v.iv() == (msbi - 128) * pow2(64) + log_acc(r0v, 14));
        assert(log2v.mag.v() < pow2(72)) by {
            lemma_pow2_adds(64, 8);
            assert(-pow2(72) < log2v.iv() < pow2(72)) by (nonlinear_arith)
                requires
                    log2v.iv() == (msbi - 128) * pow2(64) + log_acc(r0v, 14),
                    -128 <= msbi - 128 <= 127,
                    0 <= log_acc(r0v, 14) < pow2(64),
                    pow2(72) == pow2(64) * pow2(8),
                    pow2(8) == 256,
            ;
        }
        lemma_pow2_adds(72, 78);
        lemma_pow2_adds(64, 14);
        lemma_pow2_strictly_increases(150, 256);
        assert(255738958999603826347141 < pow2(78));
        assert(log2v.mag.v() * 255738958999603826347141 < p256()) by (nonlinear_arith)
            requires
                log2v.mag.v() < pow2(72),
                255738958999603826347141 < pow2(78),
                pow2(150) == pow2(72) * pow2(78),
                pow2(150) < p256(),
        ;
    }
    let log_sqrt10001 = log2v.mul_u128(255738958999603826347141);
    proof {
        lemma_pow2_adds(72, 78);
        lemma_pow2_adds(64, 14);
        assert(255738958999603826347141 < pow2(78));
        lemma_pow2_strictly_increases(150, 151);
        lemma_pow2_strictly_increases(151, 256);
        assert(-pow2(150) < log_sqrt10001.iv() < pow2(150)) by (nonlinear_arith)
            requires
                log_sqrt10001.iv() == log2v.iv() * 255738958999603826347141,
                -pow2(72) < log2v.iv() < pow2(72),
                255738958999603826347141 < pow2(78),
                pow2(150) == pow2(72) * pow2(78),
        ;
        assert(3402992956809132418596140100660247210 < pow2(128));
        assert(291339464771989622907027621153398088495 < pow2(128));
        assert(pow2(150) + pow2(128) < pow2(151)) by {
            lemma_pow2_strictly_increases(128, 150);
            lemma_pow2_adds(150, 1);
            assert(pow2(151) == pow2(150) * 2);
        }
    }
    let t0 = I256::from_u128(3402992956809132418596140100660247210);
    let t1 = I256::from_u128(291339464771989622907027621153398088495);
    let low_shifted = log_sqrt10001.sub_i(&t0).shr128();
    let high_shifted = log_sqrt10001.add_i(&t1).shr128();
    proof {
        lemma_pow2_subtracts(128, 151);
        lemma_div_bound_abs(
            log_sqrt10001.iv() - t0.iv(),
            pow2(151) as int,
            p128() as int,
        );
        lemma_div_bound_abs(
            log_sqrt10001.iv() + t1.iv(),
            pow2(151) as int,
            p128() as int,
        );
        assert(pow2(151) as int / p128() as int == pow2(23)) by {
            lemma_pow2_adds(23, 128);
            lemma_pow2_pos(128);
            lemma_div_multiples_vanish(pow2(23) as int, p128() as int);
            assert(pow2(151) == p128() * pow2(23)) by (nonlinear_arith)
                requires
                    pow2(151) == pow2(23) * pow2(128),
                    p128() == pow2(128),
            ;
        }
    }
    let tick_low = low_shifted.to_i32();
    let tick_hi = high_shifted.to_i32();
    if tick_low == tick_hi {
        Ok(tick_low)
    } else {
        match get_sqrt_ratio_at_tick(tick_hi) {
            Ok(sr) => {
                if sr.le_u(&s) {
                    Ok(tick_hi)
                } else {
                    Ok(tick_low)
                }
            },
            Err(_) => Ok(tick_low),
        }
    }
}

} // verus!

