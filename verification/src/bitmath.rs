//! Most- and least-significant set bit of a 256-bit word, by bisection
//! over halving widths.

use vstd::prelude::*;
use vstd::arithmetic::div_mod::*;
use vstd::arithmetic::mul::*;
use vstd::arithmetic::power2::*;

use crate::error::Error;
use crate::u256::{U256, lemma_pow2_words, lemma_v_bound, p128, p256, pow2_u128};

verus! {

/// Position of the highest set bit: `2^r <= x < 2^(r+1)`.
pub fn most_significant_bit(x: U256) -> (r: Result<u8, Error>)
    ensures
        r is Ok <==> x.v() > 0,
        r is Ok ==> pow2(r->Ok_0 as nat) <= x.v() < pow2((r->Ok_0 + 1) as nat),
        r is Err ==> r == Result::<u8, Error>::Err(Error::ErrMoreThan),
{
    if x.is_zero() {
        Err(Error::ErrMoreThan)
    } else {
        Ok(most_significant_bit_internal(x))
    }
}

/// One bisection step for the most-significant-bit search: if `x` needs
/// more than `h` bits, shift those out and add `h` to the index.
fn msb_step(x: &U256, orig: Ghost<U256>, r: u8, h: u8) -> (res: (U256, u8))
    requires
        8 <= h <= 128,
        r + h < 256,
        x.v() == orig@.v() / pow2(r as nat),
        1 <= x.v() < pow2(2 * h as nat),
    ensures
        res.1 == r + (if x.v() >= pow2(h as nat) { h as int } else { 0int }),
        res.0.v() == orig@.v() / pow2(res.1 as nat),
        1 <= res.0.v() < pow2(h as nat),
{
    proof {
        lemma_pow2_words();
        if x.hi > 0 {
            assert(x.v() >= p128()) by (nonlinear_arith)
                requires
                    x.v() == x.lo + x.hi * p128(),
                    x.hi >= 1,
                    x.lo >= 0,
            ;
        }
        if h < 128 {
            lemma_pow2_strictly_increases(h as nat, 128);
        }
    }
    let big = if h == 128 {
        x.hi > 0
    } else {
        x.hi > 0 || x.lo >= pow2_u128(h as u32)
    };
    proof {
        assert(big == (x.v() >= pow2(h as nat)));
    }
    if big {
        let shifted = x.shr(h as u32);
        proof {
            lemma_pow2_adds(r as nat, h as nat);
            lemma_pow2_pos(r as nat);
            lemma_pow2_pos(h as nat);
            lemma_div_denominator(orig@.v() as int, pow2(r as nat) as int, pow2(h as nat) as int);
            lemma_pow2_pos(h as nat);
            lemma_pow2_adds(h as nat, h as nat);
            let xv = x.v() as int;
            let ph = pow2(h as nat) as int;
            lemma_fundamental_div_mod(xv, ph);
            lemma_mod_division_less_than_divisor(xv, ph);
            assert(shifted.v() >= 1 && shifted.v() < ph) by (nonlinear_arith)
                requires
                    shifted.v() == xv / ph,
                    ph <= xv,
                    xv < ph * ph,
                    ph > 0,
                    xv == ph * (xv / ph) + xv % ph,
                    0 <= xv % ph,
                    (xv % ph) < ph,
            ;
        }
        (shifted, r + h)
    } else {
        (*x, r)
    }
}

/// Position of the highest set bit, for a nonzero word.
pub fn most_significant_bit_internal(x: U256) -> (r: u8)
    requires
        x.v() > 0,
    ensures
        pow2(r as nat) <= x.v() < pow2((r + 1) as nat),
{
    let ghost orig = x;
    proof {
        lemma_v_bound(x);
        lemma_pow2_words();
        lemma2_to64();
        lemma_div_basics(x.v() as int);
    }
    let (x1, r1) = msb_step(&x, Ghost(orig), 0, 128);
    let (x2, r2) = msb_step(&x1, Ghost(orig), r1, 64);
    let (x3, r3) = msb_step(&x2, Ghost(orig), r2, 32);
    let (x4, r4) = msb_step(&x3, Ghost(orig), r3, 16);
    let (x5, r5) = msb_step(&x4, Ghost(orig), r4, 8);
    // below a byte the remaining width no longer halves evenly into the
    // step's precondition, so finish by hand
    let mut w = x5.low_u128();
    let mut r: u8 = r5;
    proof {
        lemma_pow2_strictly_increases(8, 128);
        vstd::arithmetic::power2::lemma2_to64();
        assert(x5.v() < p256());
        assert(w == x5.v()) by {
            lemma_small_mod(x5.v(), crate::u256::p128());
            lemma_pow2_strictly_increases(8, 128);
        }
    }
    if w >= 16 {
        w = w / 16;
        proof {
            lemma_pow2_adds(r as nat, 4);
            lemma_pow2_pos(r as nat);
            lemma_div_denominator(orig.v() as int, pow2(r as nat) as int, 16);
        }
        r = r + 4;
    }
    if w >= 4 {
        w = w / 4;
        proof {
            lemma_pow2_adds(r as nat, 2);
            lemma_pow2_pos(r as nat);
            lemma_div_denominator(orig.v() as int, pow2(r as nat) as int, 4);
        }
        r = r + 2;
    }
    if w >= 2 {
        w = w / 2;
        proof {
            lemma_pow2_adds(r as nat, 1);
            lemma_pow2_pos(r as nat);
            lemma_div_denominator(orig.v() as int, pow2(r as nat) as int, 2);
        }
        r = r + 1;
    }
    proof {
        lemma_pow2_unfold((r + 1) as nat);
        lemma_pow2_pos(r as nat);
        let ov = orig.v() as int;
        let pr = pow2(r as nat) as int;
        lemma_fundamental_div_mod(ov, pr);
        lemma_mod_division_less_than_divisor(ov, pr);
        assert(pr <= ov < 2 * pr) by (nonlinear_arith)
            requires
                ov == pr * w + ov % pr,
                0 <= ov % pr,
                (ov % pr) < pr,
                w == 1,
        ;
    }
    r
}

/// Position of the lowest set bit: `x` is a multiple of `2^r` and bit `r`
/// itself is set.
pub fn least_significant_bit(x: U256) -> (r: Result<u8, Error>)
    ensures
        r is Ok <==> x.v() > 0,
        r is Ok ==> x.v() % pow2(r->Ok_0 as nat) == 0 && (x.v() / pow2(r->Ok_0 as nat)) % 2 == 1,
        r is Err ==> r == Result::<u8, Error>::Err(Error::ErrMoreThan),
{
    if x.is_zero() {
        Err(Error::ErrMoreThan)
    } else {
        Ok(least_significant_bit_internal(x))
    }
}

/// One bisection step for the least-significant-bit search: if the low `h`
/// bits are clear, shift them out and add `h` to the accumulated shift.
fn lsb_step(x: &U256, orig: Ghost<U256>, s: u8, h: u8) -> (res: (U256, u8))
    requires
        1 <= h <= 128,
        s + 2 * h <= 256,
        orig@.v() == x.v() * pow2(s as nat),
        x.v() % pow2(2 * h as nat) != 0,
    ensures
        res.0.v() % pow2(h as nat) != 0,
        orig@.v() == res.0.v() * pow2(res.1 as nat),
        res.1 == s + (if x.v() % pow2(h as nat) == 0 { h as int } else { 0int }),
{
    let low = x.mod_pow2(h as u32);
    if low.is_zero() {
        let shifted = x.shr(h as u32);
        proof {
            lemma_pow2_pos(h as nat);
            lemma_pow2_pos(s as nat);
            lemma_fundamental_div_mod(x.v() as int, pow2(h as nat) as int);
            assert(x.v() == pow2(h as nat) * shifted.v());
            lemma_pow2_adds(s as nat, h as nat);
            assert(orig@.v() == shifted.v() * pow2((s + h) as nat)) by (nonlinear_arith)
                requires
                    orig@.v() == x.v() * pow2(s as nat),
                    x.v() == pow2(h as nat) * shifted.v(),
                    pow2((s + h) as nat) == pow2(s as nat) * pow2(h as nat),
            ;
            lemma_pow2_adds(h as nat, h as nat);
            if shifted.v() % pow2(h as nat) == 0 {
                lemma_fundamental_div_mod(shifted.v() as int, pow2(h as nat) as int);
                let q = shifted.v() as int / pow2(h as nat) as int;
                assert(x.v() == pow2(2 * h as nat) * q) by (nonlinear_arith)
                    requires
                        x.v() == pow2(h as nat) * shifted.v(),
                        shifted.v() == pow2(h as nat) * q,
                        pow2(2 * h as nat) == pow2(h as nat) * pow2(h as nat),
                ;
                lemma_pow2_pos(2 * h as nat);
                lemma_mod_multiples_basic(q, pow2(2 * h as nat) as int);
                assert(false);
            }
        }
        (shifted, s + h)
    } else {
        (*x, s)
    }
}

/// Position of the lowest set bit, for a nonzero word.
pub fn least_significant_bit_internal(x: U256) -> (r: u8)
    requires
        x.v() > 0,
    ensures
        x.v() % pow2(r as nat) == 0,
        (x.v() / pow2(r as nat)) % 2 == 1,
{
    proof {
        lemma_v_bound(x);
        lemma_pow2_words();
        lemma2_to64();
        lemma_mul_basics(x.v() as int);
        lemma_small_mod_nonzero(x.v());
    }
    let (x1, s1) = lsb_step(&x, Ghost(x), 0, 128);
    let (x2, s2) = lsb_step(&x1, Ghost(x), s1, 64);
    let (x3, s3) = lsb_step(&x2, Ghost(x), s2, 32);
    let (x4, s4) = lsb_step(&x3, Ghost(x), s3, 16);
    let (x5, s5) = lsb_step(&x4, Ghost(x), s4, 8);
    let (x6, s6) = lsb_step(&x5, Ghost(x), s5, 4);
    let (x7, s7) = lsb_step(&x6, Ghost(x), s6, 2);
    let (x8, s8) = lsb_step(&x7, Ghost(x), s7, 1);
    proof {
        lemma_pow2_pos(s8 as nat);
        lemma_mod_multiples_basic(x8.v() as int, pow2(s8 as nat) as int);
        lemma_div_multiples_vanish(x8.v() as int, pow2(s8 as nat) as int);
        assert(x.v() / pow2(s8 as nat) == x8.v());
        assert(pow2(1) == 2);
        lemma_mod_division_less_than_divisor(x8.v() as int, 2);
        assert(x8.v() % 2 == 1);
    }
    s8
}

/// `x % 2^256 != 0` for nonzero 256-bit `x`.
proof fn lemma_small_mod_nonzero(x: nat)
    requires
        0 < x < p256(),
    ensures
        x % pow2(256) != 0,
{
    lemma_pow2_words();
    lemma_small_mod(x, pow2(256));
}


/// Law: the most-significant-bit contract pins the answer on a power of
/// two; for `x == 2^k` the returned index can only be `k`.
pub proof fn lemma_msb_of_power_of_two(k: nat, r: nat)
    requires
        pow2(r) <= pow2(k) < pow2((r + 1) as nat),
    ensures
        r == k,
{
    if r < k {
        lemma_pow2_strictly_increases(r + 1, k + 1);
        lemma_pow2_strictly_increases(k, k + 1);
        if r + 1 < k {
            lemma_pow2_strictly_increases(r + 1, k);
        }
    } else if r > k {
        lemma_pow2_strictly_increases(k, r);
    }
}

/// Law: the least-significant-bit contract pins the answer on a power of
/// two; for `x == 2^k` the returned index can only be `k`.
pub proof fn lemma_lsb_of_power_of_two(k: nat, r: nat)
    requires
        pow2(k) % pow2(r) == 0,
        (pow2(k) / pow2(r)) % 2 == 1,
    ensures
        r == k,
{
    lemma_pow2_pos(r);
    lemma_pow2_pos(k);
    if r > k {
        lemma_pow2_strictly_increases(k, r);
        lemma_small_mod(pow2(k), pow2(r));
    } else {
        lemma_pow2_subtracts(r, k);
        assert(pow2(k) == pow2((k - r) as nat) * pow2(r)) by {
            lemma_pow2_adds((k - r) as nat, r);
        }
        lemma_fundamental_div_mod_converse(
            pow2(k) as int,
            pow2(r) as int,
            pow2((k - r) as nat) as int,
            0,
        );
        assert(pow2(k) / pow2(r) == pow2((k - r) as nat));
        if k > r {
            lemma_pow2_unfold((k - r) as nat);
            let j = pow2((k - r - 1) as nat) as int;
            lemma_mod_multiples_basic(j, 2);
            assert(pow2((k - r) as nat) % 2 == 0);
        }
    }
}

/// Law: on the all-ones word the most significant bit is 255 and the least
/// significant bit is 0.
pub proof fn lemma_bits_of_max(rm: nat, rl: nat)
    requires
        pow2(rm) <= p256() - 1 < pow2((rm + 1) as nat),
        ((p256() - 1) as nat) % pow2(rl) == 0,
        (((p256() - 1) as nat) / pow2(rl)) % 2 == 1,
    ensures
        rm == 255,
        rl == 0,
{
    lemma_pow2_words();
    lemma_pow2_adds(255, 1);
    lemma_pow2_adds(128, 127);
    lemma2_to64();
    lemma2_to64_rest();
    assert(pow2(255) == p128() * pow2(127));
    if rm < 255 {
        lemma_pow2_strictly_increases(rm + 1, 256);
    } else if rm > 255 {
        if rm > 256 {
            lemma_pow2_strictly_increases(256, rm);
        }
    }
    if rl > 0 {
        let x = (p256() - 1) as nat;
        lemma_pow2_pos(rl);
        lemma_fundamental_div_mod(x as int, pow2(rl) as int);
        let q = x as int / pow2(rl) as int;
        assert(x == pow2(rl) * q);
        lemma_pow2_unfold(rl);
        let h = pow2((rl - 1) as nat) as int;
        assert(x == 2 * (h * q)) by (nonlinear_arith)
            requires
                x == pow2(rl) * q,
                pow2(rl) == 2 * h,
        ;
        lemma_mod_multiples_basic(h * q, 2);
        assert(x % 2 == 0);
        assert(x % 2 == 1) by {
            assert(x == 2 * ((p128() * p128() - 2) / 2) + 1) by (nonlinear_arith)
                requires
                    x == p128() * p128() - 1,
                    p128() % 2 == 0,
                    p128() >= 2,
            ;
            lemma_fundamental_div_mod_converse(x as int, 2, (p128() * p128() - 2) / 2, 1);
        }
    }
}

} // verus!

