//! Unsigned 256-bit and 512-bit integers built from 128-bit words.
//!
//! Every operation carries an exact contract over the mathematical value
//! of its operands (`v()`), so arithmetic higher up the crate can be
//! proved against plain `nat` formulas.  Shifts and masks are expressed
//! as multiplication, division and remainder by powers of two.

use vstd::prelude::*;
use vstd::arithmetic::div_mod::*;
use vstd::arithmetic::mul::*;
use vstd::arithmetic::power2::*;

verus! {

/// 2^64.
pub open spec fn p64() -> nat {
    0x1_0000_0000_0000_0000
}

/// 2^128.
pub open spec fn p128() -> nat {
    0x1_0000_0000_0000_0000_0000_0000_0000_0000nat
}

/// 2^256.
pub open spec fn p256() -> nat {
    p128() * p128()
}

/// 2^384.
pub open spec fn p384() -> nat {
    p256() * p128()
}

/// 2^512.
pub open spec fn p512() -> nat {
    p256() * p256()
}

/// An unsigned 256-bit integer: `v == lo + hi * 2^128`.
#[derive(Clone, Copy, PartialEq, Eq, Structural, Debug)]
pub struct U256 {
    pub lo: u128,
    pub hi: u128,
}

/// An unsigned 512-bit integer in four 128-bit words, least significant first.
#[derive(Clone, Copy, PartialEq, Eq, Structural, Debug)]
pub struct U512 {
    pub w0: u128,
    pub w1: u128,
    pub w2: u128,
    pub w3: u128,
}

impl U256 {
    /// The mathematical value.
    pub open spec fn v(self) -> nat {
        (self.lo + self.hi * p128()) as nat
    }

    pub open spec fn spec_zero() -> U256 {
        U256 { lo: 0, hi: 0 }
    }

    pub fn zero() -> (r: U256)
        ensures
            r.v() == 0,
            r == U256::spec_zero(),
    {
        U256 { lo: 0, hi: 0 }
    }

    pub fn one() -> (r: U256)
        ensures
            r.v() == 1,
    {
        U256 { lo: 1, hi: 0 }
    }

    pub fn max_value() -> (r: U256)
        ensures
            r.v() == p256() - 1,
    {
        U256 { lo: u128::MAX, hi: u128::MAX }
    }

    pub fn from_u128(x: u128) -> (r: U256)
        ensures
            r.v() == x,
    {
        U256 { lo: x, hi: 0 }
    }

    pub fn from_u64(x: u64) -> (r: U256)
        ensures
            r.v() == x,
    {
        U256 { lo: x as u128, hi: 0 }
    }

    pub fn is_zero(&self) -> (r: bool)
        ensures
            r == (self.v() == 0),
    {
        self.lo == 0 && self.hi == 0
    }

    /// The low 128 bits, i.e. `v % 2^128`.
    pub fn low_u128(&self) -> (r: u128)
        ensures
            r == self.v() % p128(),
    {
        proof {
            lemma_mod_multiples_vanish(self.hi as int, self.lo as int, p128() as int);
            lemma_small_mod(self.lo as nat, p128());
        }
        self.lo
    }

    /// Whole value as `u128`; callers must know it fits.
    pub fn as_u128(&self) -> (r: u128)
        requires
            self.v() < p128(),
        ensures
            r == self.v(),
    {
        proof {
            if self.hi > 0 {
                lemma_mul_inequality(1, self.hi as int, p128() as int);
            }
        }
        self.lo
    }

    pub fn eq_u(&self, other: &U256) -> (r: bool)
        ensures
            r == (self.v() == other.v()),
    {
        proof {
            lemma_v_injective(*self, *other);
        }
        self.lo == other.lo && self.hi == other.hi
    }

    pub fn lt_u(&self, other: &U256) -> (r: bool)
        ensures
            r == (self.v() < other.v()),
    {
        proof {
            lemma_v_order(*self, *other);
        }
        self.hi < other.hi || (self.hi == other.hi && self.lo < other.lo)
    }

    pub fn le_u(&self, other: &U256) -> (r: bool)
        ensures
            r == (self.v() <= other.v()),
    {
        proof {
            lemma_v_order(*self, *other);
            lemma_v_order(*other, *self);
            lemma_v_injective(*self, *other);
        }
        self.hi < other.hi || (self.hi == other.hi && self.lo <= other.lo)
    }

    /// Sum modulo 2^256 with an overflow flag.
    pub fn overflowing_add(&self, other: &U256) -> (r: (U256, bool))
        ensures
            r.0.v() + (if r.1 { p256() } else { 0nat } ) == self.v() + other.v(),
    {
        let (lo, c): (u128, u128) = if self.lo <= u128::MAX - other.lo {
            (self.lo + other.lo, 0)
        } else {
            ((self.lo - (u128::MAX - other.lo)) - 1, 1)
        };
        let (hi1, c1): (u128, u128) = if self.hi <= u128::MAX - other.hi {
            (self.hi + other.hi, 0)
        } else {
            ((self.hi - (u128::MAX - other.hi)) - 1, 1)
        };
        let (hi, c2): (u128, u128) = if hi1 <= u128::MAX - c {
            (hi1 + c, 0)
        } else {
            ((hi1 - (u128::MAX - c)) - 1, 1)
        };
        let overflow = c1 == 1 || c2 == 1;
        proof {
            let s = self.v() + other.v();
            assert((lo + hi * p128()) + (c1 + c2) * p256() == s) by (nonlinear_arith)
                requires
                    lo + c * p128() == self.lo + other.lo,
                    hi1 + c1 * p128() == self.hi + other.hi,
                    hi + c2 * p128() == hi1 + c,
                    s == (self.lo + self.hi * p128()) + (other.lo + other.hi * p128()),
                    p256() == p128() * p128(),
            ;
            assert(c1 + c2 <= 1) by (nonlinear_arith)
                requires
                    lo + hi * p128() >= 0,
                    (lo + hi * p128()) + (c1 + c2) * p256() == s,
                    s < p256() + p256(),
                    c1 <= 1,
                    c2 <= 1,
                    p256() > 0,
            ;
        }
        (U256 { lo, hi }, overflow)
    }

    /// Sum modulo 2^256.
    pub fn wrapping_add(&self, other: &U256) -> (r: U256)
        ensures
            r.v() == (self.v() + other.v()) % p256(),
    {
        let (r, o) = self.overflowing_add(other);
        proof {
            lemma_v_bound(r);
            if o {
                lemma_mod_multiples_vanish(1, r.v() as int, p256() as int);
            }
            lemma_small_mod(r.v(), p256());
        }
        r
    }

    /// Sum when the caller knows it fits.
    pub fn add_u(&self, other: &U256) -> (r: U256)
        requires
            self.v() + other.v() < p256(),
        ensures
            r.v() == self.v() + other.v(),
    {
        let (r, o) = self.overflowing_add(other);
        r
    }

    pub fn checked_add(&self, other: &U256) -> (r: Option<U256>)
        ensures
            self.v() + other.v() < p256() ==> r is Some && r->0.v() == self.v() + other.v(),
            self.v() + other.v() >= p256() ==> r is None,
    {
        let (r, o) = self.overflowing_add(other);
        proof {
            lemma_v_bound(r);
        }
        if o {
            None
        } else {
            Some(r)
        }
    }

    /// Difference modulo 2^256 with a borrow flag.
    pub fn overflowing_sub(&self, other: &U256) -> (r: (U256, bool))
        ensures
            r.1 == (self.v() < other.v()),
            self.v() >= other.v() ==> r.0.v() == self.v() - other.v(),
            self.v() < other.v() ==> r.0.v() == self.v() + p256() - other.v(),
    {
        let (lo, b): (u128, u128) = if self.lo >= other.lo {
            (self.lo - other.lo, 0)
        } else {
            (self.lo.wrapping_sub(other.lo), 1)
        };
        let borrowing = self.hi < other.hi || (self.hi == other.hi && b == 1);
        let hi = self.hi.wrapping_sub(other.hi).wrapping_sub(b);
        let b1: u128 = if borrowing { 1 } else { 0 };
        proof {
            let d = self.v() as int - other.v() as int;
            assert(lo + hi * p128() == d + b1 * p256()) by (nonlinear_arith)
                requires
                    lo == self.lo + b * p128() - other.lo,
                    hi == self.hi + b1 * p128() - other.hi - b,
                    d == (self.lo + self.hi * p128()) - (other.lo + other.hi * p128()),
                    p256() == p128() * p128(),
            ;
            lemma_v_bound(U256 { lo, hi });
            assert((b1 == 1) == (d < 0)) by (nonlinear_arith)
                requires
                    lo + hi * p128() == d + b1 * p256(),
                    0 <= lo + hi * p128() < p256(),
                    b1 <= 1,
                    p256() > 0,
            ;
        }
        (U256 { lo, hi }, b1 == 1)
    }

    /// Difference modulo 2^256.
    pub fn wrapping_sub(&self, other: &U256) -> (r: U256)
        ensures
            self.v() >= other.v() ==> r.v() == self.v() - other.v(),
            self.v() < other.v() ==> r.v() == self.v() + p256() - other.v(),
    {
        let (r, _) = self.overflowing_sub(other);
        r
    }

    /// Difference when the caller knows it does not underflow.
    pub fn sub_u(&self, other: &U256) -> (r: U256)
        requires
            self.v() >= other.v(),
        ensures
            r.v() == self.v() - other.v(),
    {
        let (r, _) = self.overflowing_sub(other);
        r
    }
}

/// Full 128 x 128 -> 256 bit multiplication on plain words.
pub fn mul_u128_full(a: u128, b: u128) -> (r: (u128, u128))
    ensures
        r.0 + r.1 * p128() == a * b,
{
    let a0 = a % 0x1_0000_0000_0000_0000;
    let a1 = a / 0x1_0000_0000_0000_0000;
    let b0 = b % 0x1_0000_0000_0000_0000;
    let b1 = b / 0x1_0000_0000_0000_0000;
    proof {
        lemma_fundamental_div_mod(a as int, p64() as int);
        lemma_fundamental_div_mod(b as int, p64() as int);
        assert(a0 * b0 < p128() && a0 * b1 < p128() && a1 * b0 < p128() && a1 * b1 < p128())
            by (nonlinear_arith)
            requires
                a0 < p64(),
                a1 < p64(),
                b0 < p64(),
                b1 < p64(),
                p128() == p64() * p64(),
        ;
    }
    let p00 = a0 * b0;
    let p01 = a0 * b1;
    let p10 = a1 * b0;
    let p11 = a1 * b1;
    let (mid, midc): (u128, u128) = if p01 <= u128::MAX - p10 {
        (p01 + p10, 0)
    } else {
        (p01.wrapping_add(p10), 1)
    };
    let mid_lo = mid % 0x1_0000_0000_0000_0000;
    let mid_hi = mid / 0x1_0000_0000_0000_0000;
    proof {
        lemma_fundamental_div_mod(mid as int, p64() as int);
        assert(mid_lo * p64() < p128()) by (nonlinear_arith)
            requires
                mid_lo < p64(),
                p128() == p64() * p64(),
        ;
    }
    let shifted_mid = mid_lo * 0x1_0000_0000_0000_0000;
    let (lo, c1): (u128, u128) = if p00 <= u128::MAX - shifted_mid {
        (p00 + shifted_mid, 0)
    } else {
        (p00.wrapping_add(shifted_mid), 1)
    };
    proof {
        let hi_val: int = p11 + mid_hi + midc * p64() + c1;
        assert(a * b == lo + hi_val * p128()) by (nonlinear_arith)
            requires
                a == a1 * p64() + a0,
                b == b1 * p64() + b0,
                p00 == a0 * b0,
                p01 == a0 * b1,
                p10 == a1 * b0,
                p11 == a1 * b1,
                mid + midc * p128() == p01 + p10,
                mid == mid_hi * p64() + mid_lo,
                lo + c1 * p128() == p00 + mid_lo * p64(),
                hi_val == p11 + mid_hi + midc * p64() + c1,
                p128() == p64() * p64(),
        ;
        assert(hi_val < p128()) by (nonlinear_arith)
            requires
                a * b == lo + hi_val * p128(),
                a < p128(),
                b < p128(),
                lo >= 0,
                hi_val >= 0,
                p128() > 0,
        ;
    }
    let hi = ((p11 + mid_hi) + midc * 0x1_0000_0000_0000_0000) + c1;
    (lo, hi)
}

impl U512 {
    /// The mathematical value.
    pub open spec fn v(self) -> nat {
        (self.w0 + self.w1 * p128() + self.w2 * p256() + self.w3 * p384()) as nat
    }

    pub fn zero() -> (r: U512)
        ensures
            r.v() == 0,
    {
        U512 { w0: 0, w1: 0, w2: 0, w3: 0 }
    }

    pub fn from_u256(x: &U256) -> (r: U512)
        ensures
            r.v() == x.v(),
    {
        U512 { w0: x.lo, w1: x.hi, w2: 0, w3: 0 }
    }

    /// The low 256 bits; exact when the value fits.
    pub fn to_u256(&self) -> (r: U256)
        requires
            self.v() < p256(),
        ensures
            r.v() == self.v(),
    {
        proof {
            lemma_u512_low(*self);
        }
        U256 { lo: self.w0, hi: self.w1 }
    }

    pub fn is_zero(&self) -> (r: bool)
        ensures
            r == (self.v() == 0),
    {
        proof {
            assert((self.w0 + self.w1 * p128() + self.w2 * p256() + self.w3 * p384() == 0)
                == (self.w0 == 0 && self.w1 == 0 && self.w2 == 0 && self.w3 == 0))
                by (nonlinear_arith)
                requires
                    self.w0 >= 0 && self.w1 >= 0 && self.w2 >= 0 && self.w3 >= 0,
                    p128() > 0,
                    p256() == p128() * p128(),
                    p384() == p256() * p128(),
            ;
        }
        self.w0 == 0 && self.w1 == 0 && self.w2 == 0 && self.w3 == 0
    }
}

/// A `U512` whose value is under 2^256 has zero upper words.
pub proof fn lemma_u512_low(x: U512)
    requires
        x.v() < p256(),
    ensures
        x.w2 == 0 && x.w3 == 0,
        x.v() == x.w0 + x.w1 * p128(),
{
    if x.w2 != 0 || x.w3 != 0 {
        assert(false) by (nonlinear_arith)
            requires
                x.w0 + x.w1 * p128() + x.w2 * p256() + x.w3 * p384() < p256(),
                x.w2 >= 0,
                x.w3 >= 0,
                !(x.w2 == 0 && x.w3 == 0),
                p256() == p128() * p128(),
                p384() == p256() * p128(),
        ;
    }
}

/// Full 256 x 256 -> 512 bit multiplication.
pub fn mul_full(a: &U256, b: &U256) -> (r: U512)
    ensures
        r.v() == a.v() * b.v(),
{
    let (ll_lo, ll_hi) = mul_u128_full(a.lo, b.lo);
    let (lh_lo, lh_hi) = mul_u128_full(a.lo, b.hi);
    let (hl_lo, hl_hi) = mul_u128_full(a.hi, b.lo);
    let (hh_lo, hh_hi) = mul_u128_full(a.hi, b.hi);
    let w0 = ll_lo;
    let (m1, c1): (u128, u128) = if ll_hi <= u128::MAX - lh_lo {
        (ll_hi + lh_lo, 0)
    } else {
        (ll_hi.wrapping_add(lh_lo), 1)
    };
    let (w1, c2): (u128, u128) = if m1 <= u128::MAX - hl_lo {
        (m1 + hl_lo, 0)
    } else {
        (m1.wrapping_add(hl_lo), 1)
    };
    let (m2, c3): (u128, u128) = if lh_hi <= u128::MAX - hl_hi {
        (lh_hi + hl_hi, 0)
    } else {
        (lh_hi.wrapping_add(hl_hi), 1)
    };
    let (m3, c4): (u128, u128) = if m2 <= u128::MAX - hh_lo {
        (m2 + hh_lo, 0)
    } else {
        (m2.wrapping_add(hh_lo), 1)
    };
    let (w2, c5): (u128, u128) = if m3 <= u128::MAX - (c1 + c2) {
        (m3 + (c1 + c2), 0)
    } else {
        (m3.wrapping_add(c1 + c2), 1)
    };
    proof {
        let w3_val: int = hh_hi + c3 + c4 + c5;
        assert(a.v() * b.v() == w0 + w1 * p128() + w2 * p256() + w3_val * p384())
            by (nonlinear_arith)
            requires
                a.v() == a.lo + a.hi * p128(),
                b.v() == b.lo + b.hi * p128(),
                ll_lo + ll_hi * p128() == a.lo * b.lo,
                lh_lo + lh_hi * p128() == a.lo * b.hi,
                hl_lo + hl_hi * p128() == a.hi * b.lo,
                hh_lo + hh_hi * p128() == a.hi * b.hi,
                w0 == ll_lo,
                m1 + c1 * p128() == ll_hi + lh_lo,
                w1 + c2 * p128() == m1 + hl_lo,
                m2 + c3 * p128() == lh_hi + hl_hi,
                m3 + c4 * p128() == m2 + hh_lo,
                w2 + c5 * p128() == m3 + c1 + c2,
                w3_val == hh_hi + c3 + c4 + c5,
                p256() == p128() * p128(),
                p384() == p256() * p128(),
        ;
        lemma_v_bound(*a);
        lemma_v_bound(*b);
        assert(w3_val < p128()) by (nonlinear_arith)
            requires
                a.v() * b.v() == w0 + w1 * p128() + w2 * p256() + w3_val * p384(),
                a.v() < p256(),
                b.v() < p256(),
                w0 >= 0,
                w1 >= 0,
                w2 >= 0,
                w3_val >= 0,
                p256() == p128() * p128(),
                p384() == p256() * p128(),
                p128() > 0,
        ;
    }
    let w3 = ((hh_hi + c3) + c4) + c5;
    U512 { w0, w1, w2, w3 }
}

/// Concrete powers of two used as word weights.
pub proof fn lemma_pow2_words()
    ensures
        pow2(64) == p64(),
        pow2(128) == p128(),
        pow2(256) == p256(),
        pow2(384) == p384(),
        pow2(512) == p512(),
{
    lemma2_to64();
    lemma_pow2_adds(64, 64);
    lemma_pow2_adds(128, 128);
    lemma_pow2_adds(256, 128);
    lemma_pow2_adds(256, 256);
    assert(p128() == p64() * p64()) by (nonlinear_arith);
}

/// The bits of a 128-bit word, least significant first.
pub fn bits_le_u128(w: u128) -> (r: Vec<bool>)
    ensures
        r.len() == 128,
        forall|j: int| 0 <= j < 128 ==> r[j] == ((w as nat / pow2(j as nat)) % 2 == 1),
{
    let mut r: Vec<bool> = Vec::new();
    let mut x = w;
    proof {
        lemma2_to64();
    }
    for i in 0..128
        invariant
            r.len() == i,
            x == w as nat / pow2(i as nat),
            forall|j: int| 0 <= j < i ==> r[j] == ((w as nat / pow2(j as nat)) % 2 == 1),
    {
        r.push(x % 2 == 1);
        proof {
            lemma_pow2_unfold((i + 1) as nat);
            lemma_pow2_pos(i as nat);
            lemma_div_denominator(w as int, pow2(i as nat) as int, 2);
        }
        x = x / 2;
    }
    r
}

/// Bit `shift + off` of `low + 2^shift * (w + 2^128 * rest)` is bit `off` of `w`.
proof fn lemma_bit_of_limb(x: nat, low: nat, w: nat, rest: nat, shift: nat, off: nat)
    requires
        x == low + pow2(shift) * (w + p128() * rest),
        low < pow2(shift),
        w < p128(),
        off < 128,
    ensures
        (x / pow2((shift + off) as nat)) % 2 == (w / pow2(off)) % 2,
{
    lemma_pow2_pos(shift);
    lemma_pow2_pos(off);
    lemma_div_multiples_vanish_fancy((w + p128() * rest) as int, low as int, pow2(shift) as int);
    assert(x / pow2(shift) == w + p128() * rest);
    lemma_pow2_adds(off, (128 - off) as nat);
    lemma_pow2_words();
    lemma_pow2_pos((128 - off) as nat);
    let inner = pow2((128 - off) as nat) * rest;
    assert(p128() * rest == pow2(off) * inner) by (nonlinear_arith)
        requires
            p128() == pow2(off) * pow2((128 - off) as nat),
            inner == pow2((128 - off) as nat) * rest,
    ;
    lemma_hoist_over_denominator(w as int, inner as int, pow2(off));
    assert((w + p128() * rest) / pow2(off) == w / pow2(off) + inner);
    lemma_pow2_unfold((128 - off) as nat);
    assert(inner == 2 * (pow2((127 - off) as nat) * rest)) by (nonlinear_arith)
        requires
            pow2((128 - off) as nat) == 2 * pow2((127 - off) as nat),
            inner == pow2((128 - off) as nat) * rest,
    ;
    lemma_mod_multiples_vanish((pow2((127 - off) as nat) * rest) as int, (w / pow2(off)) as int, 2);
    lemma_pow2_adds(shift, off);
    lemma_div_denominator(x as int, pow2(shift) as int, pow2(off) as int);
}

/// Bit `j` of a `U512`, read from the word holding it.
pub proof fn lemma_u512_bit(x: U512, j: nat)
    requires
        j < 512,
    ensures
        j < 128 ==> (x.v() / pow2(j)) % 2 == (x.w0 as nat / pow2(j)) % 2,
        128 <= j < 256 ==> (x.v() / pow2(j)) % 2 == (x.w1 as nat / pow2((j - 128) as nat)) % 2,
        256 <= j < 384 ==> (x.v() / pow2(j)) % 2 == (x.w2 as nat / pow2((j - 256) as nat)) % 2,
        384 <= j < 512 ==> (x.v() / pow2(j)) % 2 == (x.w3 as nat / pow2((j - 384) as nat)) % 2,
{
    lemma_pow2_words();
    lemma2_to64();
    if j < 128 {
        let rest = (x.w1 + x.w2 * p128() + x.w3 * p256()) as nat;
        assert(x.v() == 0 + pow2(0) * (x.w0 + p128() * rest)) by (nonlinear_arith)
            requires
                x.v() == x.w0 + x.w1 * p128() + x.w2 * p256() + x.w3 * p384(),
                rest == x.w1 + x.w2 * p128() + x.w3 * p256(),
                pow2(0) == 1,
                p256() == p128() * p128(),
                p384() == p256() * p128(),
        ;
        lemma_bit_of_limb(x.v(), 0, x.w0 as nat, rest, 0, j);
    } else if j < 256 {
        let rest = (x.w2 + x.w3 * p128()) as nat;
        assert(x.v() == x.w0 + pow2(128) * (x.w1 + p128() * rest)) by (nonlinear_arith)
            requires
                x.v() == x.w0 + x.w1 * p128() + x.w2 * p256() + x.w3 * p384(),
                rest == x.w2 + x.w3 * p128(),
                pow2(128) == p128(),
                p256() == p128() * p128(),
                p384() == p256() * p128(),
        ;
        lemma_bit_of_limb(x.v(), x.w0 as nat, x.w1 as nat, rest, 128, (j - 128) as nat);
    } else if j < 384 {
        let low = (x.w0 + x.w1 * p128()) as nat;
        assert(x.v() == low + pow2(256) * (x.w2 + p128() * x.w3) && low < pow2(256))
            by (nonlinear_arith)
            requires
                x.v() == x.w0 + x.w1 * p128() + x.w2 * p256() + x.w3 * p384(),
                low == x.w0 + x.w1 * p128(),
                x.w0 < p128(),
                x.w1 < p128(),
                pow2(256) == p256(),
                p256() == p128() * p128(),
                p384() == p256() * p128(),
        ;
        lemma_bit_of_limb(x.v(), low, x.w2 as nat, x.w3 as nat, 256, (j - 256) as nat);
    } else {
        let low = (x.w0 + x.w1 * p128() + x.w2 * p256()) as nat;
        assert(x.v() == low + pow2(384) * (x.w3 + p128() * 0) && low < pow2(384))
            by (nonlinear_arith)
            requires
                x.v() == x.w0 + x.w1 * p128() + x.w2 * p256() + x.w3 * p384(),
                low == x.w0 + x.w1 * p128() + x.w2 * p256(),
                x.w0 < p128(),
                x.w1 < p128(),
                x.w2 < p128(),
                pow2(384) == p384(),
                p256() == p128() * p128(),
                p384() == p256() * p128(),
        ;
        lemma_bit_of_limb(x.v(), low, x.w3 as nat, 0, 384, (j - 384) as nat);
    }
}

/// The bits of a `U512`, least significant first.
pub fn bits_le_u512(x: &U512) -> (r: Vec<bool>)
    ensures
        r.len() == 512,
        forall|j: int| 0 <= j < 512 ==> r[j] == ((x.v() / pow2(j as nat)) % 2 == 1),
{
    let mut r = bits_le_u128(x.w0);
    let r1 = bits_le_u128(x.w1);
    let r2 = bits_le_u128(x.w2);
    let r3 = bits_le_u128(x.w3);
    r.append(&mut { r1 });
    r.append(&mut { r2 });
    r.append(&mut { r3 });
    proof {
        assert forall|j: int| 0 <= j < 512 implies r[j] == ((x.v() / pow2(j as nat)) % 2 == 1) by {
            lemma_u512_bit(*x, j as nat);
        }
    }
    r
}

impl U256 {
    /// Doubles the value and adds a bit, splitting off the carry:
    /// `r.0.v() + r.1 * 2^256 == 2 * v + bit`.
    pub fn shl1_in(&self, bit: u128) -> (r: (U256, u128))
        requires
            bit <= 1,
        ensures
            r.0.v() + r.1 * p256() == 2 * self.v() + bit,
            r.1 <= 1,
    {
        let lo_top = self.lo / 0x8000_0000_0000_0000_0000_0000_0000_0000;
        let hi_top = self.hi / 0x8000_0000_0000_0000_0000_0000_0000_0000;
        let lo = (self.lo % 0x8000_0000_0000_0000_0000_0000_0000_0000) * 2 + bit;
        let hi = (self.hi % 0x8000_0000_0000_0000_0000_0000_0000_0000) * 2 + lo_top;
        proof {
            lemma_fundamental_div_mod(self.lo as int, 0x8000_0000_0000_0000_0000_0000_0000_0000);
            lemma_fundamental_div_mod(self.hi as int, 0x8000_0000_0000_0000_0000_0000_0000_0000);
            assert(lo + hi * p128() + hi_top * p256() == 2 * (self.lo + self.hi * p128()) + bit)
                by (nonlinear_arith)
                requires
                    self.lo == 0x8000_0000_0000_0000_0000_0000_0000_0000 * lo_top + self.lo
                        % 0x8000_0000_0000_0000_0000_0000_0000_0000,
                    self.hi == 0x8000_0000_0000_0000_0000_0000_0000_0000 * hi_top + self.hi
                        % 0x8000_0000_0000_0000_0000_0000_0000_0000,
                    lo == (self.lo % 0x8000_0000_0000_0000_0000_0000_0000_0000) * 2 + bit,
                    hi == (self.hi % 0x8000_0000_0000_0000_0000_0000_0000_0000) * 2 + lo_top,
                    p256() == p128() * p128(),
            ;
        }
        (U256 { lo, hi }, hi_top)
    }
}

impl U512 {
    /// Doubles the value and adds a bit, splitting off the carry:
    /// `r.0.v() + r.1 * 2^512 == 2 * v + bit`.
    pub fn shl1_in(&self, bit: u128) -> (r: (U512, u128))
        requires
            bit <= 1,
        ensures
            r.0.v() + r.1 * p512() == 2 * self.v() + bit,
            r.1 <= 1,
    {
        let half = 0x8000_0000_0000_0000_0000_0000_0000_0000u128;
        let c0 = self.w0 / half;
        let c1 = self.w1 / half;
        let c2 = self.w2 / half;
        let c3 = self.w3 / half;
        let w0 = (self.w0 % half) * 2 + bit;
        let w1 = (self.w1 % half) * 2 + c0;
        let w2 = (self.w2 % half) * 2 + c1;
        let w3 = (self.w3 % half) * 2 + c2;
        proof {
            lemma_fundamental_div_mod(self.w0 as int, half as int);
            lemma_fundamental_div_mod(self.w1 as int, half as int);
            lemma_fundamental_div_mod(self.w2 as int, half as int);
            lemma_fundamental_div_mod(self.w3 as int, half as int);
            assert(w0 + w1 * p128() + w2 * p256() + w3 * p384() + c3 * p512() == 2 * (self.w0
                + self.w1 * p128() + self.w2 * p256() + self.w3 * p384()) + bit)
                by (nonlinear_arith)
                requires
                    self.w0 == half * c0 + self.w0 % half,
                    self.w1 == half * c1 + self.w1 % half,
                    self.w2 == half * c2 + self.w2 % half,
                    self.w3 == half * c3 + self.w3 % half,
                    w0 == (self.w0 % half) * 2 + bit,
                    w1 == (self.w1 % half) * 2 + c0,
                    w2 == (self.w2 % half) * 2 + c1,
                    w3 == (self.w3 % half) * 2 + c2,
                    half * 2 == p128(),
                    p256() == p128() * p128(),
                    p384() == p256() * p128(),
                    p512() == p256() * p256(),
        ;
        }
        (U512 { w0, w1, w2, w3 }, c3)
    }
}

impl U256 {
    pub fn gt_u(&self, other: &U256) -> (r: bool)
        ensures
            r == (self.v() > other.v()),
    {
        other.lt_u(self)
    }

    pub fn ge_u(&self, other: &U256) -> (r: bool)
        ensures
            r == (self.v() >= other.v()),
    {
        other.le_u(self)
    }

    /// Product modulo 2^256.
    pub fn wrapping_mul(&self, other: &U256) -> (r: U256)
        ensures
            r.v() == (self.v() * other.v()) % p256(),
    {
        let wide = mul_full(self, other);
        proof {
            lemma_u512_mod_p256(wide);
        }
        U256 { lo: wide.w0, hi: wide.w1 }
    }

    /// Product when the caller knows it fits.
    pub fn mul_u(&self, other: &U256) -> (r: U256)
        requires
            self.v() * other.v() < p256(),
        ensures
            r.v() == self.v() * other.v(),
    {
        let wide = mul_full(self, other);
        wide.to_u256()
    }

    /// Floor quotient.
    pub fn div_u(&self, other: &U256) -> (r: U256)
        requires
            other.v() > 0,
        ensures
            r.v() == self.v() / other.v(),
    {
        let (q, _) = div_rem_u256(self, other);
        q
    }

    /// Remainder.
    pub fn mod_u(&self, other: &U256) -> (r: U256)
        requires
            other.v() > 0,
        ensures
            r.v() == self.v() % other.v(),
    {
        let (_, m) = div_rem_u256(self, other);
        m
    }
}

/// The low 256 bits of a `U512` are its value modulo 2^256.
pub proof fn lemma_u512_mod_p256(x: U512)
    ensures
        x.v() % p256() == x.w0 + x.w1 * p128(),
{
    let low = (x.w0 + x.w1 * p128()) as int;
    let high = (x.w2 + x.w3 * p128()) as int;
    assert(x.v() == high * p256() + low && 0 <= low < p256()) by (nonlinear_arith)
        requires
            x.v() == x.w0 + x.w1 * p128() + x.w2 * p256() + x.w3 * p384(),
            low == x.w0 + x.w1 * p128(),
            high == x.w2 + x.w3 * p128(),
            x.w0 < p128(),
            x.w1 < p128(),
            p256() == p128() * p128(),
            p384() == p256() * p128(),
    ;
    lemma_fundamental_div_mod_converse(x.v() as int, p256() as int, high, low);
}

impl U512 {
    /// The value shifted right by 128 bits, when that fits 256 bits.
    pub fn shr128_to_u256(&self) -> (r: U256)
        requires
            self.v() < p384(),
        ensures
            r.v() == self.v() / p128(),
    {
        proof {
            assert(self.w3 == 0) by (nonlinear_arith)
                requires
                    self.w0 + self.w1 * p128() + self.w2 * p256() + self.w3 * p384() < p384(),
                    self.w3 >= 0,
                    self.w0 >= 0,
                    self.w1 >= 0,
                    self.w2 >= 0,
                    p384() > 0,
            ;
            let rest = (self.w1 + self.w2 * p128()) as int;
            assert(self.v() == p128() * rest + self.w0) by (nonlinear_arith)
                requires
                    self.v() == self.w0 + self.w1 * p128() + self.w2 * p256() + self.w3 * p384(),
                    self.w3 == 0,
                    rest == self.w1 + self.w2 * p128(),
                    p256() == p128() * p128(),
            ;
            lemma_div_multiples_vanish_fancy(rest, self.w0 as int, p128() as int);
        }
        U256 { lo: self.w1, hi: self.w2 }
    }

    /// The value shifted right by 127 bits, when that fits 256 bits.
    pub fn shr127_to_u256(&self) -> (r: U256)
        requires
            self.v() / pow2(127) < p256(),
        ensures
            r.v() == self.v() / pow2(127),
    {
        proof {
            lemma_pow2_words();
            lemma_pow2_adds(127, 1);
            lemma_pow2_pos(127);
            lemma2_to64();
            lemma_fundamental_div_mod(self.v() as int, pow2(127) as int);
            lemma_mod_division_less_than_divisor(self.v() as int, pow2(127) as int);
            assert(self.v() < pow2(127) * p256()) by (nonlinear_arith)
                requires
                    self.v() / pow2(127) < p256(),
                    pow2(127) > 0,
                    self.v() == pow2(127) * (self.v() / pow2(127)) + self.v() % pow2(127),
                    0 <= self.v() % pow2(127),
                    self.v() % pow2(127) < pow2(127),
            ;
            assert(pow2(127) * p256() < p512() && 2 * self.v() < p512() && 2 * self.v() < 2
                * (pow2(127) * p256())) by (nonlinear_arith)
                requires
                    self.v() < pow2(127) * p256(),
                    pow2(127) * 2 == p128(),
                    p384() == p256() * p128(),
                    p512() == p256() * p256(),
                    p256() > 2,
                    p128() > 2,
            ;
        }
        let (doubled, carry) = self.shl1_in(0);
        proof {
            assert(carry == 0);
            assert(doubled.v() < p384()) by (nonlinear_arith)
                requires
                    doubled.v() == 2 * self.v(),
                    2 * self.v() < 2 * (pow2(127) * p256()),
                    pow2(127) * 2 == p128(),
                    p384() == p256() * p128(),
            ;
            lemma_div_denominator(doubled.v() as int, 2, pow2(127) as int);
            lemma_div_multiples_vanish(self.v() as int, 2);
            assert(doubled.v() / p128() == self.v() / pow2(127));
        }
        doubled.shr128_to_u256()
    }
}

/// Long division of a 512-bit value by a nonzero 256-bit divisor.
pub fn div_rem_512(n: &U512, d: &U256) -> (r: (U512, U256))
    requires
        d.v() > 0,
    ensures
        r.0.v() * d.v() + r.1.v() == n.v(),
        r.1.v() < d.v(),
{
    let bits = bits_le_u512(n);
    let mut q = U512::zero();
    let mut rem = U256::zero();
    proof {
        lemma_pow2_words();
        lemma2_to64();
        assert(n.v() / pow2(512) == 0) by {
            lemma_v512_bound(*n);
            lemma_basic_div(n.v() as int, pow2(512) as int);
        }
    }
    for k in 0..512usize
        invariant
            bits.len() == 512,
            forall|j: int| 0 <= j < 512 ==> bits[j] == ((n.v() / pow2(j as nat)) % 2 == 1),
            d.v() > 0,
            q.v() * d.v() + rem.v() == n.v() / pow2((512 - k) as nat),
            rem.v() < d.v(),
            q.v() < pow2(k as nat),
            pow2(0) == 1,
    {
        let i = 511 - k;
        let bit: u128 = if bits[i] { 1 } else { 0 };
        proof {
            let m = (511 - k) as nat;
            lemma_pow2_unfold((m + 1) as nat);
            lemma_pow2_pos(m);
            lemma_div_denominator(n.v() as int, pow2(m) as int, 2);
            assert((n.v() / pow2(m)) / 2 == n.v() / pow2((m + 1) as nat));
            lemma_fundamental_div_mod((n.v() / pow2(m)) as int, 2);
            assert(bit == (n.v() / pow2(m)) % 2);
            assert(n.v() / pow2(m) == 2 * (n.v() / pow2((m + 1) as nat)) + bit);
        }
        let (r2, carry) = rem.shl1_in(bit);
        let take = carry == 1 || !r2.lt_u(d);
        let qbit: u128 = if take { 1 } else { 0 };
        let new_rem = if take {
            proof {
                lemma_v_bound(r2);
                if carry == 1 {
                    assert(rem.v() * 2 + bit < 2 * d.v());
                    assert(r2.v() < d.v());
                }
            }
            r2.wrapping_sub(d)
        } else {
            r2
        };
        let (q2, qcarry) = q.shl1_in(qbit);
        proof {
            lemma_pow2_unfold((k + 1) as nat);
            lemma_pow2_words();
            assert(q2.v() + qcarry * p512() == 2 * q.v() + qbit);
            assert(pow2((k + 1) as nat) <= pow2(512)) by {
                if (k + 1) < 512 {
                    lemma_pow2_strictly_increases((k + 1) as nat, 512);
                }
            }
            if qcarry == 1 {
                assert(2 * q.v() + qbit < 2 * pow2(k as nat));
                assert(false);
            }
            assert(q2.v() == 2 * q.v() + qbit);
            assert(q2.v() < pow2((k + 1) as nat));
            let m = (511 - k) as nat;
            assert(q2.v() * d.v() + new_rem.v() == n.v() / pow2(m)) by (nonlinear_arith)
                requires
                    q.v() * d.v() + rem.v() == n.v() / pow2((m + 1) as nat),
                    n.v() / pow2(m) == 2 * (n.v() / pow2((m + 1) as nat)) + bit,
                    q2.v() == 2 * q.v() + qbit,
                    qbit <= 1,
                    new_rem.v() + qbit * d.v() == 2 * rem.v() + bit,
            ;
        }
        q = q2;
        rem = new_rem;
    }
    proof {
        lemma_div_basics(n.v() as int);
    }
    (q, rem)
}

/// The value of a `U512` is below 2^512.
pub proof fn lemma_v512_bound(x: U512)
    ensures
        x.v() < p512(),
        x.v() < pow2(512),
{
    lemma_pow2_words();
    assert(x.w0 + x.w1 * p128() + x.w2 * p256() + x.w3 * p384() < p512()) by (nonlinear_arith)
        requires
            x.w0 < p128(),
            x.w1 < p128(),
            x.w2 < p128(),
            x.w3 < p128(),
            p256() == p128() * p128(),
            p384() == p256() * p128(),
            p512() == p256() * p256(),
    ;
}

/// 2^k as a 128-bit word.
pub fn pow2_u128(k: u32) -> (r: u128)
    requires
        k < 128,
    ensures
        r == pow2(k as nat),
{
    let mut r: u128 = 1;
    proof {
        lemma2_to64();
    }
    for i in 0..k
        invariant
            k < 128,
            r == pow2(i as nat),
    {
        proof {
            assert(pow2(127) == 0x8000_0000_0000_0000_0000_0000_0000_0000) by {
                lemma_pow2_adds(64, 63);
                lemma2_to64();
                lemma2_to64_rest();
            }
            lemma_pow2_strictly_increases(i as nat, 127);
            lemma_pow2_unfold((i + 1) as nat);
        }
        r = r * 2;
    }
    r
}

impl U256 {
    /// 2^k as a 256-bit value.
    pub fn power_of_two(k: u32) -> (r: U256)
        requires
            k < 256,
        ensures
            r.v() == pow2(k as nat),
    {
        if k < 128 {
            U256 { lo: pow2_u128(k), hi: 0 }
        } else {
            let hi = pow2_u128(k - 128);
            proof {
                lemma_pow2_adds((k - 128) as nat, 128);
                lemma_pow2_words();
            }
            U256 { lo: 0, hi }
        }
    }

    /// Right shift: `r.v() == v / 2^k`.
    pub fn shr(&self, k: u32) -> (r: U256)
        requires
            k < 256,
        ensures
            r.v() == self.v() / pow2(k as nat),
    {
        proof {
            lemma_pow2_words();
        }
        if k == 0 {
            proof {
                lemma2_to64();
                lemma_div_basics(self.v() as int);
            }
            *self
        } else if k < 128 {
            let pk = pow2_u128(k);
            let pk_rest = pow2_u128(128 - k);
            proof {
                lemma_pow2_adds(k as nat, (128 - k) as nat);
                lemma_pow2_pos(k as nat);
                lemma_pow2_pos((128 - k) as nat);
                lemma_fundamental_div_mod(self.lo as int, pk as int);
                lemma_fundamental_div_mod(self.hi as int, pk as int);
                assert(self.lo / pk + (self.hi % pk) * pk_rest < p128()) by (nonlinear_arith)
                    requires
                        self.lo < pk * pk_rest,
                        self.hi % pk < pk,
                        pk > 0,
                        pk_rest > 0,
                        p128() == pk * pk_rest,
                        self.lo == pk * (self.lo as int / pk as int) + self.lo % pk,
                        0 <= self.lo % pk < pk,
                ;
            }
            let lo = self.lo / pk + (self.hi % pk) * pk_rest;
            let hi = self.hi / pk;
            proof {
                assert(self.lo as int / pk as int <= pk_rest - 1) by (nonlinear_arith)
                    requires
                        self.lo < pk * pk_rest,
                        pk > 0,
                        pk_rest > 0,
                        self.lo == pk * (self.lo as int / pk as int) + self.lo % pk,
                        0 <= self.lo % pk < pk,
                ;
                assert((self.hi % pk) * pk_rest < p128() && lo < p128() && (lo + hi * p128()) * pk
                    <= self.v() && self.v() < (lo + hi * p128()) * pk + pk) by (nonlinear_arith)
                    requires
                        self.v() == self.lo + self.hi * p128(),
                        self.lo < p128(),
                        self.hi < p128(),
                        p128() == pk * pk_rest,
                        pk > 0,
                        pk_rest > 0,
                        lo == self.lo / pk + (self.hi % pk) * pk_rest,
                        hi == self.hi / pk,
                        self.lo == pk * (self.lo as int / pk as int) + self.lo % pk,
                        self.hi == pk * (self.hi as int / pk as int) + self.hi % pk,
                        0 <= self.lo % pk < pk,
                        0 <= self.hi % pk < pk,
                        0 <= self.lo as int / pk as int,
                        self.lo as int / pk as int <= pk_rest - 1,
                ;
                let r = U256 { lo: lo as u128, hi: hi as u128 };
                lemma_div_converse_helper(self.v() as int, pk as int, r.v() as int);
            }
            U256 { lo, hi }
        } else {
            let pk = pow2_u128(k - 128);
            proof {
                lemma_pow2_pos((k - 128) as nat);
            }
            let lo = self.hi / pk;
            proof {
                lemma_pow2_adds(128, (k - 128) as nat);
                lemma_pow2_pos(k as nat);
                lemma_fundamental_div_mod(self.hi as int, pk as int);
                assert(lo * (p128() * pk) <= self.v() && self.v() < lo * (p128() * pk) + p128()
                    * pk) by (nonlinear_arith)
                    requires
                        self.v() == self.lo + self.hi * p128(),
                        self.lo < p128(),
                        self.hi == pk * lo + self.hi % pk,
                        0 <= self.hi % pk < pk,
                        pk > 0,
                        lo >= 0,
                ;
                lemma_div_converse_helper(self.v() as int, (p128() * pk) as int, lo as int);
            }
            U256 { lo, hi: 0 }
        }
    }

    /// Left shift of a value known to stay below 2^256: `r.v() == v * 2^k`.
    pub fn shl(&self, k: u32) -> (r: U256)
        requires
            k < 256,
            self.v() * pow2(k as nat) < p256(),
        ensures
            r.v() == self.v() * pow2(k as nat),
    {
        proof {
            lemma_pow2_words();
            lemma_pow2_pos(k as nat);
        }
        if k == 0 {
            proof {
                lemma2_to64();
            }
            *self
        } else if k < 128 {
            let pk = pow2_u128(k);
            let pk_rest = pow2_u128(128 - k);
            proof {
                lemma_pow2_adds(k as nat, (128 - k) as nat);
                lemma_fundamental_div_mod(self.lo as int, pk_rest as int);
                assert((self.lo as int / pk_rest as int) < pk) by (nonlinear_arith)
                    requires
                        self.lo < pk_rest * pk,
                        pk_rest > 0,
                        self.lo == pk_rest * (self.lo as int / pk_rest as int) + self.lo % pk_rest,
                        0 <= self.lo % pk_rest < pk_rest,
                ;
                assert((self.lo % pk_rest) * pk < p128() && (self.hi % pk_rest) * pk < p128()
                    && self.hi % pk_rest == self.hi && ((self.lo % pk_rest) * pk) + ((self.hi
                    % pk_rest) * pk + self.lo / pk_rest) * p128() == self.v() * pk)
                    by (nonlinear_arith)
                    requires
                        self.v() == self.lo + self.hi * p128(),
                        self.v() * pk < p128() * p128(),
                        self.lo < p128(),
                        self.hi < p128(),
                        p128() == pk * pk_rest,
                        pk > 0,
                        pk_rest > 0,
                        self.lo == pk_rest * (self.lo as int / pk_rest as int) + self.lo % pk_rest,
                        0 <= self.lo % pk_rest < pk_rest,
                        0 <= self.lo as int / pk_rest as int,
                        (self.lo as int / pk_rest as int) < pk,
                ;
            }
            let lo = (self.lo % pk_rest) * pk;
            let hi = (self.hi % pk_rest) * pk + self.lo / pk_rest;
            U256 { lo, hi }
        } else {
            let pk = pow2_u128(k - 128);
            proof {
                lemma_pow2_adds(128, (k - 128) as nat);
                assert(self.lo * pk < p128() && self.hi == 0 && self.lo * pk == self.v() * pk
                    - (self.hi * pk) * p128() && (self.lo * pk) * p128() == self.v() * (p128()
                    * pk)) by (nonlinear_arith)
                    requires
                        self.v() == self.lo + self.hi * p128(),
                        self.v() * (p128() * pk) < p128() * p128(),
                        self.lo < p128(),
                        self.hi >= 0,
                        pk > 0,
                ;
            }
            U256 { lo: 0, hi: self.lo * pk }
        }
    }

    /// The value modulo 2^k.
    pub fn mod_pow2(&self, k: u32) -> (r: U256)
        requires
            k <= 256,
        ensures
            r.v() == self.v() % pow2(k as nat),
    {
        proof {
            lemma_pow2_words();
        }
        if k >= 256 {
            proof {
                lemma_v_bound(*self);
                lemma_small_mod(self.v(), pow2(256));
            }
            *self
        } else if k >= 128 {
            let pk = pow2_u128(k - 128);
            proof {
                lemma_pow2_pos((k - 128) as nat);
            }
            let hi = self.hi % pk;
            proof {
                lemma_pow2_adds(128, (k - 128) as nat);
                lemma_fundamental_div_mod(self.hi as int, pk as int);
                assert(self.v() == (self.hi as int / pk as int) * (p128() * pk) + (self.lo + hi
                    * p128()) && 0 <= self.lo + hi * p128() < p128() * pk) by (nonlinear_arith)
                    requires
                        self.v() == self.lo + self.hi * p128(),
                        self.lo < p128(),
                        self.hi == pk * (self.hi as int / pk as int) + hi,
                        0 <= hi < pk,
                        pk > 0,
                ;
                lemma_mod_converse_helper(self.v() as int, (p128() * pk) as int, (self.lo + hi
                    * p128()) as int);
            }
            U256 { lo: self.lo, hi }
        } else {
            let pk = pow2_u128(k);
            proof {
                lemma_pow2_pos(k as nat);
            }
            let lo = self.lo % pk;
            proof {
                lemma_pow2_adds(k as nat, (128 - k) as nat);
                lemma_fundamental_div_mod(self.lo as int, pk as int);
                assert(self.v() == (self.lo as int / pk as int + pow2((128 - k) as nat)
                    * self.hi) * pk + lo && 0 <= lo < pk) by (nonlinear_arith)
                    requires
                        self.v() == self.lo + self.hi * p128(),
                        p128() == pk * pow2((128 - k) as nat),
                        self.lo == pk * (self.lo as int / pk as int) + lo,
                        0 <= lo < pk,
                        pk > 0,
                ;
                lemma_mod_converse_helper(self.v() as int, pk as int, lo as int);
            }
            U256 { lo, hi: 0 }
        }
    }

    /// Bit `k` of the value.
    pub fn bit(&self, k: u32) -> (r: bool)
        requires
            k < 256,
        ensures
            r == ((self.v() / pow2(k as nat)) % 2 == 1),
    {
        let word = if k < 128 {
            self.lo
        } else {
            self.hi
        };
        let off = if k < 128 {
            k
        } else {
            k - 128
        };
        let pk = pow2_u128(off);
        proof {
            lemma_pow2_words();
            if k < 128 {
                lemma2_to64();
                lemma_div_basics(self.v() as int);
                assert(self.v() == 0 + pow2(0) * (self.lo + p128() * self.hi)) by (nonlinear_arith)
                    requires
                        self.v() == self.lo + self.hi * p128(),
                        pow2(0) == 1,
                ;
                lemma_bit_of_limb(self.v(), 0, self.lo as nat, self.hi as nat, 0, k as nat);
            } else {
                assert(self.v() == self.lo + pow2(128) * (self.hi + p128() * 0))
                    by (nonlinear_arith)
                    requires
                        self.v() == self.lo + self.hi * p128(),
                        pow2(128) == p128(),
                ;
                lemma_bit_of_limb(self.v(), self.lo as nat, self.hi as nat, 0, 128, (k
                    - 128) as nat);
            }
            lemma_pow2_pos(off as nat);
            lemma_mod_div_exchange(word as nat, pow2(off as nat));
        }
        (word / pk) % 2 == 1
    }
}

/// `(w / p) % 2` read through `w % (2p)`.
proof fn lemma_mod_div_exchange(w: nat, p: nat)
    requires
        p > 0,
    ensures
        (w / p) % 2 == (w % (2 * p)) / p,
{
    let wi = w as int;
    let pi = p as int;
    lemma_fundamental_div_mod(wi, 2 * pi);
    let q = wi / (2 * pi);
    let r = wi % (2 * pi);
    assert(wi == (2 * pi) * q + r);
    lemma_fundamental_div_mod(r, pi);
    assert(0 <= r / pi < 2 && r % pi < pi) by (nonlinear_arith)
        requires
            0 <= r < 2 * pi,
            pi > 0,
            r == pi * (r / pi) + r % pi,
            0 <= r % pi,
    ;
    assert(wi == pi * (2 * q + r / pi) + r % pi) by (nonlinear_arith)
        requires
            wi == (2 * pi) * q + r,
            r == pi * (r / pi) + r % pi,
    ;
    lemma_fundamental_div_mod_converse(wi, pi, 2 * q + r / pi, r % pi);
    lemma_mod_multiples_vanish(q, r / pi, 2);
    lemma_small_mod((r / pi) as nat, 2);
}

/// Quotient from an explicit decomposition.
proof fn lemma_div_converse_helper(x: int, d: int, q: int)
    requires
        d > 0,
        q * d <= x < q * d + d,
        q >= 0,
        x >= 0,
    ensures
        x / d == q,
{
    lemma_fundamental_div_mod_converse(x, d, q, x - q * d);
}

/// Remainder from an explicit decomposition.
proof fn lemma_mod_converse_helper(x: int, d: int, r: int)
    requires
        d > 0,
        0 <= r < d,
        exists|q: int| x == #[trigger] (q * d) + r && q >= 0,
    ensures
        x % d == r,
{
    let q = choose|q: int| x == #[trigger] (q * d) + r && q >= 0;
    lemma_fundamental_div_mod_converse(x, d, q, r);
}

/// Division with remainder on 256-bit values.
pub fn div_rem_u256(a: &U256, b: &U256) -> (r: (U256, U256))
    requires
        b.v() > 0,
    ensures
        r.0.v() * b.v() + r.1.v() == a.v(),
        r.1.v() < b.v(),
        r.0.v() == a.v() / b.v(),
        r.1.v() == a.v() % b.v(),
{
    let wide = U512::from_u256(a);
    let (q, rem) = div_rem_512(&wide, b);
    proof {
        lemma_v_bound(*a);
        assert(q.v() <= q.v() * b.v()) by (nonlinear_arith)
            requires
                b.v() >= 1,
                q.v() >= 0,
        ;
        lemma_fundamental_div_mod_converse(a.v() as int, b.v() as int, q.v() as int, rem.v() as int);
    }
    (q.to_u256(), rem)
}

/// The value of a `U256` is below 2^256.
pub proof fn lemma_v_bound(x: U256)
    ensures
        x.v() < p256(),
{
    assert(x.lo + x.hi * p128() < p128() * p128()) by (nonlinear_arith)
        requires
            x.lo < p128(),
            x.hi < p128(),
    ;
}

/// Equal values mean equal words.
pub proof fn lemma_v_injective(x: U256, y: U256)
    ensures
        (x.v() == y.v()) == (x.lo == y.lo && x.hi == y.hi),
{
    if x.v() == y.v() && !(x.lo == y.lo && x.hi == y.hi) {
        assert(false) by (nonlinear_arith)
            requires
                x.lo + x.hi * p128() == y.lo + y.hi * p128(),
                x.lo < p128(),
                y.lo < p128(),
                !(x.lo == y.lo && x.hi == y.hi),
        ;
    }
}

/// Lexicographic word order agrees with value order.
pub proof fn lemma_v_order(x: U256, y: U256)
    ensures
        (x.v() < y.v()) == (x.hi < y.hi || (x.hi == y.hi && x.lo < y.lo)),
{
    assert((x.lo + x.hi * p128() < y.lo + y.hi * p128()) == (x.hi < y.hi || (x.hi == y.hi
        && x.lo < y.lo))) by (nonlinear_arith)
        requires
            x.lo < p128(),
            y.lo < p128(),
            x.hi < p128(),
            y.hi < p128(),
    ;
}


/// A `U512` with zero upper words is its low 256 bits.
pub proof fn lemma_u512_low_converse(x: U512)
    requires
        x.w2 == 0,
        x.w3 == 0,
    ensures
        x.v() < p256(),
        x.v() == x.w0 + x.w1 * p128(),
{
    assert(x.w0 + x.w1 * p128() < p256()) by (nonlinear_arith)
        requires
            x.w0 < p128(),
            x.w1 < p128(),
            p256() == p128() * p128(),
    ;
}

} // verus!
