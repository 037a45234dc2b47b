//! A signed 256-bit integer as sign and magnitude, with exact contracts
//! over its mathematical value.

use vstd::prelude::*;
use vstd::arithmetic::power2::*;
use vstd::arithmetic::div_mod::*;

use crate::u256::{U256, lemma_pow2_words, lemma_v_bound, p128, p256};

verus! {

/// A signed 256-bit value; `neg` is never set on a zero magnitude.
#[derive(Clone, Copy, PartialEq, Eq, Structural, Debug)]
pub struct I256 {
    pub neg: bool,
    pub mag: U256,
}

impl I256 {
    /// The mathematical value.
    pub open spec fn iv(self) -> int {
        if self.neg {
            -(self.mag.v() as int)
        } else {
            self.mag.v() as int
        }
    }

    /// Canonical form: no negative zero.
    pub open spec fn wf(self) -> bool {
        self.neg ==> self.mag.v() > 0
    }

    pub fn zero() -> (r: I256)
        ensures
            r.iv() == 0,
            r.wf(),
    {
        I256 { neg: false, mag: U256::zero() }
    }

    pub fn from_u256(mag: U256) -> (r: I256)
        ensures
            r.iv() == mag.v(),
            r.wf(),
    {
        I256 { neg: false, mag }
    }

    /// The value `-mag`.
    pub fn neg_of_u256(mag: U256) -> (r: I256)
        ensures
            r.iv() == -(mag.v() as int),
            r.wf(),
    {
        if mag.is_zero() {
            I256 { neg: false, mag }
        } else {
            I256 { neg: true, mag }
        }
    }

    pub fn from_u128(x: u128) -> (r: I256)
        ensures
            r.iv() == x,
            r.wf(),
    {
        I256 { neg: false, mag: U256::from_u128(x) }
    }

    pub fn from_i128(x: i128) -> (r: I256)
        ensures
            r.iv() == x,
            r.wf(),
    {
        if x < 0 {
            let m = ((-(x + 1)) as u128) + 1;
            I256 { neg: true, mag: U256::from_u128(m) }
        } else {
            I256 { neg: false, mag: U256::from_u128(x as u128) }
        }
    }

    pub fn neg_i(&self) -> (r: I256)
        requires
            self.wf(),
        ensures
            r.iv() == -self.iv(),
            r.wf(),
    {
        if self.mag.is_zero() {
            *self
        } else {
            I256 { neg: !self.neg, mag: self.mag }
        }
    }

    pub fn is_zero(&self) -> (r: bool)
        requires
            self.wf(),
        ensures
            r == (self.iv() == 0),
    {
        self.mag.is_zero()
    }

    pub fn is_neg(&self) -> (r: bool)
        requires
            self.wf(),
        ensures
            r == (self.iv() < 0),
    {
        self.neg
    }

    /// Nonnegative values convert back to unsigned.
    pub fn to_u256(&self) -> (r: U256)
        requires
            self.wf(),
            self.iv() >= 0,
        ensures
            r.v() == self.iv(),
    {
        self.mag
    }

    /// The magnitude.
    pub fn abs_u256(&self) -> (r: U256)
        ensures
            r.v() == (if self.iv() >= 0 {
                self.iv()
            } else {
                -self.iv()
            }),
    {
        self.mag
    }

    pub fn eq_i(&self, other: &I256) -> (r: bool)
        requires
            self.wf(),
            other.wf(),
        ensures
            r == (self.iv() == other.iv()),
    {
        proof {
            crate::u256::lemma_v_injective(self.mag, other.mag);
        }
        self.neg == other.neg && self.mag.lo == other.mag.lo && self.mag.hi == other.mag.hi
    }

    pub fn lt_i(&self, other: &I256) -> (r: bool)
        requires
            self.wf(),
            other.wf(),
        ensures
            r == (self.iv() < other.iv()),
    {
        if self.neg != other.neg {
            self.neg
        } else if self.neg {
            other.mag.lt_u(&self.mag)
        } else {
            self.mag.lt_u(&other.mag)
        }
    }

    pub fn le_i(&self, other: &I256) -> (r: bool)
        requires
            self.wf(),
            other.wf(),
        ensures
            r == (self.iv() <= other.iv()),
    {
        !other.lt_i(self)
    }

    pub fn ge_i(&self, other: &I256) -> (r: bool)
        requires
            self.wf(),
            other.wf(),
        ensures
            r == (self.iv() >= other.iv()),
    {
        !self.lt_i(other)
    }

    /// Signed addition; the result must fit in 256 magnitude bits.
    pub fn add_i(&self, other: &I256) -> (r: I256)
        requires
            self.wf(),
            other.wf(),
            -p256() < self.iv() + other.iv() < p256(),
        ensures
            r.iv() == self.iv() + other.iv(),
            r.wf(),
    {
        if self.neg == other.neg {
            let mag = self.mag.add_u(&other.mag);
            if self.neg {
                I256 { neg: true, mag }
            } else {
                I256 { neg: false, mag }
            }
        } else {
            if self.mag.ge_u(&other.mag) {
                let mag = self.mag.sub_u(&other.mag);
                if self.neg && !mag.is_zero() {
                    I256 { neg: true, mag }
                } else {
                    I256 { neg: false, mag }
                }
            } else {
                let mag = other.mag.sub_u(&self.mag);
                if other.neg {
                    I256 { neg: true, mag }
                } else {
                    I256 { neg: false, mag }
                }
            }
        }
    }

    /// Signed addition with an overflow check on the 256-bit magnitude.
    pub fn checked_add_i(&self, other: &I256) -> (r: Option<I256>)
        requires
            self.wf(),
            other.wf(),
        ensures
            -p256() < self.iv() + other.iv() < p256() ==> r is Some,
            r is Some ==> r->0.iv() == self.iv() + other.iv() && r->0.wf(),
    {
        if self.neg == other.neg {
            match self.mag.checked_add(&other.mag) {
                Some(mag) => {
                    if self.neg && !mag.is_zero() {
                        Some(I256 { neg: true, mag })
                    } else {
                        Some(I256 { neg: false, mag })
                    }
                },
                None => None,
            }
        } else {
            Some(self.add_i(other))
        }
    }

    /// Signed subtraction with an overflow check on the 256-bit magnitude.
    pub fn checked_sub_i(&self, other: &I256) -> (r: Option<I256>)
        requires
            self.wf(),
            other.wf(),
        ensures
            -p256() < self.iv() - other.iv() < p256() ==> r is Some,
            r is Some ==> r->0.iv() == self.iv() - other.iv() && r->0.wf(),
    {
        self.checked_add_i(&other.neg_i())
    }

    /// Signed subtraction; the result must fit in 256 magnitude bits.
    pub fn sub_i(&self, other: &I256) -> (r: I256)
        requires
            self.wf(),
            other.wf(),
            -p256() < self.iv() - other.iv() < p256(),
        ensures
            r.iv() == self.iv() - other.iv(),
            r.wf(),
    {
        self.add_i(&other.neg_i())
    }

    /// Floor shift right by 128 bits (arithmetic shift).
    pub fn shr128(&self) -> (r: I256)
        requires
            self.wf(),
        ensures
            r.iv() == self.iv() / (p128() as int),
            r.wf(),
    {
        proof {
            lemma_pow2_words();
        }
        if self.neg {
            // floor(-m / 2^128) == -ceil(m / 2^128)
            let q = self.mag.shr(128);
            let rem = self.mag.mod_pow2(128);
            proof {
                lemma_pow2_pos(128);
                lemma_fundamental_div_mod(self.mag.v() as int, p128() as int);
                lemma_mod_division_less_than_divisor(self.mag.v() as int, p128() as int);
                lemma_v_bound(self.mag);
                let m = self.mag.v() as int;
                let p = p128() as int;
                if rem.v() == 0 {
                    assert(-m == p * (-(m / p)) + 0) by (nonlinear_arith)
                        requires
                            m == p * (m / p) + 0,
                    ;
                    lemma_fundamental_div_mod_converse(-m, p, -(m / p), 0);
                } else {
                    assert(-m == p * (-(m / p) - 1) + (p - m % p)) by (nonlinear_arith)
                        requires
                            m == p * (m / p) + m % p,
                    ;
                    lemma_fundamental_div_mod_converse(-m, p, -(m / p) - 1, p - m % p);
                }
            }
            if rem.is_zero() {
                if q.is_zero() {
                    I256 { neg: false, mag: q }
                } else {
                    I256 { neg: true, mag: q }
                }
            } else {
                let mag = q.add_u(&U256::one());
                I256 { neg: true, mag }
            }
        } else {
            proof {
                lemma_pow2_pos(128);
            }
            let mag = self.mag.shr(128);
            if mag.is_zero() {
                I256 { neg: false, mag }
            } else {
                I256 { neg: false, mag }
            }
        }
    }

    /// Conversion to `i32` for values in range.
    pub fn to_i32(&self) -> (r: i32)
        requires
            self.wf(),
            -0x8000_0000 <= self.iv() <= 0x7fff_ffff,
        ensures
            r == self.iv(),
    {
        proof {
            if self.neg {
                assert(self.mag.v() <= 0x8000_0000);
            } else {
                assert(self.mag.v() <= 0x7fff_ffff);
            }
        }
        let m = self.mag.as_u128();
        if self.neg {
            (-(m as i64)) as i32
        } else {
            (m as i64) as i32
        }
    }

    /// Multiplication by an unsigned word; the product must fit.
    pub fn mul_u128(&self, c: u128) -> (r: I256)
        requires
            self.wf(),
            self.mag.v() * c < p256(),
        ensures
            r.iv() == self.iv() * c,
            r.wf(),
    {
        let mag = self.mag.mul_u(&U256::from_u128(c));
        proof {
            if self.neg {
                assert(self.iv() * c == -((self.mag.v() * c) as int)) by (nonlinear_arith)
                    requires
                        self.iv() == -(self.mag.v() as int),
                ;
            }
        }
        if mag.is_zero() {
            I256 { neg: false, mag }
        } else {
            I256 { neg: self.neg, mag }
        }
    }
}

} // verus!
