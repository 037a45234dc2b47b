//! Word-indexed bitmap of initialized ticks.
//!
//! A tick aligned to the spacing is stored compressed as `tick / spacing`;
//! bit `b` of word `w` stands for the compressed tick `w * 256 + b`.

use vstd::prelude::*;
use vstd::arithmetic::div_mod::*;
use vstd::arithmetic::mul::*;
use vstd::arithmetic::power2::*;

use crate::error::Error;
use crate::u256::{U256, lemma_pow2_words, lemma_v_bound, p256, pow2_u128};

verus! {

/// Whether bit `b` of the word with value `w` is set.
pub open spec fn bit_set(w: nat, b: nat) -> bool {
    (w / pow2(b)) % 2 == 1
}

/// Value of word `key` in an association list of words; absent words read
/// as zero.
pub open spec fn word_lookup(s: Seq<(i16, U256)>, key: int) -> nat
    decreases s.len(),
{
    if s.len() == 0 {
        0
    } else if s[0].0 == key {
        s[0].1.v()
    } else {
        word_lookup(s.drop_first(), key)
    }
}

/// Lookup walks past a prefix that does not hold the key.
proof fn lemma_word_lookup_skip(s: Seq<(i16, U256)>, k: int, key: int)
    requires
        0 <= k <= s.len(),
        forall|j: int| 0 <= j < k ==> (#[trigger] s[j]).0 != key,
    ensures
        word_lookup(s, key) == word_lookup(s.skip(k), key),
    decreases k,
{
    if k > 0 {
        assert(s.skip(1).len() == s.len() - 1);
        assert(forall|j: int| 0 <= j < k - 1 ==> (#[trigger] s.skip(1)[j]).0 != key);
        lemma_word_lookup_skip(s.skip(1), k - 1, key);
        assert(s.skip(1).skip(k - 1) =~= s.skip(k));
        assert(s.drop_first() =~= s.skip(1));
    } else {
        assert(s.skip(0) =~= s);
    }
}

/// Lookup at an entry's own key, when earlier entries miss, returns it.
proof fn lemma_word_lookup_hit(s: Seq<(i16, U256)>, i: int, key: int)
    requires
        0 <= i < s.len(),
        s[i].0 == key,
        forall|j: int| 0 <= j < i ==> (#[trigger] s[j]).0 != key,
    ensures
        word_lookup(s, key) == s[i].1.v(),
{
    lemma_word_lookup_skip(s, i, key);
    assert(s.skip(i)[0] == s[i]);
    assert(s.skip(i).len() > 0);
}

/// Lookup of an untouched key is unchanged by an update at position `i`.
proof fn lemma_word_lookup_frame(s1: Seq<(i16, U256)>, s2: Seq<(i16, U256)>, i: int, key: int)
    requires
        0 <= i < s1.len(),
        s2.len() == s1.len(),
        forall|j: int| 0 <= j < s1.len() && j != i ==> s1[j] == s2[j],
        s1[i].0 == s2[i].0,
        s1[i].0 != key,
    ensures
        word_lookup(s1, key) == word_lookup(s2, key),
    decreases s1.len(),
{
    if s1.len() > 0 {
        if i == 0 {
            assert(forall|j: int|
                0 <= j < s1.drop_first().len() ==> s1.drop_first()[j] == s2.drop_first()[j]);
            assert(s1.drop_first() =~= s2.drop_first());
        } else {
            assert(s1[0] == s2[0]);
            lemma_word_lookup_frame(s1.drop_first(), s2.drop_first(), i - 1, key);
        }
    }
}

/// Lookup of a key other than the appended one is unchanged by a push.
proof fn lemma_word_lookup_push(s: Seq<(i16, U256)>, entry: (i16, U256), key: int)
    requires
        entry.0 != key,
    ensures
        word_lookup(s.push(entry), key) == word_lookup(s, key),
    decreases s.len(),
{
    if s.len() == 0 {
        assert(s.push(entry).len() == 1);
        assert(s.push(entry)[0] == entry);
        assert(s.push(entry).drop_first() =~= s);
    } else {
        assert(s.push(entry)[0] == s[0]);
        assert(s.push(entry).drop_first() =~= s.drop_first().push(entry));
        lemma_word_lookup_push(s.drop_first(), entry, key);
    }
}

/// The bitmap: one 256-bit word per 256 compressed ticks.
pub struct TickBitmap {
    pub words: Vec<(i16, U256)>,
}

impl TickBitmap {
    /// The value of a word; absent words are zero.
    pub open spec fn word(self, w: int) -> nat {
        word_lookup(self.words@, w)
    }

    pub fn new() -> (r: TickBitmap)
        ensures
            forall|w: int| r.word(w) == 0,
    {
        TickBitmap { words: Vec::new() }
    }

    /// Reads a word.
    pub fn read_word(&self, w: i16) -> (r: U256)
        ensures
            r.v() == self.word(w as int),
    {
        let n = self.words.len();
        for i in 0..n
            invariant
                n == self.words@.len(),
                forall|j: int| 0 <= j < i ==> (#[trigger] self.words@[j]).0 != w,
        {
            if self.words[i].0 == w {
                proof {
                    lemma_word_lookup_hit(self.words@, i as int, w as int);
                }
                return self.words[i].1;
            }
        }
        proof {
            lemma_word_lookup_skip(self.words@, self.words@.len() as int, w as int);
        }
        U256::zero()
    }

    /// Writes a word.
    pub fn write_word(&mut self, w: i16, value: U256)
        ensures
            final(self).word(w as int) == value.v(),
            forall|o: int| o != w as int ==> final(self).word(o) == old(self).word(o),
    {
        let n = self.words.len();
        for i in 0..n
            invariant
                n == self.words@.len(),
                *self == *old(self),
                forall|j: int| 0 <= j < i ==> (#[trigger] self.words@[j]).0 != w,
        {
            if self.words[i].0 == w {
                let ghost prev = self.words@;
                self.words.set(i, (w, value));
                proof {
                    lemma_word_lookup_hit(prev, i as int, w as int);
                    lemma_word_lookup_hit(self.words@, i as int, w as int);
                    assert forall|o: int| o != w as int implies word_lookup(self.words@, o)
                        == word_lookup(prev, o) by {
                        lemma_word_lookup_frame(prev, self.words@, i as int, o);
                    }
                }
                return ;
            }
        }
        let ghost prev = self.words@;
        self.words.push((w, value));
        proof {
            lemma_word_lookup_skip(prev, prev.len() as int, w as int);
            lemma_word_lookup_hit(self.words@, prev.len() as int, w as int);
            assert forall|o: int| o != w as int implies word_lookup(self.words@, o) == word_lookup(
                prev,
                o,
            ) by {
                lemma_word_lookup_push(prev, (w, value), o);
            }
        }
    }
}

/// Floor division of a tick by a positive spacing (rounds toward minus
/// infinity, matching the spec-level Euclidean quotient).
pub fn div_floor_i32(tick: i32, d: i32) -> (r: i32)
    requires
        1 <= d <= 0x8000,
        -0x40_0000 <= tick <= 0x40_0000,
    ensures
        r == tick as int / d as int,
{
    if tick >= 0 {
        let q = (tick as u32) / (d as u32);
        q as i32
    } else {
        let m = (-tick) as u32;
        let du = d as u32;
        let q = (m + (du - 1)) / du;
        proof {
            lemma_fundamental_div_mod((m + (du - 1)) as int, du as int);
            lemma_mod_division_less_than_divisor((m + (du - 1)) as int, du as int);
            let qq = (m + (du - 1)) as int / du as int;
            let rr = (m + (du - 1)) as int % du as int;
            assert(tick as int == (-qq) * (du as int) + ((du - 1) - rr) && 0 <= (du - 1) - rr) by (nonlinear_arith)
                requires
                    m + du - 1 == (du as int) * qq + rr,
                    m == -(tick as int),
                    0 <= rr < du,
            ;
            lemma_fundamental_div_mod_converse(tick as int, du as int, -qq, (du - 1) - rr);
            assert(qq <= 0x40_0000 + 0x8000) by (nonlinear_arith)
                requires
                    m + du - 1 == (du as int) * qq + rr,
                    0 <= rr,
                    du >= 1,
                    m <= 0x40_0000,
                    du <= 0x8000,
                    qq >= 0,
            ;
        }
        -(q as i32)
    }
}

/// Euclidean remainder of a tick by a positive spacing.
pub fn mod_floor_i32(tick: i32, d: i32) -> (r: i32)
    requires
        1 <= d <= 0x8000,
        -0x40_0000 <= tick <= 0x40_0000,
    ensures
        r == tick as int % d as int,
        0 <= r < d,
{
    let q = div_floor_i32(tick, d);
    proof {
        lemma_fundamental_div_mod(tick as int, d as int);
        lemma_mod_division_less_than_divisor(tick as int, d as int);
        assert((tick as int) - (d as int) * (tick as int / d as int) == tick as int % d as int);
    }
    tick - d * q
}

/// The word and bit holding a compressed tick: `(c / 256, c % 256)`.
pub fn position(tick: i32) -> (r: (i16, u8))
    requires
        -0x40_0000 <= tick <= 0x40_0000,
    ensures
        r.0 == tick as int / 256,
        r.1 == tick as int % 256,
        tick == 256 * r.0 + r.1,
{
    let w = div_floor_i32(tick, 256);
    let b = mod_floor_i32(tick, 256);
    proof {
        lemma_fundamental_div_mod(tick as int, 256);
    }
    (w as i16, b as u8)
}

/// Turning bit `b` on (off) adds (removes) `2^b` and leaves every other
/// bit as it was.
pub proof fn lemma_flip_bit(w: nat, b: nat)
    requires
        b < 256,
        w < p256(),
    ensures
        !bit_set(w, b) ==> w + pow2(b) < p256(),
        !bit_set(w, b) ==> bit_set((w + pow2(b)) as nat, b),
        bit_set(w, b) ==> w >= pow2(b) && !bit_set((w - pow2(b)) as nat, b),
        forall|o: nat|
            o < 256 && o != b && !bit_set(w, b) ==> (#[trigger] bit_set((w + pow2(b)) as nat, o))
                == bit_set(w, o),
        forall|o: nat|
            o < 256 && o != b && bit_set(w, b) ==> (#[trigger] bit_set((w - pow2(b)) as nat, o))
                == bit_set(w, o),
{
    lemma_pow2_words();
    lemma_pow2_pos(b);
    lemma_fundamental_div_mod((w / pow2(b)) as int, 2);
    lemma_pow2_adds(b, 1);
    lemma2_to64();
    lemma_pow2_pos((b + 1) as nat);
    lemma_fundamental_div_mod(w as int, pow2(b) as int);
    lemma_mod_division_less_than_divisor(w as int, pow2(b) as int);
    let q = w / pow2(b);
    let low = w % pow2(b);
    let c = q % 2;
    let hi = q / 2;
    lemma_fundamental_div_mod(q as int, 2);
    assert(w == (2 * hi + c) * pow2(b) + low) by (nonlinear_arith)
        requires
            w == pow2(b) * q + low,
            q == 2 * hi + c,
    ;
    if !bit_set(w, b) {
        assert(c == 0);
        let w2 = (w + pow2(b)) as nat;
        assert(w2 == (2 * hi + 1) * pow2(b) + low) by (nonlinear_arith)
            requires
                w == (2 * hi + 0) * pow2(b) + low,
                w2 == w + pow2(b),
        ;
        lemma_bit_decomposed(w2, b, hi, 1, low);
        lemma_bit_decomposed(w, b, hi, 0, low);
        assert(w2 < p256()) by {
            if w2 >= p256() {
                assert(w2 / pow2(b) >= p256() / pow2(b)) by {
                    lemma_div_is_ordered(p256() as int, w2 as int, pow2(b) as int);
                }
                lemma_pow2_subtracts(b, 256);
                assert(p256() == pow2(b) * pow2((256 - b) as nat)) by {
                    lemma_pow2_adds(b, (256 - b) as nat);
                }
                lemma_div_multiples_vanish(pow2((256 - b) as nat) as int, pow2(b) as int);
                assert(w2 / pow2(b) == 2 * hi + 1);
                assert(2 * hi + 1 >= pow2((256 - b) as nat));
                assert(q < pow2((256 - b) as nat)) by {
                    assert(w >= pow2(b) * q) by (nonlinear_arith)
                        requires
                            w == pow2(b) * q + low,
                            low >= 0,
                    ;
                    if q >= pow2((256 - b) as nat) {
                        assert(pow2(b) * q >= pow2(b) * pow2((256 - b) as nat)) by (nonlinear_arith)
                            requires
                                q >= pow2((256 - b) as nat),
                                pow2(b) > 0,
                        ;
                    }
                }
                assert(q == 2 * hi);
                assert(pow2((256 - b) as nat) % 2 == 0) by {
                    lemma_pow2_unfold((256 - b) as nat);
                    lemma_mod_multiples_basic(pow2((255 - b) as nat) as int, 2);
                }
                assert(2 * hi + 1 == pow2((256 - b) as nat)) by {
                    assert(2 * hi < pow2((256 - b) as nat));
                    assert(2 * hi + 1 >= pow2((256 - b) as nat));
                }
                assert((2 * hi + 1) % 2 == 1) by {
                    lemma_mod_multiples_vanish(hi as int, 1, 2);
                    lemma_small_mod(1, 2);
                }
                assert(false);
            }
        }
        assert forall|o: nat| o < 256 && o != b implies (#[trigger] bit_set(w2, o)) == bit_set(
            w,
            o,
        ) by {
            lemma_flip_other(w, w2, b, hi, low, 0, 1, o);
        }
    } else {
        assert(c == 1);
        assert(w >= pow2(b)) by (nonlinear_arith)
            requires
                w == (2 * hi + 1) * pow2(b) + low,
                hi >= 0,
                low >= 0,
                pow2(b) > 0,
        ;
        let w2 = (w - pow2(b)) as nat;
        assert(w2 == (2 * hi + 0) * pow2(b) + low) by (nonlinear_arith)
            requires
                w == (2 * hi + 1) * pow2(b) + low,
                w2 == w - pow2(b),
        ;
        lemma_bit_decomposed(w2, b, hi, 0, low);
        lemma_bit_decomposed(w, b, hi, 1, low);
        assert forall|o: nat| o < 256 && o != b implies (#[trigger] bit_set(w2, o)) == bit_set(
            w,
            o,
        ) by {
            lemma_flip_other(w, w2, b, hi, low, 1, 0, o);
        }
    }
}

/// Bit `b` of `(2 hi + c) * 2^b + low` is `c`.
proof fn lemma_bit_decomposed(w: nat, b: nat, hi: nat, c: nat, low: nat)
    requires
        w == (2 * hi + c) * pow2(b) + low,
        low < pow2(b),
        c <= 1,
    ensures
        bit_set(w, b) == (c == 1),
        w / pow2(b) == 2 * hi + c,
{
    lemma_pow2_pos(b);
    assert(w == pow2(b) * (2 * hi + c) + low) by (nonlinear_arith)
        requires
            w == (2 * hi + c) * pow2(b) + low,
    ;
    assert(w == ((2 * hi + c) as int) * (pow2(b) as int) + low) by (nonlinear_arith)
        requires
            w == pow2(b) * (2 * hi + c) + low,
    ;
    lemma_fundamental_div_mod_converse(w as int, pow2(b) as int, (2 * hi + c) as int, low as int);
    assert((2 * hi + c) as int == (hi as int) * 2 + c);
    lemma_fundamental_div_mod_converse((2 * hi + c) as int, 2, hi as int, c as int);
}

/// Bits other than `b` agree between two words that differ only in the
/// `c`-coefficient at position `b`.
proof fn lemma_flip_other(w: nat, w2: nat, b: nat, hi: nat, low: nat, c1: nat, c2: nat, o: nat)
    requires
        w == (2 * hi + c1) * pow2(b) + low,
        w2 == (2 * hi + c2) * pow2(b) + low,
        low < pow2(b),
        c1 <= 1,
        c2 <= 1,
        o < 256,
        b < 256,
        o != b,
    ensures
        bit_set(w2, o) == bit_set(w, o),
{
    lemma_pow2_pos(b);
    lemma_pow2_pos(o);
    if o < b {
        // low bits come from `low` alone
        lemma_pow2_subtracts(o, b);
        lemma_pow2_adds(o, (b - o) as nat);
        let stride = pow2((b - o) as nat);
        lemma_fundamental_div_mod(low as int, pow2(o) as int);
        lemma_mod_division_less_than_divisor(low as int, pow2(o) as int);
        let lq = low / pow2(o);
        let lr = low % pow2(o);
        assert(w == (((2 * hi + c1) * stride + lq) as int) * (pow2(o) as int) + lr && w2 == (((2
            * hi + c2) * stride + lq) as int) * (pow2(o) as int) + lr) by (nonlinear_arith)
            requires
                w == (2 * hi + c1) * pow2(b) + low,
                w2 == (2 * hi + c2) * pow2(b) + low,
                low == pow2(o) * lq + lr,
                pow2(b) == pow2(o) * stride,
        ;
        lemma_fundamental_div_mod_converse(
            w as int,
            pow2(o) as int,
            ((2 * hi + c1) * stride + lq) as int,
            lr as int,
        );
        lemma_fundamental_div_mod_converse(
            w2 as int,
            pow2(o) as int,
            ((2 * hi + c2) * stride + lq) as int,
            lr as int,
        );
        // the quotients differ by a multiple of 2^(b-o+1) >= 2
        let m1 = (2 * hi + c1) * stride + lq;
        let m2 = (2 * hi + c2) * stride + lq;
        lemma_pow2_unfold((b - o) as nat);
        let half_stride = pow2((b - o - 1) as nat);
        if c1 == c2 {
        } else {
            assert(stride % 2 == 0) by {
                lemma_mod_multiples_basic(half_stride as int, 2);
                assert(stride == 2 * half_stride);
            }
            assert(m1 % 2 == m2 % 2) by {
                lemma_mod_multiples_vanish(
                    (hi * stride + (if c1 == 1 {
                        half_stride as int
                    } else {
                        0int
                    })) as int,
                    lq as int,
                    2,
                );
                lemma_mod_multiples_vanish(
                    (hi * stride + (if c2 == 1 {
                        half_stride as int
                    } else {
                        0int
                    })) as int,
                    lq as int,
                    2,
                );
                assert(m1 == 2 * (hi * stride + (if c1 == 1 {
                    half_stride as int
                } else {
                    0int
                })) + lq) by (nonlinear_arith)
                    requires
                        m1 == (2 * hi + c1) * stride + lq,
                        stride == 2 * half_stride,
                        c1 <= 1,
                ;
                assert(m2 == 2 * (hi * stride + (if c2 == 1 {
                    half_stride as int
                } else {
                    0int
                })) + lq) by (nonlinear_arith)
                    requires
                        m2 == (2 * hi + c2) * stride + lq,
                        stride == 2 * half_stride,
                        c2 <= 1,
                ;
            }
        }
    } else {
        // high bits come from `hi` alone
        lemma_pow2_adds(b, 1);
        lemma_pow2_subtracts((b + 1) as nat, o);
        let stride = pow2((o - b - 1) as nat);
        lemma_fundamental_div_mod(hi as int, stride as int);
        lemma_mod_division_less_than_divisor(hi as int, stride as int);
        lemma_pow2_pos((o - b - 1) as nat);
        let hq = hi / stride;
        let hr = hi % stride;
        // w = hq * 2^o + (hr * 2^(b+1) + c * 2^b + low), remainder < 2^o
        assert(pow2(o) == stride * (2 * pow2(b))) by {
            lemma_pow2_adds((o - b - 1) as nat, (b + 1) as nat);
            lemma_pow2_adds(b, 1);
            lemma2_to64();
            assert(pow2((b + 1) as nat) == 2 * pow2(b));
        }
        let rem1 = (hr * (2 * pow2(b)) + c1 * pow2(b) + low) as int;
        let rem2 = (hr * (2 * pow2(b)) + c2 * pow2(b) + low) as int;
        assert(w == (hq as int) * (pow2(o) as int) + rem1 && 0 <= rem1 < pow2(o) && w2 == (
        hq as int) * (pow2(o) as int) + rem2 && 0 <= rem2 < pow2(o)) by (nonlinear_arith)
            requires
                w == (2 * hi + c1) * pow2(b) + low,
                w2 == (2 * hi + c2) * pow2(b) + low,
                hi == stride * hq + hr,
                0 <= hr < stride,
                low < pow2(b),
                c1 <= 1,
                c2 <= 1,
                pow2(o) == stride * (2 * pow2(b)),
                rem1 == hr * (2 * pow2(b)) + c1 * pow2(b) + low,
                rem2 == hr * (2 * pow2(b)) + c2 * pow2(b) + low,
                pow2(b) > 0,
                stride > 0,
        ;
        lemma_fundamental_div_mod_converse(w as int, pow2(o) as int, hq as int, rem1);
        lemma_fundamental_div_mod_converse(w2 as int, pow2(o) as int, hq as int, rem2);
    }
}

/// Index of the lowest set bit, as a recursive definition.
pub open spec fn lsb_index(n: nat) -> nat
    recommends
        n > 0,
    decreases n,
{
    if n % 2 == 1 || n <= 1 {
        0
    } else {
        1 + lsb_index(n / 2)
    }
}

/// The least-significant-bit contract pins the recursive index.
pub proof fn lemma_lsb_index(n: nat, r: nat)
    requires
        n % pow2(r) == 0,
        (n / pow2(r)) % 2 == 1,
    ensures
        lsb_index(n) == r,
    decreases r,
{
    lemma2_to64();
    lemma_pow2_pos(r);
    if r == 0 {
        lemma_div_basics(n as int);
        assert(n / pow2(0) == n);
    } else {
        lemma_fundamental_div_mod(n as int, pow2(r) as int);
        let k = n as int / pow2(r) as int;
        assert(n == pow2(r) * k);
        lemma_pow2_unfold(r);
        lemma_pow2_pos((r - 1) as nat);
        assert(n == 2 * (pow2((r - 1) as nat) * k)) by (nonlinear_arith)
            requires
                n == pow2(r) * k,
                pow2(r) == 2 * pow2((r - 1) as nat),
        ;
        lemma_mod_multiples_basic((pow2((r - 1) as nat) * k) as int, 2);
        assert(n % 2 == 0);
        assert(n / 2 == pow2((r - 1) as nat) * k) by {
            lemma_div_multiples_vanish((pow2((r - 1) as nat) * k) as int, 2);
        }
        assert(n / 2 % pow2((r - 1) as nat) == 0) by {
            assert(n / 2 == pow2((r - 1) as nat) * k) by (nonlinear_arith)
                requires
                    n / 2 == pow2((r - 1) as nat) * k,
            ;
            lemma_mod_multiples_basic(k, pow2((r - 1) as nat) as int);
        }
        assert((n / 2) / pow2((r - 1) as nat) == n / pow2(r)) by {
            lemma_div_denominator(n as int, 2, pow2((r - 1) as nat) as int);
        }
        assert(n > 1) by {
            assert(n / pow2(r) >= 1) by {
                if n / pow2(r) == 0 {
                    lemma_small_mod(0, 2);
                }
            }
            assert(n >= pow2(r)) by (nonlinear_arith)
                requires
                    n == pow2(r) * (n as int / pow2(r) as int),
                    n as int / pow2(r) as int >= 1,
                    pow2(r) >= 2,
            ;
        }
        lemma_lsb_index(n / 2, (r - 1) as nat);
    }
}

/// A multiple of `2^k` has no set bit below `k`.
pub proof fn lemma_low_bits_clear(m: nat, k: nat, o: nat)
    requires
        m % pow2(k) == 0,
        o < k,
    ensures
        !bit_set(m, o),
{
    lemma_pow2_pos(k);
    lemma_pow2_pos(o);
    lemma_fundamental_div_mod(m as int, pow2(k) as int);
    let q = m as int / pow2(k) as int;
    lemma_pow2_subtracts(o, k);
    lemma_pow2_adds(o, (k - o) as nat);
    assert(m == pow2(o) * (pow2((k - o) as nat) * q)) by (nonlinear_arith)
        requires
            m == pow2(k) * q,
            pow2(k) == pow2(o) * pow2((k - o) as nat),
    ;
    lemma_div_multiples_vanish((pow2((k - o) as nat) * q) as int, pow2(o) as int);
    assert(m / pow2(o) == pow2((k - o) as nat) * q);
    lemma_pow2_unfold((k - o) as nat);
    lemma_pow2_pos((k - o - 1) as nat);
    assert(m / pow2(o) == 2 * (pow2((k - o - 1) as nat) * q)) by (nonlinear_arith)
        requires
            m / pow2(o) == pow2((k - o) as nat) * q,
            pow2((k - o) as nat) == 2 * pow2((k - o - 1) as nat),
    ;
    lemma_mod_multiples_basic((pow2((k - o - 1) as nat) * q) as int, 2);
}

/// The returned tick stays well inside `i32` range.
proof fn lemma_compressed_mul_bound(tick: int, spacing: int, c: int, delta: int)
    requires
        1 <= spacing <= 0x8000,
        -887273 <= tick <= 887272,
        c == tick / spacing,
        -256 <= delta <= 256,
    ensures
        -0x4000_0000 <= (c + delta) * spacing <= 0x4000_0000,
{
    lemma_fundamental_div_mod(tick, spacing);
    lemma_mod_division_less_than_divisor(tick, spacing);
    assert(-0x4000_0000 <= (c + delta) * spacing <= 0x4000_0000) by (nonlinear_arith)
        requires
            tick == spacing * c + tick % spacing,
            0 <= tick % spacing,
            (tick % spacing) < spacing,
            1 <= spacing <= 0x8000,
            -887273 <= tick <= 887272,
            -256 <= delta <= 256,
    ;
}

/// Every stored word value is below 2^256.
pub proof fn lemma_word_lookup_bound(s: Seq<(i16, U256)>, key: int)
    ensures
        word_lookup(s, key) < p256(),
    decreases s.len(),
{
    crate::u256::lemma_pow2_words();
    if s.len() == 0 {
        vstd::arithmetic::power2::lemma_pow2_pos(256);
    } else if s[0].0 == key {
        lemma_v_bound(s[0].1);
    } else {
        lemma_word_lookup_bound(s.drop_first(), key);
    }
}

/// Two aligned ticks with the same bitmap word and bit are the same tick.
pub proof fn lemma_tick_bit_injective(spacing: int, t1: int, t2: int)
    requires
        spacing >= 1,
        t1 % spacing == 0,
        t2 % spacing == 0,
        (t1 / spacing) / 256 == (t2 / spacing) / 256,
        (t1 / spacing) % 256 == (t2 / spacing) % 256,
    ensures
        t1 == t2,
{
    let c1 = t1 / spacing;
    let c2 = t2 / spacing;
    lemma_fundamental_div_mod(c1, 256);
    lemma_fundamental_div_mod(c2, 256);
    assert(c1 == c2);
    lemma_fundamental_div_mod(t1, spacing);
    lemma_fundamental_div_mod(t2, spacing);
}

/// Flips the bitmap bit of an aligned tick; fails with `ErrFlipTick` on a
/// tick that is not a multiple of the spacing.
pub fn flip_tick(bitmap: &mut TickBitmap, tick: i32, tick_spacing: i32) -> (r: Result<(), Error>)
    requires
        1 <= tick_spacing <= 0x8000,
        -0x40_0000 <= tick <= 0x40_0000,
    ensures
        r is Ok <==> tick as int % tick_spacing as int == 0,
        r is Err ==> r == Result::<(), Error>::Err(Error::ErrFlipTick) && *final(bitmap) == *old(
            bitmap,
        ),
        r is Ok ==> ({
            let c = tick as int / tick_spacing as int;
            let wp = c / 256;
            let bp = (c % 256) as nat;
            let w = old(bitmap).word(wp);
            &&& final(bitmap).word(wp) as int == (if bit_set(w, bp) {
                w - pow2(bp)
            } else {
                (w + pow2(bp)) as int
            })
            &&& forall|o: int| o != wp ==> final(bitmap).word(o) == old(bitmap).word(o)
        }),
{
    if mod_floor_i32(tick, tick_spacing) != 0 {
        return Err(Error::ErrFlipTick);
    }
    let c = div_floor_i32(tick, tick_spacing);
    proof {
        lemma_fundamental_div_mod(tick as int, tick_spacing as int);
        assert(-0x40_0000 <= c <= 0x40_0000) by (nonlinear_arith)
            requires
                tick as int == (tick_spacing as int) * (c as int),
                1 <= tick_spacing <= 0x8000,
                -0x40_0000 <= tick <= 0x40_0000,
        ;
    }
    let (word_pos, bit_pos) = position(c);
    let word = bitmap.read_word(word_pos);
    proof {
        lemma_v_bound(word);
        lemma_flip_bit(word.v(), bit_pos as nat);
    }
    let mask = U256::power_of_two(bit_pos as u32);
    let new_word = if word.bit(bit_pos as u32) {
        word.sub_u(&mask)
    } else {
        word.add_u(&mask)
    };
    bitmap.write_word(word_pos, new_word);
    Ok(())
}

/// Finds the nearest initialized tick within one bitmap word: at or below
/// the given tick when `lte`, strictly above otherwise.  The flag reports
/// whether a set bit was found; if not, the returned tick is the word
/// boundary so the caller can continue in the next word.
pub fn tick_next_initialized_tick_within_one_word(
    bitmap: &TickBitmap,
    tick: i32,
    tick_spacing: i32,
    lte: bool,
) -> (r: (i32, bool))
    requires
        1 <= tick_spacing <= 0x8000,
        -887273 <= tick <= 887272,
    ensures
        ({
            let c = tick as int / tick_spacing as int;
            if lte {
                let wp = c / 256;
                let bp = (c % 256) as nat;
                let masked = bitmap.word(wp) % pow2((bp + 1) as nat);
                &&& r.1 == (masked != 0)
                &&& (masked != 0 ==> r.0 == (c - bp + crate::tickmath::log2_floor(masked))
                    * tick_spacing)
                &&& (masked == 0 ==> r.0 == (c - bp) * tick_spacing)
            } else {
                let wp = (c + 1) / 256;
                let bp = ((c + 1) % 256) as nat;
                let w = bitmap.word(wp);
                let masked = (w - w % pow2(bp)) as nat;
                &&& r.1 == (masked != 0)
                &&& (masked != 0 ==> r.0 == (c + 1 + lsb_index(masked) - bp) * tick_spacing)
                &&& (masked == 0 ==> r.0 == (c + 1 + 255 - bp) * tick_spacing)
            }
        }),
{
    let compressed = div_floor_i32(tick, tick_spacing);
    proof {
        lemma_fundamental_div_mod(tick as int, tick_spacing as int);
        lemma_mod_division_less_than_divisor(tick as int, tick_spacing as int);
        assert(-887273 <= compressed <= 887272) by (nonlinear_arith)
            requires
                tick as int == (tick_spacing as int) * (compressed as int) + tick as int
                    % tick_spacing as int,
                0 <= tick as int % tick_spacing as int,
                (tick as int % tick_spacing as int) < tick_spacing,
                1 <= tick_spacing <= 0x8000,
                -887273 <= tick <= 887272,
        ;
    }
    if lte {
        let (word_pos, bit_pos) = position(compressed);
        let word = bitmap.read_word(word_pos);
        let masked = word.mod_pow2(bit_pos as u32 + 1);
        let initialized = !masked.is_zero();
        proof {
            lemma_pow2_pos((bit_pos + 1) as nat);
        }
        let next = if initialized {
            let msb = crate::bitmath::most_significant_bit_internal(masked);
            proof {
                if msb > bit_pos {
                    lemma_mod_division_less_than_divisor(
                        word.v() as int,
                        pow2((bit_pos + 1) as nat) as int,
                    );
                    assert(masked.v() < pow2((bit_pos + 1) as nat));
                    assert(pow2((bit_pos + 1) as nat) <= pow2(msb as nat)) by {
                        if bit_pos + 1 < msb {
                            lemma_pow2_strictly_increases((bit_pos + 1) as nat, msb as nat);
                        }
                    }
                    assert(false);
                }
                crate::tickmath::lemma_log2_floor(masked.v(), msb as nat);
                lemma_compressed_mul_bound(
                    tick as int,
                    tick_spacing as int,
                    compressed as int,
                    msb as int - bit_pos as int,
                );
            }
            (compressed - ((bit_pos - msb) as i32)) * tick_spacing
        } else {
            proof {
                lemma_compressed_mul_bound(
                    tick as int,
                    tick_spacing as int,
                    compressed as int,
                    -(bit_pos as int),
                );
            }
            (compressed - (bit_pos as i32)) * tick_spacing
        };
        (next, initialized)
    } else {
        let (word_pos, bit_pos) = position(compressed + 1);
        let word = bitmap.read_word(word_pos);
        proof {
            lemma_pow2_pos(bit_pos as nat);
        }
        let low = word.mod_pow2(bit_pos as u32);
        proof {
            lemma_mod_decreases(word.v(), pow2(bit_pos as nat));
        }
        let masked = word.sub_u(&low);
        let initialized = !masked.is_zero();
        proof {
            lemma_mod_masked_multiple(word.v(), bit_pos as nat);
        }
        let next = if initialized {
            let lsb = crate::bitmath::least_significant_bit_internal(masked);
            proof {
                if (lsb as nat) < bit_pos as nat {
                    lemma_low_bits_clear(masked.v(), bit_pos as nat, lsb as nat);
                    assert(false);
                }
                lemma_lsb_index(masked.v(), lsb as nat);
                lemma_compressed_mul_bound(
                    tick as int,
                    tick_spacing as int,
                    compressed as int,
                    1 + lsb as int - bit_pos as int,
                );
            }
            (compressed + 1 + ((lsb - bit_pos) as i32)) * tick_spacing
        } else {
            proof {
                lemma_compressed_mul_bound(
                    tick as int,
                    tick_spacing as int,
                    compressed as int,
                    1 + 255 - bit_pos as int,
                );
            }
            (compressed + 1 + ((255 - bit_pos) as i32)) * tick_spacing
        };
        (next, initialized)
    }
}

/// Law: a tick holds liquidity exactly when its bitmap bit is set and its
/// record reads initialized.  One liquidity change reports `flipped` when
/// the tick crossed between empty and funded; applying the matching
/// bitmap flip (and clearing the record when a burn emptied the tick)
/// keeps all three views of "this tick is live" in agreement.
pub proof fn lemma_update_flip_consistency(
    gross_before: nat,
    gross_after: nat,
    initialized_before: bool,
    initialized_after: bool,
    word_before: nat,
    word_after: nat,
    b: nat,
    flipped: bool,
)
    requires
        b < 256,
        word_before < p256(),
        gross_before != gross_after,
        flipped == ((gross_after == 0) != (gross_before == 0)),
        (gross_before > 0) == bit_set(word_before, b),
        (gross_before > 0) == initialized_before,
        word_after == (if flipped {
            if bit_set(word_before, b) {
                (word_before - pow2(b)) as nat
            } else {
                (word_before + pow2(b)) as nat
            }
        } else {
            word_before
        }),
        // a funding update marks the record initialized; a burn that
        // emptied the tick clears it
        initialized_after == (if flipped && gross_after == 0 {
            false
        } else if gross_before == 0 {
            true
        } else {
            initialized_before
        }),
    ensures
        (gross_after > 0) == bit_set(word_after, b),
        (gross_after > 0) == initialized_after,
{
    lemma_flip_bit(word_before, b);
}

/// `w - w % 2^k` is a multiple of `2^k`.
proof fn lemma_mod_masked_multiple(w: nat, k: nat)
    ensures
        ((w - w % pow2(k)) as nat) % pow2(k) == 0,
{
    lemma_pow2_pos(k);
    lemma_fundamental_div_mod(w as int, pow2(k) as int);
    let q = w as int / pow2(k) as int;
    assert(w - w % pow2(k) == pow2(k) * q);
    lemma_mod_multiples_basic(q, pow2(k) as int);
}

} // verus!
