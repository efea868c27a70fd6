//! Arithmetic on binary64 numbers.
//!
//! Each operation returns the exact result, rounded to the nearest number (see
//! [`crate::rounding`]). Operations on infinities, on zeros and on what is no number
//! follow IEEE 754.

use vstd::prelude::*;
use crate::binary64;
use crate::binary64::{Binary64, HIDDEN, INFINITY, SIGN};
use crate::rounding;
use crate::rounding::BIAS;

verus! {

/// The bit pattern that stands for no number in the results of operations.
pub const NAN: u64 = 0x7ff8_0000_0000_0000;

/// The pattern of a magnitude with a sign.
pub open spec fn signed(negative: bool, magnitude: nat) -> Binary64 {
    Binary64 {
        bits: if negative {
            (SIGN + magnitude) as u64
        } else {
            magnitude as u64
        },
    }
}

pub open spec fn not_a_number() -> Binary64 {
    Binary64 { bits: NAN }
}

/// The size of a number, in units.
pub open spec fn size(a: Binary64) -> nat {
    binary64::units(a.magnitude())
}

/// How many units make one.
pub open spec fn one() -> nat {
    binary64::one_in_units()
}

impl Binary64 {
    pub open spec fn is_infinite(self) -> bool {
        self.magnitude() == INFINITY
    }

    pub open spec fn is_zero(self) -> bool {
        self.magnitude() == 0
    }

    pub open spec fn negated(self) -> Binary64 {
        signed(!self.is_negative(), self.magnitude())
    }

    pub open spec fn sum(self, other: Binary64) -> Binary64 {
        if self.is_nan() || other.is_nan() {
            not_a_number()
        } else if self.is_infinite() && other.is_infinite() {
            if self.is_negative() == other.is_negative() {
                self
            } else {
                not_a_number()
            }
        } else if self.is_infinite() {
            self
        } else if other.is_infinite() {
            other
        } else {
            let exact = self.number() + other.number();
            if exact == 0 {
                signed(self.is_negative() && other.is_negative(), 0)
            } else if exact > 0 {
                signed(false, rounding::rounded(exact as nat, 1))
            } else {
                signed(true, rounding::rounded((-exact) as nat, 1))
            }
        }
    }

    pub open spec fn difference(self, other: Binary64) -> Binary64 {
        self.sum(other.negated())
    }

    pub open spec fn product(self, other: Binary64) -> Binary64 {
        let negative = self.is_negative() != other.is_negative();
        if self.is_nan() || other.is_nan() {
            not_a_number()
        } else if self.is_infinite() || other.is_infinite() {
            if self.is_zero() || other.is_zero() {
                not_a_number()
            } else {
                signed(negative, INFINITY as nat)
            }
        } else {
            signed(negative, rounding::rounded(size(self) * size(other), one()))
        }
    }

    pub open spec fn quotient(self, other: Binary64) -> Binary64 {
        let negative = self.is_negative() != other.is_negative();
        if self.is_nan() || other.is_nan() {
            not_a_number()
        } else if self.is_infinite() {
            if other.is_infinite() {
                not_a_number()
            } else {
                signed(negative, INFINITY as nat)
            }
        } else if other.is_infinite() {
            signed(negative, 0)
        } else if other.is_zero() {
            if self.is_zero() {
                not_a_number()
            } else {
                signed(negative, INFINITY as nat)
            }
        } else {
            signed(negative, rounding::rounded(size(self) * one(), size(other)))
        }
    }

    /// The number nearest to an integer.
    pub open spec fn of(n: u64) -> Binary64 {
        signed(false, rounding::rounded(n as nat * one(), 1))
    }

    /// The integer part, where it lies in the range of 64-bit integers, and the nearer end
    /// of that range where it does not. What is no number gives 0.
    pub open spec fn integer_part(self) -> u64 {
        if self.is_nan() || self.is_negative() {
            0
        } else if size(self) / one() > u64::MAX {
            u64::MAX
        } else {
            (size(self) / one()) as u64
        }
    }

    /// The nearest integer, and the one farther from zero of two that are equally near.
    pub open spec fn rounded_to_integer(self) -> Binary64 {
        if self.is_nan() {
            not_a_number()
        } else if self.is_infinite() {
            self
        } else {
            let n = (2 * size(self) + one()) / (2 * one());
            signed(self.is_negative(), rounding::rounded(n * one(), 1))
        }
    }
}

// ---------------------------------------------------------------------------
// Taking numbers apart and putting them together
// ---------------------------------------------------------------------------
/// The digits of a magnitude, and the power of two that is the weight of the last one.
pub(crate) fn unpack(m: u64) -> (r: (u64, i32))
    requires
        m < INFINITY,
    ensures
        r.0 < 2 * HIDDEN,
        0 <= r.1 <= 2045,
        binary64::units(m as nat) == r.0 * rounding::p2(r.1 as int),
        r.1 > 0 ==> r.0 >= HIDDEN,
        m > 0 ==> r.0 > 0,
        r.1 == if m / HIDDEN == 0 {
            0
        } else {
            m / HIDDEN - 1
        },
{
    let e = m / HIDDEN;
    let f = m % HIDDEN;
    proof {
        reveal(binary64::units);
        vstd::arithmetic::power2::lemma2_to64();
    }
    if e == 0 {
        (f, 0)
    } else {
        (HIDDEN + f, (e - 1) as i32)
    }
}

/// As [`unpack`], but with as many digits as a number can have.
fn unpack_normal(m: u64) -> (r: (u64, i32))
    requires
        0 < m < INFINITY,
    ensures
        HIDDEN <= r.0 < 2 * HIDDEN,
        -52 <= r.1 <= 2045,
        r.0 * rounding::p2(r.1 + BIAS) == binary64::units(m as nat) * rounding::p2(BIAS as int),
{
    let (digits, weight) = unpack(m);
    let ghost u = binary64::units(m as nat);
    let ghost q = rounding::p2(BIAS as int);
    let mut s: u64 = digits;
    let mut k: i32 = weight;
    proof {
        rounding::lemma_p2_adds(k as int, BIAS as int);
        assert(s * (rounding::p2(k as int) * q) == (s * rounding::p2(k as int)) * q)
            by (nonlinear_arith);
        vstd::arithmetic::power2::lemma2_to64();
        vstd::arithmetic::power2::lemma2_to64_rest();
    }
    while s < HIDDEN
        invariant
            0 < s < 2 * HIDDEN,
            -52 <= k <= 2045,
            k > 0 ==> s >= HIDDEN,
            k <= 0 ==> s >= rounding::p2(-k),
            rounding::p2(52) == HIDDEN,
            s * rounding::p2(k + BIAS) == u * q,
        decreases 2 * HIDDEN - s,
    {
        proof {
            if k == -52 {
                assert(s >= rounding::p2(52));
            }
            vstd::arithmetic::power2::lemma_pow2_unfold((k + BIAS) as nat);
            vstd::arithmetic::power2::lemma_pow2_unfold((1 - k) as nat);
            let p = rounding::p2(k - 1 + BIAS);
            assert(s * (2 * p) == (s * 2) * p) by (nonlinear_arith);
        }
        s = s * 2;
        k = k - 1;
    }
    (s, k)
}

/// Puts a sign on a magnitude.
fn with_sign(negative: bool, m: u64) -> (r: Binary64)
    requires
        m <= INFINITY,
    ensures
        r == signed(negative, m as nat),
{
    if negative {
        Binary64 { bits: SIGN + m }
    } else {
        Binary64 { bits: m }
    }
}

fn nan() -> (r: Binary64)
    ensures
        r == not_a_number(),
{
    Binary64 { bits: NAN }
}

/// Nothing is rounded to zero.
pub(crate) proof fn lemma_rounded_zero(d: nat)
    requires
        d > 0,
    ensures
        rounding::rounded(0, d) == 0,
{
    binary64::lemma_units_order(0, 1);
    let u = binary64::units(1);
    assert(0 < (0 + u) * d) by (nonlinear_arith)
        requires
            u > 0,
            d > 0,
    ;
    assert(rounding::nearest(0, 0, d));
    rounding::lemma_nearest_unique(0, 0, d);
}

/// The leading digits of a product.
proof fn lemma_product_leads(sa: nat, ka: int, ua: nat, sb: nat, kb: int, ub: nat)
    requires
        -52 <= ka,
        -52 <= kb,
        sa * rounding::p2(ka + BIAS) == ua * rounding::p2(BIAS as int),
        sb * rounding::p2(kb + BIAS) == ub * rounding::p2(BIAS as int),
    ensures
        rounding::leads(sa * sb, ka + kb - 1074, false, ua * ub, one()),
{
    let q = rounding::p2(BIAS as int);
    let (pa, pb) = (rounding::p2(ka + BIAS), rounding::p2(kb + BIAS));
    let w = rounding::p2(ka + kb - 1074 + BIAS);
    let v = rounding::p2(ka + kb + BIAS);
    rounding::lemma_p2_adds(ka + BIAS, kb + BIAS);
    rounding::lemma_p2_adds(ka + kb - 1074 + BIAS, 1074);
    rounding::lemma_p2_adds(ka + kb + BIAS, BIAS as int);
    assert(pa * pb == v * q);
    assert(w * one() == v);
    assert((sa * pa) * (sb * pb) == (sa * sb) * (pa * pb)) by (nonlinear_arith);
    assert((ua * q) * (ub * q) == ((ua * ub) * q) * q) by (nonlinear_arith);
    assert((sa * sb) * (v * q) == ((sa * sb) * v) * q) by (nonlinear_arith);
    let (x, y) = ((sa * sb) * v, (ua * ub) * q);
    assert(x == y) by (nonlinear_arith)
        requires
            x * q == y * q,
            q > 0,
    ;
}

/// The leading digits of a quotient.
proof fn lemma_quotient_leads(
    sa: nat,
    ka: int,
    ua: nat,
    sb: nat,
    kb: int,
    ub: nat,
    digits: nat,
    rem: nat,
)
    requires
        -52 <= ka <= 2045,
        -52 <= kb <= 2045,
        sb > 0,
        sa * rounding::p2(ka + BIAS) == ua * rounding::p2(BIAS as int),
        sb * rounding::p2(kb + BIAS) == ub * rounding::p2(BIAS as int),
        sa * 0x1_0000_0000_0000_0000 == digits * sb + rem,
        rem < sb,
    ensures
        rounding::leads(digits, ka - kb + 1010, rem > 0, ua * one(), ub),
{
    let q = rounding::p2(BIAS as int);
    let (pa, pb) = (rounding::p2(ka + BIAS), rounding::p2(kb + BIAS));
    let w = rounding::p2(ka - kb + 1010 + BIAS);
    let z = rounding::p2(ka + 1010 + BIAS);
    let two64 = rounding::p2(64);
    rounding::lemma_p2_adds(ka - kb + 1010 + BIAS, kb + BIAS);
    rounding::lemma_p2_adds(ka + 1010 + BIAS, BIAS as int);
    rounding::lemma_p2_adds(ka + BIAS, 1074);
    rounding::lemma_p2_adds(ka + 1010 + BIAS, 64);
    vstd::arithmetic::power2::lemma2_to64();
    // Counted with the weight `z` once the common factor is dropped.
    let zq = z * q;
    assert(w * pb == zq);
    assert(pa * one() == z * two64);
    let weight = w * ub;
    let n = (ua * one()) * q;
    assert(weight * q == sb * zq) by {
        assert((w * ub) * q == w * (ub * q)) by (nonlinear_arith);
        assert(w * (sb * pb) == sb * (w * pb)) by (nonlinear_arith);
    }
    assert(n * q == (sa * two64) * zq) by {
        assert(((ua * one()) * q) * q == ((ua * q) * one()) * q) by (nonlinear_arith);
        assert(((sa * pa) * one()) * q == sa * (pa * one()) * q) by (nonlinear_arith);
        assert(sa * (z * two64) * q == (sa * two64) * (z * q)) by (nonlinear_arith);
    }
    assert(zq > 0) by (nonlinear_arith)
        requires
            zq == z * q,
            z > 0,
            q > 0,
    ;
    assert((digits * weight) * q == (digits * sb) * zq) by {
        assert((digits * weight) * q == digits * (weight * q)) by (nonlinear_arith);
        assert(digits * (sb * zq) == (digits * sb) * zq) by (nonlinear_arith);
    }
    assert(((digits + 1) * weight) * q == (digits * sb + sb) * zq) by {
        assert(((digits + 1) * weight) * q == (digits + 1) * (weight * q)) by (nonlinear_arith);
        assert((digits + 1) * (sb * zq) == (digits * sb + sb) * zq) by (nonlinear_arith);
    }
    let (low, high) = (digits * weight, (digits + 1) * weight);
    if rem > 0 {
        assert(low < n) by (nonlinear_arith)
            requires
                low * q == (digits * sb) * zq,
                n * q == (sa * two64) * zq,
                digits * sb < sa * two64,
                zq > 0,
                q > 0,
        ;
        assert(n < high) by (nonlinear_arith)
            requires
                high * q == (digits * sb + sb) * zq,
                n * q == (sa * two64) * zq,
                sa * two64 < digits * sb + sb,
                zq > 0,
                q > 0,
        ;
    } else {
        assert(low == n) by (nonlinear_arith)
            requires
                low * q == (digits * sb) * zq,
                n * q == (sa * two64) * zq,
                digits * sb == sa * two64,
                q > 0,
        ;
    }
}

impl Binary64 {
    fn is_not_a_number(self) -> (b: bool)
        ensures
            b == self.is_nan(),
    {
        self.unsigned() > INFINITY
    }

    /// The product.
    pub fn times(self, other: Binary64) -> (r: Binary64)
        ensures
            r == self.product(other),
    {
        if self.is_not_a_number() || other.is_not_a_number() {
            return nan();
        }
        let negative = (self.bits >= SIGN) != (other.bits >= SIGN);
        let a = self.unsigned();
        let b = other.unsigned();
        if a == INFINITY || b == INFINITY {
            if a == 0 || b == 0 {
                return nan();
            }
            return with_sign(negative, INFINITY);
        }
        proof {
            rounding::lemma_p2_adds(1074, 0);
            binary64::lemma_units_order(0, 0);
        }
        if a == 0 || b == 0 {
            proof {
                lemma_rounded_zero(one());
                assert(size(self) * size(other) == 0) by (nonlinear_arith)
                    requires
                        size(self) == 0 || size(other) == 0,
                ;
            }
            return with_sign(negative, 0);
        }
        let (sa, ka) = unpack_normal(a);
        let (sb, kb) = unpack_normal(b);
        let ghost ua = size(self);
        let ghost ub = size(other);
        proof {
            lemma_product_leads(sa as nat, ka as int, ua, sb as nat, kb as int, ub);
            assert(sa * sb < 0x40_0000_0000_0000 * 0x40_0000_0000_0000) by (nonlinear_arith)
                requires
                    sa < 0x20_0000_0000_0000,
                    sb < 0x20_0000_0000_0000,
            ;
            rounding::lemma_p2_127();
        }
        let digits: u128 = sa as u128 * sb as u128;
        let m = rounding::round_to_nearest(
            digits,
            ka + kb - 1074,
            false,
            Ghost(ua * ub),
            Ghost(one()),
        );
        proof {
            rounding::lemma_nearest_unique(m as nat, ua * ub, one());
        }
        with_sign(negative, m)
    }

    /// The quotient.
    pub fn over(self, other: Binary64) -> (r: Binary64)
        ensures
            r == self.quotient(other),
    {
        if self.is_not_a_number() || other.is_not_a_number() {
            return nan();
        }
        let negative = (self.bits >= SIGN) != (other.bits >= SIGN);
        let a = self.unsigned();
        let b = other.unsigned();
        if a == INFINITY {
            if b == INFINITY {
                return nan();
            }
            return with_sign(negative, INFINITY);
        }
        if b == INFINITY {
            return with_sign(negative, 0);
        }
        if b == 0 {
            if a == 0 {
                return nan();
            }
            return with_sign(negative, INFINITY);
        }
        let ghost ua = size(self);
        let ghost ub = size(other);
        proof {
            binary64::lemma_units_order(0, b as nat);
        }
        if a == 0 {
            proof {
                lemma_rounded_zero(ub);
                assert(ua * one() == 0) by (nonlinear_arith)
                    requires
                        ua == 0,
                ;
            }
            return with_sign(negative, 0);
        }
        let (sa, ka) = unpack_normal(a);
        let (sb, kb) = unpack_normal(b);
        let dividend: u128 = sa as u128 * 0x1_0000_0000_0000_0000;
        let digits = dividend / sb as u128;
        let rem = dividend % sb as u128;
        proof {
            assert(dividend == digits * sb + rem && rem < sb) by {
                vstd::arithmetic::div_mod::lemma_fundamental_div_mod(dividend as int, sb as int);
                assert(sb as int * digits as int == digits * sb) by (nonlinear_arith);
            }
            lemma_quotient_leads(
                sa as nat,
                ka as int,
                ua,
                sb as nat,
                kb as int,
                ub,
                digits as nat,
                rem as nat,
            );
            rounding::lemma_p2_127();
            vstd::arithmetic::power2::lemma2_to64_rest();
            assert(digits >= 0x40_0000_0000_0000) by (nonlinear_arith)
                requires
                    dividend == digits * sb + rem,
                    rem < sb,
                    sb < 0x20_0000_0000_0000,
                    dividend >= 0x10_0000_0000_0000 * 0x1_0000_0000_0000_0000,
            ;
        }
        let m = rounding::round_to_nearest(
            digits,
            ka - kb + 1010,
            rem > 0,
            Ghost(ua * one()),
            Ghost(ub),
        );
        proof {
            rounding::lemma_nearest_unique(m as nat, ua * one(), ub);
        }
        with_sign(negative, m)
    }
}

/// The leading digits of a sum or a difference whose terms lie close together.
proof fn lemma_aligned_leads(sa: nat, ka: int, sb: nat, kb: int, subtract: bool)
    requires
        0 <= kb <= ka,
        subtract ==> sb * rounding::p2(kb) <= sa * rounding::p2(ka),
    ensures
        ({
            let (x, u, v) = (
                sa * rounding::p2(ka - kb),
                sa * rounding::p2(ka),
                sb * rounding::p2(kb),
            );
            &&& subtract ==> x >= sb
            &&& rounding::leads(
                if subtract {
                    (x - sb) as nat
                } else {
                    x + sb
                },
                kb,
                false,
                if subtract {
                    (u - v) as nat
                } else {
                    u + v
                },
                1,
            )
        }),
{
    let q = rounding::p2(BIAS as int);
    let p = rounding::p2(kb);
    let shift = rounding::p2(ka - kb);
    let (x, u, v) = (sa * shift, sa * rounding::p2(ka), sb * p);
    rounding::lemma_p2_adds(ka - kb, kb);
    rounding::lemma_p2_adds(kb, BIAS as int);
    assert(sa * (shift * p) == (sa * shift) * p) by (nonlinear_arith);
    assert(u == x * p);
    if subtract {
        assert(x >= sb) by (nonlinear_arith)
            requires
                sb * p <= x * p,
                p > 0,
        ;
        assert((x - sb) * (p * q) == (x * p - sb * p) * q) by (nonlinear_arith);
    } else {
        assert((x + sb) * (p * q) == (x * p + sb * p) * q) by (nonlinear_arith);
    }
}

/// The leading digits of a sum or a difference whose terms lie so far apart that the
/// smaller one only shows beyond them.
proof fn lemma_far_leads(sa: nat, ka: int, sb: nat, kb: int, subtract: bool)
    requires
        sa > 0,
        0 < sb < 2 * HIDDEN,
        0 <= kb,
        kb + 56 <= ka,
    ensures
        ({
            let (u, v) = (sa * rounding::p2(ka), sb * rounding::p2(kb));
            &&& v <= u
            &&& rounding::leads(
                if subtract {
                    (8 * sa - 1) as nat
                } else {
                    8 * sa
                },
                ka - 3,
                true,
                if subtract {
                    (u - v) as nat
                } else {
                    u + v
                },
                1,
            )
        }),
{
    let q = rounding::p2(BIAS as int);
    let (u, v) = (sa * rounding::p2(ka), sb * rounding::p2(kb));
    let w = rounding::p2(ka - 3 + BIAS);
    let pb = rounding::p2(kb + BIAS);
    rounding::lemma_p2_adds(ka, BIAS as int);
    rounding::lemma_p2_adds(kb, BIAS as int);
    rounding::lemma_p2_adds(ka - 3 + BIAS, 3);
    rounding::lemma_p2_adds(kb + BIAS, 53);
    vstd::arithmetic::power2::lemma2_to64();
    vstd::arithmetic::power2::lemma2_to64_rest();
    if kb + 53 < ka - 3 {
        vstd::arithmetic::power2::lemma_pow2_strictly_increases(
            (kb + 53 + BIAS) as nat,
            (ka - 3 + BIAS) as nat,
        );
    }
    assert(pb * 0x20_0000_0000_0000 <= w);
    assert(u * q == (8 * sa) * w) by {
        assert((sa * rounding::p2(ka)) * q == sa * (rounding::p2(ka) * q)) by (nonlinear_arith);
        assert(sa * (w * 8) == (8 * sa) * w) by (nonlinear_arith);
    }
    assert(v * q == sb * pb) by {
        assert((sb * rounding::p2(kb)) * q == sb * (rounding::p2(kb) * q)) by (nonlinear_arith);
    }
    assert(0 < sb * pb < w) by (nonlinear_arith)
        requires
            0 < sb < 0x20_0000_0000_0000,
            pb > 0,
            pb * 0x20_0000_0000_0000 <= w,
    ;
    assert((8 * sa) * w >= w) by (nonlinear_arith)
        requires
            sa > 0,
            w > 0,
    ;
    assert(v <= u) by (nonlinear_arith)
        requires
            v * q <= u * q,
            q > 0,
    ;
    if subtract {
        assert((8 * sa - 1) * w == (8 * sa) * w - w) by (nonlinear_arith);
        assert((u - v) * q == u * q - v * q) by (nonlinear_arith);
    } else {
        assert((8 * sa + 1) * w == (8 * sa) * w + w) by (nonlinear_arith);
        assert((u + v) * q == u * q + v * q) by (nonlinear_arith);
    }
}

/// The sum or the difference of two magnitudes, of which the first is not the smaller.
fn combine(a: u64, b: u64, subtract: bool) -> (m: u64)
    requires
        b <= a < INFINITY,
    ensures
        ({
            let (ua, ub) = (binary64::units(a as nat), binary64::units(b as nat));
            &&& subtract ==> ub <= ua
            &&& m <= INFINITY
            &&& m == rounding::rounded(
                if subtract {
                    (ua - ub) as nat
                } else {
                    ua + ub
                },
                1,
            )
        }),
{
    let (sa, ka) = unpack(a);
    let (sb, kb) = unpack(b);
    let ghost (ua, ub) = (binary64::units(a as nat), binary64::units(b as nat));
    let ghost n: nat = if subtract {
        (ua - ub) as nat
    } else {
        ua + ub
    };
    proof {
        binary64::lemma_units_order(b as nat, a as nat);
        assert(kb <= ka);
        rounding::lemma_p2_127();
        vstd::arithmetic::power2::lemma2_to64();
        vstd::arithmetic::power2::lemma2_to64_rest();
    }
    let far = ka - kb;
    let m: u64;
    if far <= 70 {
        let p = rounding::power_of_two(far as u32);
        proof {
            lemma_aligned_leads(sa as nat, ka as int, sb as nat, kb as int, subtract);
            rounding::lemma_p2_adds(64, 6);
            assert(0x1_0000_0000_0000_0000 * 0x40 == 0x40_0000_0000_0000_0000);
            assert(rounding::p2(70) == 0x40_0000_0000_0000_0000) by (nonlinear_arith)
                requires
                    rounding::p2(70) == rounding::p2(64) * rounding::p2(6),
                    rounding::p2(64) == 0x1_0000_0000_0000_0000,
                    rounding::p2(6) == 0x40,
            ;
            if far < 70 {
                vstd::arithmetic::power2::lemma_pow2_strictly_increases(far as nat, 70);
            }
            assert(sa * p <= 0x20_0000_0000_0000 * 0x40_0000_0000_0000_0000) by (nonlinear_arith)
                requires
                    sa <= 0x20_0000_0000_0000,
                    p <= 0x40_0000_0000_0000_0000,
            ;
        }
        let x: u128 = sa as u128 * p;
        let digits: u128 = if subtract {
            x - sb as u128
        } else {
            x + sb as u128
        };
        m = rounding::round_to_nearest(digits, kb, false, Ghost(n), Ghost(1nat));
    } else if sb == 0 {
        proof {
            assert(ub == 0) by (nonlinear_arith)
                requires
                    ub == sb * rounding::p2(kb as int),
                    sb == 0,
            ;
            lemma_aligned_leads(sa as nat, ka as int, 0, ka as int, false);
            assert(sa * rounding::p2(0) == sa) by (nonlinear_arith)
                requires
                    rounding::p2(0) == 1,
            ;
            assert(0 * rounding::p2(ka as int) == 0) by (nonlinear_arith);
        }
        m = rounding::round_to_nearest(sa as u128, ka, false, Ghost(n), Ghost(1nat));
    } else {
        proof {
            lemma_far_leads(sa as nat, ka as int, sb as nat, kb as int, subtract);
        }
        let digits: u128 = if subtract {
            8 * sa as u128 - 1
        } else {
            8 * sa as u128
        };
        m = rounding::round_to_nearest(digits, ka - 3, true, Ghost(n), Ghost(1nat));
    }
    proof {
        rounding::lemma_nearest_unique(m as nat, n, 1);
    }
    m
}

/// The magnitude nearest to an integer.
fn integer_magnitude(n: u64) -> (m: u64)
    ensures
        m <= INFINITY,
        m == rounding::rounded(n as nat * one(), 1),
{
    let ghost exact = n as nat * one();
    proof {
        rounding::lemma_p2_adds(1074, BIAS as int);
        let q = rounding::p2(BIAS as int);
        assert(n * ((one() * q) * 1) == (n as nat * one()) * q) by (nonlinear_arith);
        rounding::lemma_p2_127();
    }
    let m = rounding::round_to_nearest(n as u128, 1074, false, Ghost(exact), Ghost(1nat));
    proof {
        rounding::lemma_nearest_unique(m as nat, exact, 1);
    }
    m
}

impl Binary64 {
    /// The sum.
    pub fn plus(self, other: Binary64) -> (r: Binary64)
        ensures
            r == self.sum(other),
    {
        if self.is_not_a_number() || other.is_not_a_number() {
            return nan();
        }
        let a = self.unsigned();
        let b = other.unsigned();
        let a_negative = self.bits >= SIGN;
        let b_negative = other.bits >= SIGN;
        if a == INFINITY {
            if b == INFINITY && a_negative != b_negative {
                return nan();
            }
            return self;
        }
        if b == INFINITY {
            return other;
        }
        proof {
            binary64::lemma_units_order(a as nat, b as nat);
            binary64::lemma_units_order(a as nat, 0);
            binary64::lemma_units_order(b as nat, 0);
            lemma_rounded_zero(1);
        }
        let subtract = a_negative != b_negative;
        if a == b && subtract {
            return with_sign(false, 0);
        }
        if a >= b {
            let m = combine(a, b, subtract);
            with_sign(a_negative, m)
        } else {
            let m = combine(b, a, subtract);
            with_sign(b_negative, m)
        }
    }

    /// The number with the other sign.
    pub fn negate(self) -> (r: Binary64)
        ensures
            r == self.negated(),
    {
        if self.bits >= SIGN {
            Binary64 { bits: self.bits - SIGN }
        } else {
            Binary64 { bits: SIGN + self.bits }
        }
    }

    /// The difference.
    pub fn minus(self, other: Binary64) -> (r: Binary64)
        ensures
            r == self.difference(other),
    {
        self.plus(other.negate())
    }

    /// The number nearest to an integer.
    pub fn from_integer(n: u64) -> (r: Binary64)
        ensures
            r == Binary64::of(n),
    {
        with_sign(false, integer_magnitude(n))
    }
}

/// A common factor does not change the quotient of a division with remainder.
pub(crate) proof fn lemma_common_factor(a: nat, b: nat, c: nat)
    requires
        b > 0,
        c > 0,
    ensures
        b * c > 0,
        (a * c) / (b * c) == a / b,
{
    let (x, r) = (a as int / b as int, a as int % b as int);
    vstd::arithmetic::div_mod::lemma_fundamental_div_mod(a as int, b as int);
    assert(b * c > 0) by (nonlinear_arith)
        requires
            b > 0,
            c > 0,
    ;
    assert(a * c == x * (b * c) + r * c) by (nonlinear_arith)
        requires
            a == b * x + r,
    ;
    assert(0 <= r * c < b * c) by (nonlinear_arith)
        requires
            0 <= r < b,
            c > 0,
    ;
    vstd::arithmetic::div_mod::lemma_fundamental_div_mod_converse(
        (a * c) as int,
        (b * c) as int,
        x,
        r * c,
    );
}

/// The number one, counted from the weight of the last digit of a number.
proof fn lemma_one_at(k: int)
    requires
        0 <= k,
    ensures
        k <= 1074 ==> one() == rounding::p2(1074 - k) * rounding::p2(k),
        k >= 1074 ==> rounding::p2(k) == rounding::p2(k - 1074) * one(),
        one() > 0,
        rounding::p2(k) > 0,
{
    rounding::lemma_p2_adds(1074, 0);
    rounding::lemma_p2_adds(k, 0);
    if k <= 1074 {
        rounding::lemma_p2_adds(1074 - k, k);
    } else {
        rounding::lemma_p2_adds(k - 1074, 1074);
    }
}

/// A magnitude is the one that its own size is rounded to.
pub(crate) proof fn lemma_rounded_exact(m: nat)
    requires
        m <= INFINITY,
    ensures
        rounding::rounded(binary64::units(m), 1) == m,
{
    if m > 0 {
        binary64::lemma_units_increase((m - 1) as nat, m);
    }
    binary64::lemma_units_increase(m, m + 1);
    assert(rounding::nearest(m, binary64::units(m), 1));
    rounding::lemma_nearest_unique(m, binary64::units(m), 1);
}

impl Binary64 {
    /// The integer part, within the range of 64-bit integers.
    pub fn to_integer(self) -> (n: u64)
        ensures
            n == self.integer_part(),
    {
        if self.is_not_a_number() || self.bits >= SIGN {
            return 0;
        }
        let m = self.bits;
        proof {
            vstd::arithmetic::power2::lemma2_to64();
            vstd::arithmetic::power2::lemma2_to64_rest();
        }
        if m == INFINITY {
            proof {
                rounding::lemma_units_form(2046, HIDDEN as nat);
                lemma_large(HIDDEN as nat, 2046);
            }
            return u64::MAX;
        }
        let (s, k) = unpack(m);
        proof {
            lemma_one_at(k as int);
        }
        if k >= 1074 {
            proof {
                let p = rounding::p2(k - 1074);
                assert(s * (p * one()) == (s * p) * one()) by (nonlinear_arith);
                lemma_common_factor((s * p) as nat, 1, one());
                if k - 1074 >= 12 {
                    lemma_large(s as nat, k as int);
                }
            }
            if k - 1074 >= 12 {
                return u64::MAX;
            }
            let p = rounding::power_of_two((k - 1074) as u32);
            proof {
                if k - 1074 < 12 {
                    vstd::arithmetic::power2::lemma_pow2_strictly_increases(
                        (k - 1074) as nat,
                        12,
                    );
                }
                assert(s * p <= 0x20_0000_0000_0000 * 0x1000) by (nonlinear_arith)
                    requires
                        s <= 0x20_0000_0000_0000,
                        p <= 0x1000,
                ;
            }
            let n: u128 = s as u128 * p;
            if n > u64::MAX as u128 {
                u64::MAX
            } else {
                n as u64
            }
        } else {
            let j: i32 = 1074 - k;
            proof {
                rounding::lemma_p2_adds(j as int, 0);
                lemma_common_factor(s as nat, rounding::p2(j as int), rounding::p2(k as int));
            }
            if j >= 53 {
                proof {
                    if j > 53 {
                        vstd::arithmetic::power2::lemma_pow2_strictly_increases(53, j as nat);
                    }
                    vstd::arithmetic::div_mod::lemma_basic_div(
                        s as int,
                        rounding::p2(j as int) as int,
                    );
                }
                return 0;
            }
            let p = rounding::power_of_two(j as u32);
            proof {
                vstd::arithmetic::power2::lemma_pow2_strictly_increases(j as nat, 53);
            }
            s / (p as u64)
        }
    }
}

/// Numbers from two to the power of 64 on lie beyond the range of 64-bit integers.
proof fn lemma_large(s: nat, k: int)
    requires
        s >= HIDDEN,
        k >= 1086,
    ensures
        (s * rounding::p2(k)) / one() > u64::MAX,
{
    let p = rounding::p2(k - 1074);
    lemma_one_at(k);
    assert(s * (p * one()) == (s * p) * one()) by (nonlinear_arith);
    lemma_common_factor(s * p, 1, one());
    vstd::arithmetic::power2::lemma2_to64();
    if k > 1086 {
        vstd::arithmetic::power2::lemma_pow2_strictly_increases(12, (k - 1074) as nat);
    }
    assert(s * p >= 0x10_0000_0000_0000 * 0x1000) by (nonlinear_arith)
        requires
            s >= 0x10_0000_0000_0000,
            p >= 0x1000,
    ;
}

impl Binary64 {
    /// The nearest integer, and the one farther from zero of two that are equally near.
    pub fn round(self) -> (r: Binary64)
        ensures
            r == self.rounded_to_integer(),
    {
        if self.is_not_a_number() {
            return nan();
        }
        let m = self.unsigned();
        if m == INFINITY {
            return self;
        }
        let (s, k) = unpack(m);
        let ghost u = size(self);
        proof {
            lemma_one_at(k as int);
            vstd::arithmetic::power2::lemma2_to64();
            vstd::arithmetic::power2::lemma2_to64_rest();
        }
        if k >= 1074 {
            proof {
                let n = s as nat * rounding::p2(k - 1074);
                assert(s * (rounding::p2(k - 1074) * one()) == n * one()) by (nonlinear_arith)
                    requires
                        n == s as nat * rounding::p2(k - 1074),
                ;
                assert(2 * (n * one()) + one() == (2 * n + 1) * one()) by (nonlinear_arith);
                lemma_common_factor(2 * n + 1, 2, one());
                lemma_rounded_exact(m as nat);
            }
            return self;
        }
        let j: i32 = 1074 - k;
        let ghost half = rounding::p2(j as int);
        let ghost c = rounding::p2(k as int);
        proof {
            rounding::lemma_p2_adds(j as int, 0);
            assert(2 * (s * c) + half * c == (2 * s + half) * c) by (nonlinear_arith);
            assert(2 * (half * c) == (2 * half) * c) by (nonlinear_arith);
            lemma_common_factor((2 * s + half) as nat, 2 * half, c);
        }
        let n: u64 = if j > 60 {
            proof {
                vstd::arithmetic::power2::lemma_pow2_strictly_increases(60, j as nat);
                vstd::arithmetic::div_mod::lemma_basic_div(2 * s + half, 2 * half as int);
            }
            0
        } else {
            let p = rounding::power_of_two(j as u32) as u64;
            proof {
                if j < 60 {
                    vstd::arithmetic::power2::lemma_pow2_strictly_increases(j as nat, 60);
                }
            }
            (2 * s + p) / (2 * p)
        };
        with_sign(self.bits >= SIGN, integer_magnitude(n))
    }
}

/// What is no number stays so in every operation, and the operations that have no result give
/// none; what is divided by nothing or goes beyond the numbers is infinite.
pub proof fn law_operations_without_a_result(a: Binary64, b: Binary64)
    ensures
        a.is_nan() || b.is_nan() ==> a.sum(b).is_nan() && a.difference(b).is_nan() && a.product(
            b,
        ).is_nan() && a.quotient(b).is_nan(),
        a.magnitude() == 0 && b.magnitude() == 0 ==> a.quotient(b).is_nan(),
        a.magnitude() == INFINITY && b.magnitude() == INFINITY ==> a.quotient(b).is_nan()
            && a.product(b).magnitude() == INFINITY,
        a.magnitude() == INFINITY && b.magnitude() == 0 ==> a.product(b).is_nan()
            && a.quotient(b).magnitude() == INFINITY && a.sum(b) == a,
        0 < a.magnitude() < INFINITY && b.magnitude() == 0 ==> a.quotient(b).magnitude()
            == INFINITY,
        a.magnitude() < INFINITY && b.magnitude() == INFINITY ==> a.quotient(b).magnitude() == 0
            && a.sum(b) == b,
        a.magnitude() == INFINITY && b == a ==> a.sum(b) == a && a.difference(b).is_nan(),
{
}

/// The sign of a product or of a quotient is that of the two signs together.
pub proof fn law_signs_multiply(a: Binary64, b: Binary64)
    ensures
        !a.product(b).is_nan() ==> (a.product(b).is_negative() <==> (a.is_negative()
            <==> !b.is_negative())),
        !a.quotient(b).is_nan() ==> (a.quotient(b).is_negative() <==> (a.is_negative()
            <==> !b.is_negative())),
{
    let (u, v) = (size(a), size(b));
    crate::order::lemma_one_positive();
    crate::order::lemma_rounded_bounds(u * v, one(), 0);
    if !b.is_zero() {
        binary64::lemma_units_order(b.magnitude(), 0);
        crate::order::lemma_rounded_bounds(u * one(), v, 0);
    }
}

} // verus!
