//! Measured quantities as IEEE 754 binary64 numbers.
//!
//! A quantity is held as its bit pattern. Whether it lies in a range, which of two is
//! larger and where it is cut off depends only on the order of the numbers, and that
//! order is read off the bit patterns here. The operations on quantities stand in
//! [`crate::arithmetic`].

use vstd::prelude::*;

verus! {

/// A binary64 number, by its bit pattern: the sign in the top bit, then eleven bits
/// of exponent and fifty-two bits of fraction.
#[derive(Debug, Clone, Copy, PartialEq, Eq, Structural)]
pub struct Binary64 {
    pub bits: u64,
}

/// The weight of the sign bit.
pub const SIGN: u64 = 0x8000_0000_0000_0000;

/// The bit pattern of positive infinity. Larger magnitudes are not numbers.
pub const INFINITY: u64 = 0x7ff0_0000_0000_0000;

/// The weight of the lowest exponent bit, which is also the leading digit that a
/// normal number has in front of its fraction.
pub const HIDDEN: u64 = 0x10_0000_0000_0000;

/// The bit pattern of 0.
pub const ZERO: u64 = 0;

/// The bit pattern of 0.5.
pub const ONE_HALF: u64 = 0x3fe0_0000_0000_0000;

/// The bit pattern of the number nearest to 0.99.
pub const NINETY_NINE_HUNDREDTHS: u64 = 0x3fef_ae14_7ae1_47ae;

/// The bit pattern of 1.
pub const ONE: u64 = 0x3ff0_0000_0000_0000;

/// The bit pattern of 100.
pub const ONE_HUNDRED: u64 = 0x4059_0000_0000_0000;

/// The exact size of a number without its sign, counted in units of the smallest
/// positive number (two to the power of -1074). The magnitude of infinity counts as
/// more than that of any number.
#[verifier::opaque]
pub open spec fn units(magnitude: nat) -> nat {
    let exponent = magnitude / (HIDDEN as nat);
    let fraction = magnitude % (HIDDEN as nat);
    if exponent == 0 {
        fraction
    } else {
        (HIDDEN + fraction) as nat * vstd::arithmetic::power2::pow2((exponent - 1) as nat)
    }
}

impl Binary64 {
    pub open spec fn is_negative(self) -> bool {
        self.bits >= SIGN
    }

    pub open spec fn magnitude(self) -> nat {
        if self.bits >= SIGN {
            (self.bits - SIGN) as nat
        } else {
            self.bits as nat
        }
    }

    /// Whether the pattern stands for no number at all.
    pub open spec fn is_nan(self) -> bool {
        self.magnitude() > INFINITY
    }

    /// The exact number, counted in units of the smallest positive one. Both zeros
    /// count 0.
    pub open spec fn number(self) -> int {
        if self.is_negative() {
            -(units(self.magnitude()) as int)
        } else {
            units(self.magnitude()) as int
        }
    }

    /// Both are numbers, and the first is smaller.
    pub open spec fn lt(self, other: Binary64) -> bool {
        !self.is_nan() && !other.is_nan() && self.number() < other.number()
    }

    /// Both are numbers, and the first is not larger.
    pub open spec fn le(self, other: Binary64) -> bool {
        !self.is_nan() && !other.is_nan() && self.number() <= other.number()
    }

    /// `floor` in place of what is smaller or is no number.
    pub open spec fn floored(self, floor: Binary64) -> Binary64 {
        if self.is_nan() || self.lt(floor) {
            floor
        } else {
            self
        }
    }

    /// `cap` in place of what is larger or is no number.
    pub open spec fn capped(self, cap: Binary64) -> Binary64 {
        if self.is_nan() || cap.lt(self) {
            cap
        } else {
            self
        }
    }

    /// The nearer end of the range in place of what lies outside of it. What is no
    /// number stays as it is.
    pub open spec fn clamped(self, low: Binary64, high: Binary64) -> Binary64 {
        if self.lt(low) {
            low
        } else if high.lt(self) {
            high
        } else {
            self
        }
    }
}

/// Larger magnitudes are larger numbers.
pub(crate) proof fn lemma_units_increase(m: nat, n: nat)
    requires
        m < n,
    ensures
        units(m) < units(n),
{
    broadcast use vstd::arithmetic::power2::lemma_pow2_pos;

    reveal(units);

    let h = HIDDEN as nat;
    let (me, mf) = (m / h, m % h);
    let (ne, nf) = (n / h, n % h);
    assert(m == h * me + mf && n == h * ne + nf && mf < h && nf < h);
    assert(me <= ne);
    if me == ne {
        assert(mf < nf);
        if me > 0 {
            let p = vstd::arithmetic::power2::pow2((me - 1) as nat);
            assert((h + mf) * p < (h + nf) * p) by (nonlinear_arith)
                requires
                    mf < nf,
                    p > 0,
            ;
        }
    } else {
        let q = vstd::arithmetic::power2::pow2((ne - 1) as nat);
        assert(h * q <= (h + nf) * q) by (nonlinear_arith)
            requires
                q > 0,
                nf >= 0,
        ;
        if me == 0 {
            assert(h <= h * q) by (nonlinear_arith)
                requires
                    q > 0,
                    h > 0,
            ;
        } else {
            let p = vstd::arithmetic::power2::pow2((me - 1) as nat);
            vstd::arithmetic::power2::lemma_pow2_unfold(me);
            if me < ne - 1 {
                vstd::arithmetic::power2::lemma_pow2_strictly_increases(me, (ne - 1) as nat);
            }
            assert((h + mf) * p < h * q) by (nonlinear_arith)
                requires
                    mf < h,
                    p > 0,
                    2 * p <= q,
                    h > 0,
            ;
        }
    }
}

/// The order of magnitudes is the order of the numbers they stand for.
pub(crate) proof fn lemma_units_order(m: nat, n: nat)
    ensures
        m < n <==> units(m) < units(n),
        m == n <==> units(m) == units(n),
        units(0) == 0,
{
    assert(units(0) == 0) by {
        reveal(units);
    }
    if m < n {
        lemma_units_increase(m, n);
    }
    if n < m {
        lemma_units_increase(n, m);
    }
}

impl Binary64 {
    /// The pattern without its sign.
    pub(crate) fn unsigned(self) -> (m: u64)
        ensures
            m == self.magnitude(),
    {
        if self.bits >= SIGN {
            self.bits - SIGN
        } else {
            self.bits
        }
    }

    /// Whether `self` is smaller than `other`; nothing is smaller or larger than what
    /// is no number.
    pub fn less(self, other: Binary64) -> (b: bool)
        ensures
            b == self.lt(other),
    {
        let a = self.unsigned();
        let b = other.unsigned();
        proof {
            lemma_units_order(a as nat, b as nat);
            lemma_units_order(a as nat, 0);
            lemma_units_order(b as nat, 0);
        }
        if a > INFINITY || b > INFINITY {
            false
        } else if self.bits >= SIGN {
            if other.bits >= SIGN {
                a > b
            } else {
                a > 0 || b > 0
            }
        } else {
            if other.bits >= SIGN {
                false
            } else {
                a < b
            }
        }
    }

    /// Whether `self` is at least `other`.
    pub fn at_least(self, other: Binary64) -> (b: bool)
        ensures
            b == other.le(self),
    {
        self.unsigned() <= INFINITY && other.unsigned() <= INFINITY && !self.less(other)
    }

    /// Whether `self` lies between `low` and `high`, both included.
    pub fn within(self, low: Binary64, high: Binary64) -> (b: bool)
        ensures
            b == (low.le(self) && self.le(high)),
    {
        self.at_least(low) && high.at_least(self)
    }

    /// Replaces what is smaller than `floor`, or is no number, by `floor`.
    pub fn floor_at(self, floor: Binary64) -> (r: Binary64)
        ensures
            r == self.floored(floor),
    {
        if self.unsigned() > INFINITY || self.less(floor) {
            floor
        } else {
            self
        }
    }

    /// Replaces what is larger than `cap`, or is no number, by `cap`.
    pub fn cap_at(self, cap: Binary64) -> (r: Binary64)
        ensures
            r == self.capped(cap),
    {
        if self.unsigned() > INFINITY || cap.less(self) {
            cap
        } else {
            self
        }
    }

    /// Replaces what lies outside the range by its nearer end.
    pub fn clamp_to(self, low: Binary64, high: Binary64) -> (r: Binary64)
        ensures
            r == self.clamped(low, high),
    {
        if self.less(low) {
            low
        } else if high.less(self) {
            high
        } else {
            self
        }
    }
}

/// How many units make one.
pub open spec fn one_in_units() -> nat {
    vstd::arithmetic::power2::pow2(1074)
}

/// The named patterns stand for the numbers they are named after; that for 0.99, which
/// binary64 cannot hold, differs from it by at most half the distance to the next number.
pub proof fn law_named_numbers()
    ensures
        (Binary64 { bits: ZERO }).number() == 0,
        2 * (Binary64 { bits: ONE_HALF }).number() == one_in_units(),
        (Binary64 { bits: ONE }).number() == one_in_units(),
        (Binary64 { bits: ONE_HUNDRED }).number() == 100 * one_in_units(),
        ({
            let n = (Binary64 { bits: NINETY_NINE_HUNDREDTHS }).number();
            let next = (Binary64 { bits: (NINETY_NINE_HUNDREDTHS + 1) as u64 }).number();
            let error = 100 * n - 99 * one_in_units();
            -100 * (next - n) <= 2 * error <= 100 * (next - n)
        }),
{
    reveal(units);
    vstd::arithmetic::power2::lemma2_to64_rest();
    vstd::arithmetic::power2::lemma2_to64();
    let p = vstd::arithmetic::power2::pow2(1021);
    vstd::arithmetic::power2::lemma_pow2_pos(1021);
    vstd::arithmetic::power2::lemma_pow2_adds(1021, 1);
    vstd::arithmetic::power2::lemma_pow2_adds(1021, 7);
    vstd::arithmetic::power2::lemma_pow2_adds(1021, 53);
    assert(vstd::arithmetic::power2::pow2(1022) == 2 * p);
    assert(vstd::arithmetic::power2::pow2(1028) == 0x80 * p);
    assert(one_in_units() == 0x20_0000_0000_0000 * p);
    assert(ONE_HALF as nat / HIDDEN as nat == 1022 && ONE_HALF as nat % HIDDEN as nat == 0);
    assert(units(ONE_HALF as nat) == HIDDEN * p);
    assert(ONE as nat / HIDDEN as nat == 1023 && ONE as nat % HIDDEN as nat == 0);
    assert(units(ONE as nat) == HIDDEN * (2 * p));
    assert(ONE_HUNDRED as nat / HIDDEN as nat == 1029);
    assert(ONE_HUNDRED as nat % HIDDEN as nat == 0x9_0000_0000_0000);
    assert(units(ONE_HUNDRED as nat) == 0x19_0000_0000_0000 * (0x80 * p));
    let near = NINETY_NINE_HUNDREDTHS as nat;
    assert(near / HIDDEN as nat == 1022 && near % HIDDEN as nat == 0xf_ae14_7ae1_47ae);
    assert(units(near) == 0x1f_ae14_7ae1_47ae * p);
    assert((near + 1) / HIDDEN as nat == 1022 && (near + 1) % HIDDEN as nat == 0xf_ae14_7ae1_47af);
    assert(units(near + 1) == 0x1f_ae14_7ae1_47af * p);
}

/// The numbers are ordered one way: of two that are numbers, one is smaller or they are
/// equal.
pub proof fn law_order_is_total(a: Binary64, b: Binary64)
    requires
        !a.is_nan(),
        !b.is_nan(),
    ensures
        a.lt(b) || b.lt(a) || a.number() == b.number(),
        a.le(b) <==> !b.lt(a),
        a.number() == b.number() ==> a == b || (a.number() == 0 && b.number() == 0),
{
    lemma_units_order(a.magnitude(), b.magnitude());
    lemma_units_order(a.magnitude(), 0);
    lemma_units_order(b.magnitude(), 0);
}

/// A number that is cut off at both ends of a range lies in it.
pub proof fn law_clamped_lies_in_range(x: Binary64, low: Binary64, high: Binary64)
    requires
        !x.is_nan(),
        low.le(high),
    ensures
        low.le(x.clamped(low, high)),
        x.clamped(low, high).le(high),
        low.le(x) && x.le(high) ==> x.clamped(low, high) == x,
{
}

/// Whatever is cut off at a number from below is a number, and not below it.
pub proof fn law_floored_is_not_below(x: Binary64, floor: Binary64)
    requires
        !floor.is_nan(),
    ensures
        floor.le(x.floored(floor)),
{
}

/// Whatever is cut off at a number from above is a number, and not above it.
pub proof fn law_capped_is_not_above(x: Binary64, cap: Binary64)
    requires
        !cap.is_nan(),
    ensures
        x.capped(cap).le(cap),
{
}

/// What is cut off from below is the larger of the two numbers.
pub proof fn law_floored_is_the_larger(x: Binary64, floor: Binary64)
    requires
        !floor.is_nan(),
    ensures
        x.floored(floor) == x || x.floored(floor) == floor,
        !x.is_nan() ==> x.le(x.floored(floor)) && floor.le(x.floored(floor)),
        x.is_nan() ==> x.floored(floor) == floor,
        x.floored(floor) == floor ==> x.is_nan() || x.le(floor),
{
}

/// What is cut off from above is the smaller of the two numbers.
pub proof fn law_capped_is_the_smaller(x: Binary64, cap: Binary64)
    requires
        !cap.is_nan(),
    ensures
        x.capped(cap) == x || x.capped(cap) == cap,
        !x.is_nan() ==> x.capped(cap).le(x) && x.capped(cap).le(cap),
        x.is_nan() ==> x.capped(cap) == cap,
        x.capped(cap) == cap ==> x.is_nan() || cap.le(x),
{
}

/// What is cut off at both ends and lies outside of the range becomes the end that is nearer,
/// and what is no number stays so.
pub proof fn law_clamped_is_the_nearer_end(x: Binary64, low: Binary64, high: Binary64)
    requires
        low.le(high),
    ensures
        x.lt(low) ==> x.clamped(low, high) == low,
        high.lt(x) ==> x.clamped(low, high) == high,
        x.is_nan() ==> x.clamped(low, high) == x,
{
}

/// A comparison is one of the numbers that the patterns stand for: it holds of no pattern that
/// stands for none.
pub proof fn law_comparisons_are_of_numbers(a: Binary64, b: Binary64)
    ensures
        a.lt(b) <==> !a.is_nan() && !b.is_nan() && b.number() - a.number() > 0,
        a.le(b) <==> !a.is_nan() && !b.is_nan() && b.number() - a.number() >= 0,
        a.is_nan() <==> a.magnitude() > INFINITY,
{
}

} // verus!
