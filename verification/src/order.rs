//! How arithmetic keeps the order of numbers.
//!
//! Rounding never swaps two results, and it leaves a result that is a number as it is. So
//! what holds of exact arithmetic as to order holds of the rounded one as well.

use vstd::prelude::*;
use crate::arithmetic;
use crate::binary64;
use crate::binary64::{Binary64, INFINITY};
use crate::rounding;

verus! {

// ---------------------------------------------------------------------------
// Rounding
// ---------------------------------------------------------------------------
/// From a magnitude that is not too large on, there is the last one that is not.
proof fn lemma_floor_exists(m: nat, n: nat, d: nat) -> (f: nat)
    requires
        m <= INFINITY,
        binary64::units(m) * d <= n,
    ensures
        m <= f <= INFINITY,
        binary64::units(f) * d <= n,
        f < INFINITY ==> n < binary64::units(f + 1) * d,
    decreases INFINITY - m,
{
    if m < INFINITY && binary64::units(m + 1) * d <= n {
        lemma_floor_exists(m + 1, n, d)
    } else {
        m
    }
}

/// There is a nearest magnitude to every fraction.
pub proof fn lemma_rounded_is_nearest(n: nat, d: nat)
    requires
        d > 0,
    ensures
        rounding::nearest(rounding::rounded(n, d), n, d),
{
    binary64::lemma_units_order(0, 1);
    assert(0 * d <= n) by (nonlinear_arith);
    let f = lemma_floor_exists(0, n, d);
    let middle = (binary64::units(f) + binary64::units(f + 1)) * d;
    if f == INFINITY {
        let u = binary64::units(f);
        let v = binary64::units((f - 1) as nat);
        binary64::lemma_units_increase((f - 1) as nat, f);
        assert((v + u) * d < 2 * n) by (nonlinear_arith)
            requires
                v < u,
                u * d <= n,
                d > 0,
        ;
        assert(rounding::nearest(f, n, d));
    } else if 2 * n < middle || (2 * n == middle && f % 2 == 0) {
        rounding::lemma_round_between(f, n, d, false);
        assert(rounding::nearest(f, n, d));
    } else {
        rounding::lemma_round_between(f, n, d, true);
        assert(rounding::nearest(f + 1, n, d));
    }
}

/// A larger fraction is not rounded to a smaller magnitude.
pub proof fn lemma_rounded_monotone(n1: nat, d1: nat, n2: nat, d2: nat)
    requires
        d1 > 0,
        d2 > 0,
        n1 * d2 <= n2 * d1,
    ensures
        rounding::rounded(n1, d1) <= rounding::rounded(n2, d2) <= INFINITY,
{
    lemma_rounded_is_nearest(n1, d1);
    lemma_rounded_is_nearest(n2, d2);
    rounding::lemma_nearest_monotone(
        rounding::rounded(n1, d1),
        n1,
        d1,
        rounding::rounded(n2, d2),
        n2,
        d2,
    );
}

/// A fraction that is not below a number is not rounded to below it, and one that is not
/// above it is not rounded to above it.
pub proof fn lemma_rounded_bounds(n: nat, d: nat, m: nat)
    requires
        d > 0,
        m <= INFINITY,
    ensures
        binary64::units(m) * d <= n ==> m <= rounding::rounded(n, d),
        n <= binary64::units(m) * d ==> rounding::rounded(n, d) <= m,
        rounding::rounded(n, d) <= INFINITY,
{
    let u = binary64::units(m);
    arithmetic::lemma_rounded_exact(m);
    lemma_rounded_is_nearest(n, d);
    assert(u * d <= n ==> u * d <= n * 1);
    if u * d <= n {
        lemma_rounded_monotone(u, 1, n, d);
    }
    if n <= u * d {
        lemma_rounded_monotone(n, d, u, 1);
    }
}

// ---------------------------------------------------------------------------
// Sums
// ---------------------------------------------------------------------------
pub open spec fn finite(a: Binary64) -> bool {
    a.magnitude() < INFINITY
}

/// The number to which an exact one is rounded.
pub open spec fn rounded_number(exact: int) -> int {
    if exact >= 0 {
        binary64::units(rounding::rounded(exact as nat, 1)) as int
    } else {
        -(binary64::units(rounding::rounded((-exact) as nat, 1)) as int)
    }
}

/// A sum is the exact one, rounded.
pub proof fn lemma_sum_number(a: Binary64, b: Binary64)
    requires
        finite(a),
        finite(b),
    ensures
        !a.sum(b).is_nan(),
        a.sum(b).number() == rounded_number(a.number() + b.number()),
{
    let exact = a.number() + b.number();
    arithmetic::lemma_rounded_zero(1);
    binary64::lemma_units_order(0, 0);
    if exact >= 0 {
        lemma_rounded_is_nearest(exact as nat, 1);
    } else {
        lemma_rounded_is_nearest((-exact) as nat, 1);
    }
}

pub proof fn lemma_units_monotone(m: nat, n: nat)
    requires
        m <= n,
    ensures
        binary64::units(m) <= binary64::units(n),
{
    if m < n {
        binary64::lemma_units_increase(m, n);
    }
}

pub proof fn lemma_rounded_number_monotone(x: int, y: int)
    requires
        x <= y,
    ensures
        rounded_number(x) <= rounded_number(y),
{
    if x >= 0 {
        lemma_rounded_monotone(x as nat, 1, y as nat, 1);
        lemma_units_monotone(
            rounding::rounded(x as nat, 1),
            rounding::rounded(y as nat, 1),
        );
    } else if y < 0 {
        lemma_rounded_monotone((-y) as nat, 1, (-x) as nat, 1);
        lemma_units_monotone(
            rounding::rounded((-y) as nat, 1),
            rounding::rounded((-x) as nat, 1),
        );
    }
}

/// Numbers are not changed by rounding.
pub proof fn lemma_rounded_number_exact(a: Binary64)
    requires
        !a.is_nan(),
    ensures
        rounded_number(a.number()) == a.number(),
{
    arithmetic::lemma_rounded_exact(a.magnitude());
    arithmetic::lemma_rounded_zero(1);
    binary64::lemma_units_order(a.magnitude(), 0);
}

/// What lies below infinity is finite.
pub proof fn lemma_finite(a: Binary64, b: Binary64)
    requires
        !a.is_nan(),
        finite(b),
        -b.number() <= a.number() <= b.number(),
    ensures
        finite(a),
{
    binary64::lemma_units_order(a.magnitude(), b.magnitude());
    binary64::lemma_units_order(a.magnitude(), 0);
}

/// Adding a finite number keeps the order.
pub proof fn lemma_sum_monotone(a: Binary64, b: Binary64, c: Binary64)
    requires
        a.le(b),
        finite(c),
    ensures
        a.sum(c).le(b.sum(c)),
        c.sum(a).le(c.sum(b)),
{
    binary64::lemma_units_order(a.magnitude(), INFINITY as nat);
    binary64::lemma_units_order(b.magnitude(), INFINITY as nat);
    binary64::lemma_units_order(0, INFINITY as nat);
    if finite(a) {
        lemma_sum_number(a, c);
        lemma_sum_number(c, a);
        lemma_sum_in_range(a.sum(c));
        lemma_sum_in_range(c.sum(a));
    }
    if finite(b) {
        lemma_sum_number(b, c);
        lemma_sum_number(c, b);
        lemma_sum_in_range(b.sum(c));
        lemma_sum_in_range(c.sum(b));
    }
    if finite(a) && finite(b) {
        lemma_rounded_number_monotone(a.number() + c.number(), b.number() + c.number());
    }
}

/// No number lies beyond the infinities.
pub proof fn lemma_sum_in_range(a: Binary64)
    requires
        !a.is_nan(),
    ensures
        -(binary64::units(INFINITY as nat) as int) <= a.number() <= binary64::units(
            INFINITY as nat,
        ),
{
    lemma_units_monotone(a.magnitude(), INFINITY as nat);
}

/// Negating turns the order around.
pub proof fn lemma_negated(a: Binary64)
    requires
        !a.is_nan(),
    ensures
        !a.negated().is_nan(),
        a.negated().number() == -a.number(),
        a.negated().magnitude() == a.magnitude(),
{
}

/// Subtracting from a finite number turns the order around.
pub proof fn lemma_difference_antitone(c: Binary64, a: Binary64, b: Binary64)
    requires
        a.le(b),
        finite(c),
    ensures
        c.difference(b).le(c.difference(a)),
{
    lemma_negated(a);
    lemma_negated(b);
    lemma_sum_monotone(b.negated(), a.negated(), c);
}

/// Subtracting a finite number keeps the order.
pub proof fn lemma_difference_monotone(a: Binary64, b: Binary64, c: Binary64)
    requires
        a.le(b),
        finite(c),
    ensures
        a.difference(c).le(b.difference(c)),
{
    lemma_negated(c);
    lemma_sum_monotone(a, b, c.negated());
}

// ---------------------------------------------------------------------------
// Products and quotients of what is not negative
// ---------------------------------------------------------------------------
/// The number is 0 or above.
pub open spec fn non_negative(a: Binary64) -> bool {
    !a.is_nan() && a.number() >= 0
}

/// Where a number is not negative, it is its size.
pub proof fn lemma_non_negative(a: Binary64)
    requires
        non_negative(a),
    ensures
        a.number() == arithmetic::size(a),
{
    binary64::lemma_units_order(a.magnitude(), 0);
}

/// A product of two numbers that are not negative is the exact one, rounded.
pub proof fn lemma_product_number(a: Binary64, b: Binary64)
    requires
        non_negative(a),
        non_negative(b),
        finite(a),
        finite(b),
    ensures
        non_negative(a.product(b)),
        a.product(b).number() == binary64::units(
            rounding::rounded(
                arithmetic::size(a) * arithmetic::size(b),
                arithmetic::one(),
            ),
        ),
{
    let (ua, ub) = (arithmetic::size(a), arithmetic::size(b));
    lemma_one_positive();
    lemma_rounded_is_nearest(ua * ub, arithmetic::one());
    binary64::lemma_units_order(a.magnitude(), 0);
    binary64::lemma_units_order(b.magnitude(), 0);
    if a.is_negative() || b.is_negative() {
        assert(ua * ub == 0) by (nonlinear_arith)
            requires
                ua == 0 || ub == 0,
        ;
        arithmetic::lemma_rounded_zero(arithmetic::one());
    }
}

pub proof fn lemma_one_positive()
    ensures
        arithmetic::one() > 0,
{
    vstd::arithmetic::power2::lemma_pow2_pos(1074);
}

/// A quotient of two numbers that are not negative is the exact one, rounded.
pub proof fn lemma_quotient_number(a: Binary64, b: Binary64)
    requires
        non_negative(a),
        finite(a),
        finite(b),
        b.number() > 0,
    ensures
        non_negative(a.quotient(b)),
        a.quotient(b).number() == binary64::units(
            rounding::rounded(
                arithmetic::size(a) * arithmetic::one(),
                arithmetic::size(b),
            ),
        ),
{
    let (ua, ub) = (arithmetic::size(a), arithmetic::size(b));
    binary64::lemma_units_order(a.magnitude(), 0);
    binary64::lemma_units_order(b.magnitude(), 0);
    lemma_rounded_is_nearest(ua * arithmetic::one(), ub);
    if a.is_negative() {
        assert(ua * arithmetic::one() == 0) by (nonlinear_arith)
            requires
                ua == 0,
        ;
        arithmetic::lemma_rounded_zero(ub);
    }
}

/// Multiplying by a number that is not negative keeps the order.
pub proof fn lemma_product_monotone(a: Binary64, b: Binary64, c: Binary64)
    requires
        non_negative(a),
        a.le(b),
        non_negative(c),
        finite(b),
        finite(c),
    ensures
        a.product(c).le(b.product(c)),
        c.product(a).le(c.product(b)),
{
    lemma_finite(a, b);
    lemma_non_negative(a);
    lemma_non_negative(b);
    let (ua, ub, uc) = (arithmetic::size(a), arithmetic::size(b), arithmetic::size(c));
    let one = arithmetic::one();
    lemma_one_positive();
    assert((ua * uc) * one <= (ub * uc) * one) by (nonlinear_arith)
        requires
            ua <= ub,
    ;
    assert(ua * uc == uc * ua && ub * uc == uc * ub) by (nonlinear_arith);
    lemma_rounded_monotone(ua * uc, one, ub * uc, one);
    lemma_units_monotone(rounding::rounded(ua * uc, one), rounding::rounded(ub * uc, one));
    lemma_product_number(a, c);
    lemma_product_number(b, c);
    lemma_product_number(c, a);
    lemma_product_number(c, b);
}

/// Dividing by a positive number keeps the order.
pub proof fn lemma_quotient_monotone(a: Binary64, b: Binary64, c: Binary64)
    requires
        non_negative(a),
        a.le(b),
        finite(b),
        finite(c),
        c.number() > 0,
    ensures
        a.quotient(c).le(b.quotient(c)),
{
    lemma_finite(a, b);
    lemma_non_negative(a);
    lemma_non_negative(b);
    lemma_non_negative(c);
    let (ua, ub, uc) = (arithmetic::size(a), arithmetic::size(b), arithmetic::size(c));
    let one = arithmetic::one();
    assert((ua * one) * uc <= (ub * one) * uc) by (nonlinear_arith)
        requires
            ua <= ub,
    ;
    lemma_rounded_monotone(ua * one, uc, ub * one, uc);
    lemma_units_monotone(rounding::rounded(ua * one, uc), rounding::rounded(ub * one, uc));
    lemma_quotient_number(a, c);
    lemma_quotient_number(b, c);
}

/// Dividing by a larger number gives no larger quotient.
pub proof fn lemma_quotient_antitone(c: Binary64, a: Binary64, b: Binary64)
    requires
        non_negative(c),
        finite(c),
        a.number() > 0,
        a.le(b),
        finite(b),
    ensures
        c.quotient(b).le(c.quotient(a)),
{
    lemma_finite(a, b);
    lemma_non_negative(a);
    lemma_non_negative(b);
    lemma_non_negative(c);
    let (ua, ub, uc) = (arithmetic::size(a), arithmetic::size(b), arithmetic::size(c));
    let n = uc * arithmetic::one();
    assert(n * ua <= n * ub) by (nonlinear_arith)
        requires
            ua <= ub,
    ;
    lemma_rounded_monotone(n, ub, n, ua);
    lemma_units_monotone(rounding::rounded(n, ub), rounding::rounded(n, ua));
    lemma_quotient_number(c, a);
    lemma_quotient_number(c, b);
}

/// A fraction of two numbers, the first of which is not above the second, is not above one.
pub proof fn lemma_quotient_at_most_one(a: Binary64, b: Binary64)
    requires
        non_negative(a),
        a.le(b),
        finite(b),
        b.number() > 0,
    ensures
        a.quotient(b).le(Binary64 { bits: binary64::ONE }),
        non_negative(a.quotient(b)),
{
    lemma_finite(a, b);
    lemma_non_negative(a);
    lemma_non_negative(b);
    let (ua, ub) = (arithmetic::size(a), arithmetic::size(b));
    let one = arithmetic::one();
    binary64::law_named_numbers();
    lemma_quotient_number(a, b);
    assert(ua * one <= one * ub) by (nonlinear_arith)
        requires
            ua <= ub,
    ;
    lemma_rounded_bounds(ua * one, ub, binary64::ONE as nat);
    lemma_units_monotone(rounding::rounded(ua * one, ub), binary64::ONE as nat);
}

/// A fraction of two numbers, the first of which is not below the second, is not below one.
pub proof fn lemma_quotient_at_least_one(a: Binary64, b: Binary64)
    requires
        b.le(a),
        finite(a),
        b.number() > 0,
    ensures
        (Binary64 { bits: binary64::ONE }).le(a.quotient(b)),
{
    lemma_finite(b, a);
    lemma_non_negative(a);
    lemma_non_negative(b);
    let (ua, ub) = (arithmetic::size(a), arithmetic::size(b));
    let one = arithmetic::one();
    binary64::law_named_numbers();
    lemma_quotient_number(a, b);
    assert(one * ub <= ua * one) by (nonlinear_arith)
        requires
            ub <= ua,
    ;
    lemma_rounded_bounds(ua * one, ub, binary64::ONE as nat);
    lemma_units_monotone(binary64::ONE as nat, rounding::rounded(ua * one, ub));
}

// ---------------------------------------------------------------------------
// Integers
// ---------------------------------------------------------------------------
/// An integer is rounded to a magnitude up to that of two to the power of 64.
proof fn lemma_of_below(n: u64) -> (top: nat)
    ensures
        top < INFINITY,
        binary64::units(top) == 0x1_0000_0000_0000_0000 * arithmetic::one(),
        rounding::rounded(n as nat * arithmetic::one(), 1) <= top,
{
    let one = arithmetic::one();
    let exact = n as nat * one;
    let top = (1086 * binary64::HIDDEN + binary64::HIDDEN) as nat;
    rounding::lemma_units_form(1086, binary64::HIDDEN as nat);
    vstd::arithmetic::power2::lemma2_to64();
    rounding::lemma_p2_adds(1074, 12);
    let p = rounding::p2(1086);
    assert(binary64::HIDDEN * p == 0x1_0000_0000_0000_0000 * one) by (nonlinear_arith)
        requires
            p == one * 0x1000,
            binary64::HIDDEN == 0x10_0000_0000_0000,
    ;
    assert(exact <= 0x1_0000_0000_0000_0000 * one) by (nonlinear_arith)
        requires
            exact == n as nat * one,
            n <= 0x1_0000_0000_0000_0000,
    ;
    lemma_rounded_bounds(exact, 1, top);
    top
}

/// Integers become finite numbers, and positive ones become numbers from one on.
pub proof fn lemma_of(n: u64)
    ensures
        finite(Binary64::of(n)),
        non_negative(Binary64::of(n)),
        Binary64::of(n).number() == binary64::units(
            rounding::rounded(n as nat * arithmetic::one(), 1),
        ),
        n == 0 ==> Binary64::of(n) == (Binary64 { bits: binary64::ZERO }),
        n > 0 ==> (Binary64 { bits: binary64::ONE }).le(Binary64::of(n)),
        n > 0 ==> Binary64::of(n).number() > 0,
{
    let one = arithmetic::one();
    let exact = n as nat * one;
    lemma_one_positive();
    binary64::law_named_numbers();
    lemma_of_below(n);
    arithmetic::lemma_rounded_zero(1);
    if n > 0 {
        assert(exact >= one) by (nonlinear_arith)
            requires
                exact == n as nat * one,
                n >= 1,
        ;
        lemma_rounded_bounds(exact, 1, binary64::ONE as nat);
        lemma_units_monotone(binary64::ONE as nat, rounding::rounded(exact, 1));
    } else {
        assert(exact == 0) by (nonlinear_arith)
            requires
                exact == n as nat * one,
                n == 0,
        ;
    }
}

/// Larger integers do not become smaller numbers.
pub proof fn lemma_of_monotone(m: u64, n: u64)
    requires
        m <= n,
    ensures
        Binary64::of(m).le(Binary64::of(n)),
{
    let one = arithmetic::one();
    lemma_of(m);
    lemma_of(n);
    let (x, y) = (m as nat * one, n as nat * one);
    assert(x <= y) by (nonlinear_arith)
        requires
            x == m as nat * one,
            y == n as nat * one,
            m <= n,
    ;
    lemma_rounded_monotone(x, 1, y, 1);
    lemma_units_monotone(rounding::rounded(x, 1), rounding::rounded(y, 1));
}

/// Every integer lies at or below two to the power of 64 as a number.
pub proof fn lemma_of_bound(n: u64)
    ensures
        arithmetic::size(Binary64::of(n)) <= 0x1_0000_0000_0000_0000 * arithmetic::one(),
{
    let one = arithmetic::one();
    let exact = n as nat * one;
    let top = lemma_of_below(n);
    lemma_units_monotone(rounding::rounded(exact, 1), top);
}

/// The product of two integers is finite, and positive where both are.
pub proof fn lemma_product_of(m: u64, n: u64)
    ensures
        finite(Binary64::of(m).product(Binary64::of(n))),
        non_negative(Binary64::of(m).product(Binary64::of(n))),
        m > 0 && n > 0 ==> (Binary64 { bits: binary64::ONE }).le(
            Binary64::of(m).product(Binary64::of(n)),
        ),
{
    let (a, b) = (Binary64::of(m), Binary64::of(n));
    let (ua, ub) = (arithmetic::size(a), arithmetic::size(b));
    let one = arithmetic::one();
    let two64: nat = 0x1_0000_0000_0000_0000;
    lemma_of(m);
    lemma_of(n);
    lemma_of_bound(m);
    lemma_of_bound(n);
    lemma_one_positive();
    lemma_product_number(a, b);
    binary64::law_named_numbers();
    // Two to the power of 128.
    let top = (1150 * binary64::HIDDEN + binary64::HIDDEN) as nat;
    rounding::lemma_units_form(1150, binary64::HIDDEN as nat);
    vstd::arithmetic::power2::lemma2_to64();
    rounding::lemma_p2_adds(1074, 12);
    rounding::lemma_p2_adds(1086, 64);
    let p = rounding::p2(1150);
    assert(p == (one * 0x1000) * two64);
    assert(binary64::HIDDEN * p == two64 * (two64 * one)) by (nonlinear_arith)
        requires
            p == (one * 0x1000) * two64,
            binary64::HIDDEN == 0x10_0000_0000_0000,
            two64 == 0x1_0000_0000_0000_0000,
    ;
    assert(ua * ub <= (two64 * (two64 * one)) * one) by (nonlinear_arith)
        requires
            0 <= ua <= two64 * one,
            0 <= ub <= two64 * one,
            one > 0,
    ;
    lemma_rounded_bounds(ua * ub, one, top);
    if m > 0 && n > 0 {
        lemma_non_negative(a);
        lemma_non_negative(b);
        assert(one * one <= ua * ub) by (nonlinear_arith)
            requires
                one <= ua,
                one <= ub,
                one > 0,
        ;
        lemma_rounded_bounds(ua * ub, one, binary64::ONE as nat);
        lemma_units_monotone(binary64::ONE as nat, rounding::rounded(ua * ub, one));
    }
}

/// Dividing by a number from one on gives no more than what is divided.
pub proof fn lemma_quotient_not_above(a: Binary64, b: Binary64)
    requires
        non_negative(a),
        finite(a),
        (Binary64 { bits: binary64::ONE }).le(b),
        finite(b),
    ensures
        a.quotient(b).le(a),
        non_negative(a.quotient(b)),
        finite(a.quotient(b)),
{
    binary64::law_named_numbers();
    lemma_one_positive();
    lemma_non_negative(a);
    lemma_non_negative(b);
    lemma_quotient_number(a, b);
    let (ua, ub) = (arithmetic::size(a), arithmetic::size(b));
    let one = arithmetic::one();
    assert(ua * one <= ua * ub) by (nonlinear_arith)
        requires
            one <= ub,
    ;
    lemma_rounded_bounds(ua * one, ub, a.magnitude());
    lemma_units_monotone(rounding::rounded(ua * one, ub), a.magnitude());
    lemma_finite(a.quotient(b), a);
}

/// Multiplying by a number from one on gives no less than what is multiplied.
pub proof fn lemma_product_not_below(a: Binary64, b: Binary64)
    requires
        non_negative(a),
        finite(a),
        (Binary64 { bits: binary64::ONE }).le(b),
        finite(b),
    ensures
        a.le(a.product(b)),
{
    binary64::law_named_numbers();
    lemma_one_positive();
    lemma_non_negative(a);
    lemma_non_negative(b);
    lemma_product_number(a, b);
    let (ua, ub) = (arithmetic::size(a), arithmetic::size(b));
    let one = arithmetic::one();
    assert(ua * one <= ua * ub) by (nonlinear_arith)
        requires
            one <= ub,
    ;
    lemma_rounded_bounds(ua * ub, one, a.magnitude());
    lemma_units_monotone(a.magnitude(), rounding::rounded(ua * ub, one));
}

/// The sign of a product with a number that is not negative is that of the other factor.
pub proof fn lemma_product_signed(a: Binary64, c: Binary64)
    requires
        finite(a),
        finite(c),
        non_negative(c),
    ensures
        !a.product(c).is_nan(),
        ({
            let size = binary64::units(
                rounding::rounded(
                    arithmetic::size(a) * arithmetic::size(c),
                    arithmetic::one(),
                ),
            );
            a.product(c).number() == if a.number() >= 0 {
                size as int
            } else {
                -(size as int)
            }
        }),
{
    let (ua, uc) = (arithmetic::size(a), arithmetic::size(c));
    let one = arithmetic::one();
    lemma_one_positive();
    lemma_rounded_is_nearest(ua * uc, one);
    binary64::lemma_units_order(a.magnitude(), 0);
    binary64::lemma_units_order(c.magnitude(), 0);
    if a.number() == 0 || c.number() == 0 {
        assert(ua * uc == 0) by (nonlinear_arith)
            requires
                ua == 0 || uc == 0,
        ;
        arithmetic::lemma_rounded_zero(one);
    }
}

/// Multiplying by a number that is not negative keeps the order of numbers of any sign.
pub proof fn lemma_scaled_monotone(a: Binary64, b: Binary64, c: Binary64)
    requires
        a.le(b),
        finite(a),
        finite(b),
        finite(c),
        non_negative(c),
    ensures
        a.product(c).le(b.product(c)),
{
    lemma_product_signed(a, c);
    lemma_product_signed(b, c);
    lemma_one_positive();
    let (ua, ub, uc) = (arithmetic::size(a), arithmetic::size(b), arithmetic::size(c));
    let one = arithmetic::one();
    binary64::lemma_units_order(a.magnitude(), 0);
    binary64::lemma_units_order(b.magnitude(), 0);
    if a.number() >= 0 {
        lemma_product_monotone(a, b, c);
    } else if b.number() < 0 {
        assert((ub * uc) * one <= (ua * uc) * one) by (nonlinear_arith)
            requires
                ub <= ua,
        ;
        lemma_rounded_monotone(ub * uc, one, ua * uc, one);
        lemma_units_monotone(rounding::rounded(ub * uc, one), rounding::rounded(ua * uc, one));
    }
}

/// One less a fraction between 0 and the given one lies between one less that and one.
pub proof fn lemma_complement(x: Binary64, high: Binary64)
    requires
        non_negative(x),
        x.le(high),
        high.le(Binary64 { bits: binary64::ONE }),
    ensures
        ({
            let one = Binary64 { bits: binary64::ONE };
            &&& non_negative(one.difference(x))
            &&& one.difference(x).le(one)
            &&& finite(one.difference(x))
            &&& one.difference(high).le(one.difference(x))
        }),
{
    let one = Binary64 { bits: binary64::ONE };
    let zero = Binary64 { bits: binary64::ZERO };
    binary64::law_named_numbers();
    lemma_difference_antitone(one, x, high);
    lemma_difference_antitone(one, x, one);
    lemma_difference_antitone(one, zero, x);
    lemma_negated(one);
    lemma_negated(zero);
    lemma_sum_number(one, one.negated());
    lemma_sum_number(one, zero.negated());
    lemma_rounded_number_exact(one);
    lemma_rounded_number_exact(zero);
    lemma_finite(one.difference(x), one);
}

/// Larger numbers do not have smaller integer parts.
pub proof fn lemma_integer_part_monotone(a: Binary64, b: Binary64)
    requires
        non_negative(a),
        a.le(b),
    ensures
        a.integer_part() <= b.integer_part(),
{
    let one = arithmetic::one();
    lemma_one_positive();
    lemma_non_negative(a);
    lemma_non_negative(b);
    vstd::arithmetic::div_mod::lemma_div_is_ordered(
        arithmetic::size(a) as int,
        arithmetic::size(b) as int,
        one as int,
    );
    if a.is_negative() {
        vstd::arithmetic::div_mod::lemma_div_of0(one as int);
    }
    if b.is_negative() {
        binary64::lemma_units_order(b.magnitude(), 0);
        vstd::arithmetic::div_mod::lemma_div_of0(one as int);
    }
}

/// Digits at some weight, of which there are no more than a number can have, are a number.
pub proof fn lemma_representable(f: nat, t: int) -> (m: nat)
    requires
        0 < f <= 2 * binary64::HIDDEN,
        0 <= t <= 2000,
    ensures
        m <= INFINITY,
        binary64::units(m) == f * rounding::p2(t),
    decreases t,
{
    if f >= binary64::HIDDEN || t == 0 {
        rounding::lemma_units_form(t, f);
        (t * binary64::HIDDEN + f) as nat
    } else {
        vstd::arithmetic::power2::lemma_pow2_unfold(t as nat);
        let p = rounding::p2(t - 1);
        assert((2 * f) * p == f * (2 * p)) by (nonlinear_arith);
        lemma_representable(2 * f, t - 1)
    }
}

/// An integer with few enough digits, followed by zeros, is a number.
pub proof fn lemma_of_exact(s: u64, zeros: nat)
    requires
        s <= 2 * binary64::HIDDEN,
        zeros <= 64,
        s * rounding::p2(zeros as int) <= u64::MAX,
    ensures
        arithmetic::size(Binary64::of((s * rounding::p2(zeros as int)) as u64)) == s
            * rounding::p2(zeros as int) * arithmetic::one(),
{
    let p = rounding::p2(zeros as int);
    let one = arithmetic::one();
    let n = (s * p) as u64;
    if s == 0 {
        lemma_of(0);
        binary64::lemma_units_order(0, 0);
        assert(s * p == 0 && s * p * one == 0) by (nonlinear_arith)
            requires
                s == 0,
        ;
    } else {
        let m = lemma_representable(s as nat, zeros as int + 1074);
        rounding::lemma_p2_adds(zeros as int, 1074);
        assert(s * (p * one) == s * p * one) by (nonlinear_arith);
        arithmetic::lemma_rounded_exact(m);
        lemma_of(n);
    }
}

/// One less a finite number is finite.
pub proof fn lemma_one_less_is_finite(x: Binary64)
    requires
        non_negative(x),
        finite(x),
    ensures
        finite((Binary64 { bits: binary64::ONE }).difference(x)),
{
    let one = Binary64 { bits: binary64::ONE };
    let zero = Binary64 { bits: binary64::ZERO };
    binary64::law_named_numbers();
    lemma_one_positive();
    lemma_negated(x);
    lemma_negated(zero);
    // Between the negated number and one.
    lemma_difference_antitone(one, zero, x);
    lemma_sum_number(one, zero.negated());
    lemma_rounded_number_exact(one);
    lemma_sum_monotone(zero, one, x.negated());
    lemma_sum_number(zero, x.negated());
    lemma_rounded_number_exact(x.negated());
    let r = one.difference(x);
    if x.number() >= one.number() {
        lemma_finite(r, x);
    } else {
        lemma_finite(r, one);
    }
}

/// Multiplying by a fraction gives no more than what is multiplied.
pub proof fn lemma_product_not_above(a: Binary64, b: Binary64)
    requires
        non_negative(a),
        finite(a),
        non_negative(b),
        b.le(Binary64 { bits: binary64::ONE }),
    ensures
        b.product(a).le(a),
        non_negative(b.product(a)),
        finite(b.product(a)),
{
    let one = arithmetic::one();
    binary64::law_named_numbers();
    lemma_one_positive();
    lemma_finite(b, Binary64 { bits: binary64::ONE });
    lemma_non_negative(a);
    lemma_non_negative(b);
    lemma_product_number(b, a);
    let (ua, ub) = (arithmetic::size(a), arithmetic::size(b));
    assert(ub * ua <= ua * one) by (nonlinear_arith)
        requires
            ub <= one,
    ;
    lemma_rounded_bounds(ub * ua, one, a.magnitude());
    lemma_units_monotone(rounding::rounded(ub * ua, one), a.magnitude());
    lemma_finite(b.product(a), a);
}

/// The quotient of two positive integers is positive and finite.
pub proof fn lemma_quotient_of(m: u64, n: u64)
    requires
        m > 0,
        n > 0,
    ensures
        finite(Binary64::of(m).quotient(Binary64::of(n))),
        Binary64::of(m).quotient(Binary64::of(n)).number() > 0,
        !Binary64::of(m).quotient(Binary64::of(n)).is_nan(),
{
    let (a, b) = (Binary64::of(m), Binary64::of(n));
    let (ua, ub) = (arithmetic::size(a), arithmetic::size(b));
    let one = arithmetic::one();
    lemma_of(m);
    lemma_of(n);
    lemma_of_bound(n);
    lemma_one_positive();
    binary64::law_named_numbers();
    lemma_non_negative(a);
    lemma_non_negative(b);
    lemma_quotient_not_above(a, b);
    lemma_quotient_number(a, b);
    // One half to the power of 64.
    let low = (958 * binary64::HIDDEN + binary64::HIDDEN) as nat;
    rounding::lemma_units_form(958, binary64::HIDDEN as nat);
    vstd::arithmetic::power2::lemma2_to64();
    vstd::arithmetic::power2::lemma2_to64_rest();
    rounding::lemma_p2_adds(958, 52);
    rounding::lemma_p2_adds(1010, 64);
    let p = rounding::p2(1010);
    let q = rounding::p2(958);
    assert(binary64::units(low) == p) by {
        assert(binary64::HIDDEN * q == q * 0x10_0000_0000_0000) by (nonlinear_arith)
            requires
                binary64::HIDDEN == 0x10_0000_0000_0000,
        ;
    }
    assert(p * ub <= ua * one) by (nonlinear_arith)
        requires
            one == p * 0x1_0000_0000_0000_0000,
            ub <= 0x1_0000_0000_0000_0000 * one,
            ua >= one,
            p > 0,
    ;
    lemma_rounded_bounds(ua * one, ub, low);
    binary64::lemma_units_increase(0, low);
    binary64::lemma_units_order(0, 0);
    lemma_units_monotone(low, rounding::rounded(ua * one, ub));
}

/// A number times one is the number.
pub proof fn lemma_times_one(a: Binary64)
    requires
        !a.is_nan(),
    ensures
        a.product(Binary64 { bits: binary64::ONE }) == a,
        (Binary64 { bits: binary64::ONE }).product(a) == a,
{
    let one = Binary64 { bits: binary64::ONE };
    binary64::law_named_numbers();
    lemma_one_positive();
    if finite(a) {
        let (u, d) = (arithmetic::size(a), arithmetic::one());
        assert(u * d == d * u) by (nonlinear_arith);
        lemma_rounded_bounds(u * d, d, a.magnitude());
    } else {
        binary64::lemma_units_order(one.magnitude(), 0);
    }
}

/// A number plus or less nothing is the number.
pub proof fn lemma_plus_zero(a: Binary64)
    requires
        !a.is_nan(),
        !a.is_negative(),
    ensures
        a.sum(Binary64 { bits: binary64::ZERO }) == a,
        a.difference(Binary64 { bits: binary64::ZERO }) == a,
{
    let zero = Binary64 { bits: binary64::ZERO };
    binary64::lemma_units_order(0, 0);
    lemma_negated(zero);
    if finite(a) {
        binary64::lemma_units_order(a.magnitude(), 0);
        arithmetic::lemma_rounded_exact(a.magnitude());
    }
}

/// A product of integers of which one is 0 is 0.
pub proof fn lemma_product_of_nothing(m: u64, n: u64)
    requires
        m == 0 || n == 0,
    ensures
        Binary64::of(m).product(Binary64::of(n)).number() == 0,
{
    let (a, b) = (arithmetic::size(Binary64::of(m)), arithmetic::size(Binary64::of(n)));
    lemma_of(m);
    lemma_of(n);
    lemma_product_number(Binary64::of(m), Binary64::of(n));
    binary64::lemma_units_order(0, 0);
    lemma_one_positive();
    arithmetic::lemma_rounded_zero(arithmetic::one());
    assert(a * b == 0) by (nonlinear_arith)
        requires
            a == 0 || b == 0,
    ;
}

} // verus!
