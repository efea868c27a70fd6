//! How near rounded results are to the exact ones.
//!
//! The error of an operation is one part in two to the power of 53 of the exact result at
//! most, or half a unit. Distances are counted in units of the smallest positive number, as
//! numbers are.

use vstd::prelude::*;
use crate::arithmetic;
use crate::binary64;
use crate::binary64::{Binary64, HIDDEN, INFINITY};
use crate::order;
use crate::rounding;

verus! {

/// How far two numbers are apart.
pub open spec fn distance(x: int, y: int) -> int {
    if x >= y {
        x - y
    } else {
        y - x
    }
}

/// The exact result `n / d` and the rounded one, `r`, differ by no more than rounding can
/// cause: one part in two to the power of 53, and half a unit.
pub open spec fn near(r: int, n: int, d: int) -> bool {
    0x20_0000_0000_0000 * distance(r * d, n) <= distance(n, 0) + 0x10_0000_0000_0000 * d
}

/// The distance between neighbours that are less than two: two to the power of -53.
pub open spec fn grain() -> nat {
    rounding::p2(1021)
}

/// A magnitude and the next one.
proof fn lemma_gap(m: nat)
    ensures
        binary64::units(m) < binary64::units(m + 1),
        (binary64::units(m + 1) - binary64::units(m)) * HIDDEN <= binary64::units(m) + HIDDEN,
{
    let h = HIDDEN as nat;
    let (e, f) = (m / h, m % h);
    vstd::arithmetic::div_mod::lemma_fundamental_div_mod(m as int, h as int);
    vstd::arithmetic::power2::lemma2_to64();
    binary64::lemma_units_increase(m, m + 1);
    if e == 0 {
        rounding::lemma_units_form(0, f);
        rounding::lemma_units_form(0, f + 1);
        let p = rounding::p2(0);
        assert((f + 1) * p - f * p == p) by (nonlinear_arith);
        assert(p == 1);
    } else {
        let t = e - 1;
        let p = rounding::p2(t);
        assert(m == t * h + (h + f)) by (nonlinear_arith)
            requires
                m == h * e + f,
                t == e - 1,
        ;
        rounding::lemma_units_form(t, h + f);
        rounding::lemma_units_form(t, h + f + 1);
        assert(m + 1 == t * h + (h + f + 1));
        assert((h + f + 1) * p - (h + f) * p == p) by (nonlinear_arith);
        assert(p * h <= (h + f) * p) by (nonlinear_arith)
            requires
                f >= 0,
        ;
    }
}

/// A fraction is rounded to a magnitude that is near.
pub proof fn lemma_rounding_error(n: nat, d: nat)
    requires
        d > 0,
        rounding::rounded(n, d) < INFINITY,
    ensures
        near(binary64::units(rounding::rounded(n, d)) as int, n as int, d as int),
{
    let m = rounding::rounded(n, d);
    let u = binary64::units(m) as int;
    let h = HIDDEN as int;
    order::lemma_rounded_is_nearest(n, d);
    if u * d <= n {
        let v = binary64::units(m + 1) as int;
        lemma_gap(m);
        assert(2 * h * (n - u * d) <= n + h * d) by (nonlinear_arith)
            requires
                2 * n <= (u + v) * d,
                (v - u) * h <= u + h,
                u * d <= n,
                d > 0,
                h > 0,
        {
            assert(2 * n - 2 * (u * d) <= (v - u) * d);
            assert(((v - u) * d) * h == ((v - u) * h) * d);
            assert(((v - u) * h) * d <= (u + h) * d);
            assert((u + h) * d == u * d + h * d);
            assert((2 * n - 2 * (u * d)) * h <= ((v - u) * d) * h);
            assert(2 * h * (n - u * d) == (2 * n - 2 * (u * d)) * h);
        }
    } else {
        assert(m > 0) by {
            if m == 0 {
                binary64::lemma_units_order(0, 0);
                assert(0 * d == 0) by (nonlinear_arith);
            }
        }
        let v = binary64::units((m - 1) as nat) as int;
        lemma_gap((m - 1) as nat);
        assert(2 * h * (u * d - n) <= n + h * d) by (nonlinear_arith)
            requires
                2 * n >= (v + u) * d,
                (u - v) * h <= v + h,
                v < u,
                u * d > n,
                d > 0,
                h > 0,
        {
            assert(2 * (u * d) - 2 * n <= (u - v) * d);
            assert(((u - v) * d) * h == ((u - v) * h) * d);
            assert(((u - v) * h) * d <= (v + h) * d);
            assert((v + h) * d == v * d + h * d);
            assert(v * d <= u * d);
            assert(v * d <= n);
            assert((2 * (u * d) - 2 * n) * h <= ((u - v) * d) * h);
            assert(2 * h * (u * d - n) == (2 * (u * d) - 2 * n) * h);
        }
    }
}

/// A product is near the exact one.
pub proof fn lemma_product_near(a: Binary64, b: Binary64)
    requires
        order::finite(a),
        order::finite(b),
        order::non_negative(b),
        order::finite(a.product(b)),
    ensures
        near(a.product(b).number(), a.number() * b.number(), arithmetic::one() as int),
{
    let (x, y, d) = (arithmetic::size(a) as int, arithmetic::size(b) as int, arithmetic::one());
    let r = arithmetic::size(a.product(b)) as int;
    order::lemma_one_positive();
    order::lemma_non_negative(b);
    order::lemma_product_signed(a, b);
    assert(x * y >= 0) by (nonlinear_arith)
        requires
            x >= 0,
            y >= 0,
    ;
    order::lemma_rounded_bounds((x * y) as nat, d, 0);
    lemma_rounding_error((x * y) as nat, d);
    assert((-x) * y == -(x * y)) by (nonlinear_arith);
    let u = binary64::units(rounding::rounded((x * y) as nat, d)) as int;
    assert((-u) * d == -(u * d)) by (nonlinear_arith);
    if a.number() == 0 {
        assert(x * y == 0) by (nonlinear_arith)
            requires
                x == 0,
        ;
    }
}

/// A quotient is near the exact one.
pub proof fn lemma_quotient_near(a: Binary64, b: Binary64)
    requires
        order::non_negative(a),
        order::finite(a),
        order::finite(b),
        b.number() > 0,
        order::finite(a.quotient(b)),
    ensures
        near(a.quotient(b).number(), a.number() * arithmetic::one(), b.number()),
{
    order::lemma_quotient_number(a, b);
    order::lemma_non_negative(a);
    order::lemma_non_negative(b);
    assert(arithmetic::size(a) * arithmetic::one() >= 0) by (nonlinear_arith);
    order::lemma_rounded_bounds(
        arithmetic::size(a) * arithmetic::one(),
        arithmetic::size(b),
        0,
    );
    binary64::lemma_units_order(b.magnitude(), 0);
    lemma_rounding_error(arithmetic::size(a) * arithmetic::one(), arithmetic::size(b));
}

/// A sum is near the exact one.
pub proof fn lemma_sum_near(a: Binary64, b: Binary64)
    requires
        order::finite(a),
        order::finite(b),
        order::finite(a.sum(b)),
    ensures
        near(a.sum(b).number(), a.number() + b.number(), 1),
{
    let exact = a.number() + b.number();
    order::lemma_sum_number(a, b);
    if exact > 0 {
        order::lemma_rounded_bounds(exact as nat, 1, 0);
        lemma_rounding_error(exact as nat, 1);
    } else if exact < 0 {
        order::lemma_rounded_bounds((-exact) as nat, 1, 0);
        lemma_rounding_error((-exact) as nat, 1);
        assert(near(-a.sum(b).number(), -exact, 1));
        assert(near(a.sum(b).number(), exact, 1));
    } else {
        arithmetic::lemma_rounded_zero(1);
        binary64::lemma_units_order(0, 0);
    }
}

/// A difference is near the exact one.
pub proof fn lemma_difference_near(a: Binary64, b: Binary64)
    requires
        order::finite(a),
        order::finite(b),
        order::finite(a.difference(b)),
    ensures
        near(a.difference(b).number(), a.number() - b.number(), 1),
{
    order::lemma_negated(b);
    lemma_sum_near(a, b.negated());
}

/// The number nearest to an integer is near it.
pub proof fn lemma_of_near(n: u64)
    ensures
        near(Binary64::of(n).number(), n * arithmetic::one(), 1),
{
    order::lemma_of(n);
    order::lemma_rounded_bounds(n as nat * arithmetic::one(), 1, 0);
    assert(n * arithmetic::one() >= 0) by (nonlinear_arith);
    lemma_rounding_error(n as nat * arithmetic::one(), 1);
}

/// One is two to the power of 53 grains, and a grain is many units.
pub proof fn lemma_grain()
    ensures
        arithmetic::one() == 0x20_0000_0000_0000 * grain(),
        grain() > 0x40_0000_0000_0000,
{
    vstd::arithmetic::power2::lemma2_to64_rest();
    rounding::lemma_p2_adds(1021, 53);
    rounding::lemma_p2_adds(55, 966);
    assert(rounding::p2(55) * rounding::p2(966) >= rounding::p2(55)) by (nonlinear_arith)
        requires
            rounding::p2(966) > 0,
    ;
    assert(arithmetic::one() == rounding::p2(1021) * rounding::p2(53));
    assert(rounding::p2(1021) * rounding::p2(53) == 0x20_0000_0000_0000 * grain()) by (nonlinear_arith)
        requires
            rounding::p2(53) == 0x20_0000_0000_0000,
            grain() == rounding::p2(1021),
    ;
}

} // verus!
