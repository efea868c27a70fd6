//! What the figures are: each as an exact fraction of what it is computed from, up to rounding.

use vstd::prelude::*;
use crate::arithmetic;
use crate::binary64;
use crate::binary64::Binary64;
use crate::card;
use crate::fullness::FsUsage;
use crate::kernel::WriteDelta;
use crate::order;
use crate::precision;
use crate::precision::{distance, near};
use crate::rounding;
use crate::settings;
use crate::state;
use crate::state::StateModel;
use crate::waf;

verus! {

/// A quantity is the other one, up to so many parts in two to the power of 53.
pub open spec fn about(a: int, b: int, parts: int) -> bool {
    0x20_0000_0000_0000 * distance(a, b) <= parts * b
}

// ---------------------------------------------------------------------------
// Putting errors together
// ---------------------------------------------------------------------------
proof fn lemma_chain(a: int, b: int, c: int, j: int, k: int)
    requires
        about(a, b, j),
        about(b, c, k),
        0 <= b,
        0 <= c,
        0 <= j <= 1000,
        0 <= k <= 1000,
    ensures
        about(a, c, j + k + 1),
{
    let d = distance(b, c);
    assert(j * b <= j * c + j * d) by (nonlinear_arith)
        requires
            b <= c + d,
            j >= 0,
    ;
    assert(0x20_0000_0000_0000 * (j * d) <= 0x20_0000_0000_0000 * c) by (nonlinear_arith)
        requires
            0x20_0000_0000_0000 * d <= k * c,
            0 <= j <= 1000,
            0 <= k <= 1000,
            c >= 0,
            d >= 0,
    {
        assert(k * c <= 1000 * c);
        assert(j * (0x20_0000_0000_0000 * d) <= j * (1000 * c));
        assert(j * (1000 * c) <= 1000 * (1000 * c));
        assert(0x20_0000_0000_0000 * (j * d) == j * (0x20_0000_0000_0000 * d));
    }
    assert((j + k + 1) * c == j * c + k * c + c) by (nonlinear_arith);
}

proof fn lemma_flip(a: int, b: int, k: int)
    requires
        about(a, b, k),
        0 <= a,
        0 <= b,
        0 <= k <= 1000,
    ensures
        about(b, a, k + 1),
{
    let d = distance(a, b);
    assert(k * b <= 1000 * b) by (nonlinear_arith)
        requires
            0 <= k <= 1000,
            b >= 0,
    ;
    assert(b <= 2 * a);
    assert(k * b <= k * a + k * d) by (nonlinear_arith)
        requires
            b <= a + d,
            k >= 0,
    ;
    assert(k * d <= 1000 * d) by (nonlinear_arith)
        requires
            0 <= k <= 1000,
            d >= 0,
    ;
    assert((k + 1) * a == k * a + a) by (nonlinear_arith);
}

proof fn lemma_scaled(a: int, b: int, k: int, m: int)
    requires
        about(a, b, k),
        m >= 0,
    ensures
        about(a * m, b * m, k),
{
    assert(distance(a * m, b * m) == distance(a, b) * m) by (nonlinear_arith)
        requires
            m >= 0,
    ;
    let d = distance(a, b);
    assert((0x20_0000_0000_0000 * d) * m <= (k * b) * m) by (nonlinear_arith)
        requires
            0x20_0000_0000_0000 * d <= k * b,
            m >= 0,
    ;
    assert((0x20_0000_0000_0000 * d) * m == 0x20_0000_0000_0000 * (d * m)) by (nonlinear_arith);
    assert((k * b) * m == k * (b * m)) by (nonlinear_arith);
}

proof fn lemma_reduced(a: int, b: int, k: int, m: int)
    requires
        about(a * m, b * m, k),
        m > 0,
    ensures
        about(a, b, k),
{
    assert(distance(a * m, b * m) == distance(a, b) * m) by (nonlinear_arith)
        requires
            m >= 0,
    ;
    let d = distance(a, b);
    assert(0x20_0000_0000_0000 * (d * m) == (0x20_0000_0000_0000 * d) * m) by (nonlinear_arith);
    assert(k * (b * m) == (k * b) * m) by (nonlinear_arith);
    assert(0x20_0000_0000_0000 * d <= k * b) by (nonlinear_arith)
        requires
            (0x20_0000_0000_0000 * d) * m <= (k * b) * m,
            m > 0,
    ;
}

/// What is near a fraction that is no less than the smallest normal number, or is 0, is about
/// it.
proof fn lemma_near_is_about(r: int, n: int, d: int)
    requires
        near(r, n, d),
        d > 0,
        0 <= n,
        n == 0 || 0x10_0000_0000_0000 * d <= n,
    ensures
        about(r * d, n, 2),
{
    if n == 0 {
        assert(r == 0) by {
            if r != 0 {
                assert(distance(r * d, 0) >= d) by (nonlinear_arith)
                    requires
                        r != 0,
                        d > 0,
                ;
            }
        }
        assert(r * d == 0) by (nonlinear_arith)
            requires
                r == 0,
        ;
    }
}

/// A product of two that are about fractions.
proof fn lemma_product_steps(
    x: int,
    y: int,
    r: int,
    one: int,
    n1: int,
    d1: int,
    k1: int,
    n2: int,
    d2: int,
    k2: int,
)
    requires
        about(r * one, x * y, 2),
        about(x * d1, n1, k1),
        about(y * d2, n2, k2),
        0 <= x,
        0 <= y,
        0 < d1,
        0 < d2,
        0 <= n1,
        0 <= n2,
        0 <= k1 <= 400,
        0 <= k2 <= 400,
    ensures
        about(r * (d1 * d2 * one), n1 * n2, k1 + k2 + 4),
{
    let (p, q) = (x * d1, y * d2);
    assert(p >= 0 && q >= 0 && d1 * d2 >= 0 && p * q >= 0 && n1 * q >= 0 && n1 * n2 >= 0)
        by (nonlinear_arith)
        requires
            p == x * d1,
            q == y * d2,
            x >= 0,
            y >= 0,
            d1 > 0,
            d2 > 0,
            n1 >= 0,
            n2 >= 0,
    ;
    lemma_scaled(p, n1, k1, q);
    lemma_scaled(q, n2, k2, n1);
    assert(q * n1 == n1 * q && n2 * n1 == n1 * n2) by (nonlinear_arith);
    lemma_chain(p * q, n1 * q, n1 * n2, k1, k2);
    lemma_scaled(r * one, x * y, 2, d1 * d2);
    assert((x * y) * (d1 * d2) == p * q) by (nonlinear_arith)
        requires
            p == x * d1,
            q == y * d2,
    ;
    assert((r * one) * (d1 * d2) == r * (d1 * d2 * one)) by (nonlinear_arith);
    lemma_chain(r * (d1 * d2 * one), p * q, n1 * n2, 2, k1 + k2 + 1);
}

/// A quotient of two that are about fractions.
proof fn lemma_quotient_steps(
    x: int,
    y: int,
    r: int,
    one: int,
    n1: int,
    d1: int,
    k1: int,
    n2: int,
    d2: int,
    k2: int,
)
    requires
        about(r * y, x * one, 2),
        about(x * d1, n1, k1),
        about(y * d2, n2, k2),
        0 <= r,
        0 <= x,
        0 < y,
        0 < one,
        0 < d1,
        0 < d2,
        0 <= n1,
        0 < n2,
        0 <= k1 <= 400,
        0 <= k2 <= 400,
    ensures
        about(r * (d1 * n2), n1 * d2 * one, k1 + k2 + 5),
{
    let q = y * d2;
    let (t, b, a) = ((r * d1) * q, n1 * d2 * one, r * (d1 * n2));
    let m = (x * d1) * (d2 * one);
    assert(q >= 0 && d1 * d2 >= 0 && d2 * one >= 0 && r * d1 >= 0 && x * d1 >= 0)
        by (nonlinear_arith)
        requires
            q == y * d2,
            y > 0,
            d1 > 0,
            d2 > 0,
            one > 0,
            r >= 0,
            x >= 0,
    ;
    assert(t >= 0 && b >= 0 && a >= 0 && m >= 0) by (nonlinear_arith)
        requires
            t == (r * d1) * q,
            b == n1 * d2 * one,
            a == r * (d1 * n2),
            m == (x * d1) * (d2 * one),
            r * d1 >= 0,
            q >= 0,
            n1 >= 0,
            d2 > 0,
            one > 0,
            r >= 0,
            d1 > 0,
            n2 > 0,
            x * d1 >= 0,
            d2 * one >= 0,
    {
        assert(n1 * d2 >= 0);
        assert(d1 * n2 >= 0);
    }
    lemma_scaled(r * y, x * one, 2, d1 * d2);
    assert((r * y) * (d1 * d2) == t) by (nonlinear_arith)
        requires
            t == (r * d1) * q,
            q == y * d2,
    ;
    assert((x * one) * (d1 * d2) == m) by (nonlinear_arith)
        requires
            m == (x * d1) * (d2 * one),
    ;
    lemma_scaled(x * d1, n1, k1, d2 * one);
    assert(n1 * (d2 * one) == b) by (nonlinear_arith)
        requires
            b == n1 * d2 * one,
    ;
    lemma_chain(t, m, b, 2, k1);
    lemma_scaled(q, n2, k2, r * d1);
    assert(q * (r * d1) == t && n2 * (r * d1) == a) by (nonlinear_arith)
        requires
            t == (r * d1) * q,
            a == r * (d1 * n2),
    ;
    lemma_flip(t, a, k2);
    lemma_chain(a, t, b, k2 + 1, k1 + 3);
}

/// One is a large number of units.
proof fn lemma_one_is_large()
    ensures
        arithmetic::one() >= 0x100_0000_0000_0000_0000_0000_0000_0000_0000,
        arithmetic::one() >= 0x1_0000_0000_0000_0000_0000_0000_0000_0000_0000_0000_0000_0000,
        arithmetic::one() == 0x20_0000_0000_0000 * precision::grain(),
        precision::grain() > 0x40_0000_0000_0000,
{
    precision::lemma_grain();
    rounding::lemma_p2_adds(1010, 64);
    rounding::lemma_p2_adds(946, 64);
    rounding::lemma_p2_adds(882, 64);
    vstd::arithmetic::power2::lemma2_to64();
    let (a, t) = (rounding::p2(882), 0x1_0000_0000_0000_0000int);
    assert(a * t * t * t >= 0x1_0000_0000_0000_0000_0000_0000_0000_0000_0000_0000_0000_0000) by (nonlinear_arith)
        requires
            a >= 1,
            t == 0x1_0000_0000_0000_0000,
    ;
}

/// The number for an integer is about the integer.
pub proof fn law_integers_become_numbers(n: u64)
    ensures
        about(Binary64::of(n).number(), n * binary64::one_in_units(), 2),
        n <= 0x20_0000_0000_0000 ==> Binary64::of(n).number() == n * binary64::one_in_units(),
{
    let v = n * arithmetic::one();
    lemma_one_is_large();
    order::lemma_of(n);
    precision::lemma_of_near(n);
    assert(n > 0 ==> v >= arithmetic::one()) by (nonlinear_arith)
        requires
            v == n * arithmetic::one(),
    ;
    assert(n == 0 ==> v == 0) by (nonlinear_arith)
        requires
            v == n * arithmetic::one(),
    ;
    lemma_near_is_about(Binary64::of(n).number(), v, 1);
    if n <= 0x20_0000_0000_0000 {
        vstd::arithmetic::power2::lemma2_to64();
        assert(rounding::p2(0) == 1);
        order::lemma_of_exact(n, 0);
        order::lemma_non_negative(Binary64::of(n));
        assert(n * rounding::p2(0) == n) by (nonlinear_arith)
            requires
                rounding::p2(0) == 1,
        ;
    }
}

/// The quotient of two numbers that are about fractions is about the quotient of these.
proof fn lemma_quotient_about(
    a: Binary64,
    b: Binary64,
    n1: int,
    d1: int,
    k1: int,
    n2: int,
    d2: int,
    k2: int,
)
    requires
        order::finite(a),
        order::non_negative(a),
        order::finite(b),
        b.number() > 0,
        order::finite(a.quotient(b)),
        a.number() == 0 || 0x10_0000_0000_0000 * b.number() <= a.number() * arithmetic::one(),
        about(a.number() * d1, n1, k1),
        about(b.number() * d2, n2, k2),
        0 < d1,
        0 < d2,
        0 <= n1,
        0 < n2,
        0 <= k1 <= 400,
        0 <= k2 <= 400,
    ensures
        order::non_negative(a.quotient(b)),
        about(a.quotient(b).number() * (d1 * n2), n1 * d2 * arithmetic::one(), k1 + k2 + 5),
{
    let (x, y, one) = (a.number(), b.number(), arithmetic::one() as int);
    order::lemma_one_positive();
    order::lemma_quotient_number(a, b);
    precision::lemma_quotient_near(a, b);
    assert(x * one >= 0 && (x == 0 ==> x * one == 0)) by (nonlinear_arith)
        requires
            x >= 0,
            one > 0,
    ;
    lemma_near_is_about(a.quotient(b).number(), x * one, y);
    lemma_quotient_steps(x, y, a.quotient(b).number(), one, n1, d1, k1, n2, d2, k2);
}

/// The product of two numbers that are about fractions is about the product of these.
proof fn lemma_product_about(
    a: Binary64,
    b: Binary64,
    n1: int,
    d1: int,
    k1: int,
    n2: int,
    d2: int,
    k2: int,
)
    requires
        order::finite(a),
        order::non_negative(a),
        order::finite(b),
        order::non_negative(b),
        order::finite(a.product(b)),
        a.number() * b.number() == 0 || 0x10_0000_0000_0000 * arithmetic::one() <= a.number()
            * b.number(),
        about(a.number() * d1, n1, k1),
        about(b.number() * d2, n2, k2),
        0 < d1,
        0 < d2,
        0 <= n1,
        0 <= n2,
        0 <= k1 <= 400,
        0 <= k2 <= 400,
    ensures
        order::non_negative(a.product(b)),
        about(a.product(b).number() * (d1 * d2 * arithmetic::one()), n1 * n2, k1 + k2 + 4),
{
    let (x, y, one) = (a.number(), b.number(), arithmetic::one() as int);
    order::lemma_one_positive();
    order::lemma_product_number(a, b);
    precision::lemma_product_near(a, b);
    assert(x * y >= 0) by (nonlinear_arith)
        requires
            x >= 0,
            y >= 0,
    ;
    lemma_near_is_about(a.product(b).number(), x * y, one);
    lemma_product_steps(x, y, a.product(b).number(), one, n1, d1, k1, n2, d2, k2);
}

/// The quotient of two integers is about their exact quotient.
pub proof fn law_quotient_of_integers(m: u64, n: u64)
    requires
        n > 0,
    ensures
        order::finite(Binary64::of(m).quotient(Binary64::of(n))),
        order::non_negative(Binary64::of(m).quotient(Binary64::of(n))),
        about(
            Binary64::of(m).quotient(Binary64::of(n)).number() * n,
            m * binary64::one_in_units(),
            9,
        ),
{
    let (a, b, one) = (Binary64::of(m), Binary64::of(n), arithmetic::one() as int);
    let q = a.quotient(b).number();
    binary64::law_named_numbers();
    lemma_one_is_large();
    order::lemma_of(m);
    order::lemma_of(n);
    order::lemma_of_bound(n);
    order::lemma_non_negative(b);
    order::lemma_quotient_not_above(a, b);
    law_integers_become_numbers(m);
    law_integers_become_numbers(n);
    let (mo, no) = (m * one, n * one);
    assert(mo >= 0 && no > 0) by (nonlinear_arith)
        requires
            mo == m * one,
            no == n * one,
            m >= 0,
            n > 0,
            one > 0,
    ;
    if m > 0 {
        assert(0x10_0000_0000_0000 * b.number() <= a.number() * one) by (nonlinear_arith)
            requires
                b.number() <= 0x1_0000_0000_0000_0000 * one,
                a.number() >= one,
                one >= 0x100_0000_0000_0000_0000_0000_0000_0000_0000,
        ;
    }
    lemma_quotient_about(a, b, mo, 1, 2, no, 1, 2);
    assert(q * (1 * no) == (q * n) * one) by (nonlinear_arith)
        requires
            no == n * one,
    ;
    lemma_reduced(q * n, mo, 9, one);
}

/// The product of two integers is about their exact product.
pub proof fn law_product_of_integers(m: u64, n: u64)
    ensures
        about(
            Binary64::of(m).product(Binary64::of(n)).number(),
            m * n * binary64::one_in_units(),
            8,
        ),
{
    let (a, b, one) = (Binary64::of(m), Binary64::of(n), arithmetic::one() as int);
    let p = a.product(b).number();
    binary64::law_named_numbers();
    lemma_one_is_large();
    order::lemma_of(m);
    order::lemma_of(n);
    order::lemma_product_of(m, n);
    law_integers_become_numbers(m);
    law_integers_become_numbers(n);
    let (mo, no) = (m * one, n * one);
    assert(mo >= 0 && no >= 0) by (nonlinear_arith)
        requires
            mo == m * one,
            no == n * one,
            m >= 0,
            n >= 0,
            one > 0,
    ;
    let (x, y) = (a.number(), b.number());
    if m > 0 && n > 0 {
        assert(0x10_0000_0000_0000 * one <= x * y) by (nonlinear_arith)
            requires
                x >= one,
                y >= one,
                one >= 0x100_0000_0000_0000_0000_0000_0000_0000_0000,
        ;
    } else {
        assert(x * y == 0) by (nonlinear_arith)
            requires
                x == 0 || y == 0,
        ;
    }
    lemma_product_about(a, b, mo, 1, 2, no, 1, 2);
    assert(p * (1 * 1 * one) == p * one) by (nonlinear_arith);
    assert(mo * no == (m * n * one) * one) by (nonlinear_arith)
        requires
            mo == m * one,
            no == n * one,
    ;
    lemma_reduced(p, m * n * one, 8, one);
}

// ---------------------------------------------------------------------------
// The card
// ---------------------------------------------------------------------------
/// The gigabytes of a card are its bytes over two to the power of 30.
pub proof fn law_gigabytes_of_a_card(card_bytes: u64)
    ensures
        about(
            card::gigabytes(card_bytes).number() * 1_073_741_824,
            card_bytes * binary64::one_in_units(),
            9,
        ),
{
    law_quotient_of_integers(card_bytes, 1_073_741_824);
}

/// The lifetime budget is the size of the card times its rated cycles, in units of a trillion
/// bytes.
pub proof fn law_lifetime_budget_is_size_times_cycles(card_bytes: u64, pe_cycles: u64)
    ensures
        about(
            card::lifetime_budget(card_bytes, pe_cycles).number() * 1_000_000_000_000,
            card_bytes * pe_cycles * binary64::one_in_units(),
            15,
        ),
{
    let one = arithmetic::one() as int;
    let t: u64 = 1_000_000_000_000;
    let (a, b) = (Binary64::of(card_bytes).product(Binary64::of(pe_cycles)), Binary64::of(t));
    let n = card_bytes * pe_cycles * one;
    binary64::law_named_numbers();
    lemma_one_is_large();
    order::lemma_of(t);
    order::lemma_of_bound(t);
    order::lemma_non_negative(b);
    order::lemma_product_of(card_bytes, pe_cycles);
    law_product_of_integers(card_bytes, pe_cycles);
    law_integers_become_numbers(t);
    order::lemma_quotient_not_above(a, b);
    assert(n >= 0) by (nonlinear_arith)
        requires
            n == card_bytes * pe_cycles * one,
            one > 0,
    ;
    if card_bytes > 0 && pe_cycles > 0 {
        assert(0x10_0000_0000_0000 * b.number() <= a.number() * one) by (nonlinear_arith)
            requires
                b.number() <= 0x1_0000_0000_0000_0000 * one,
                a.number() >= one,
                one >= 0x100_0000_0000_0000_0000_0000_0000_0000_0000,
        ;
    } else {
        order::lemma_product_of_nothing(card_bytes, pe_cycles);
    }
    lemma_quotient_about(a, b, n, 1, 8, t * one, 1, 2);
    let q = a.quotient(b).number();
    assert(q * (1 * (t * one)) == (q * t) * one) by (nonlinear_arith);
    lemma_reduced(q * t, n, 15, one);
}

// ---------------------------------------------------------------------------
// The wear
// ---------------------------------------------------------------------------
/// The average cycles that are recorded are the recorded bytes over the size of the card,
/// whatever was recorded before.
pub proof fn law_average_cycles_are_all_bytes_over_the_size(
    state: StateModel,
    delta: WriteDelta,
    now: crate::kernel::KernelStats,
    fullness: Binary64,
    flash_bytes: u64,
    card_bytes: u64,
    pe_cycles: u64,
    stamp: Seq<char>,
)
    requires
        state.has_room(delta, flash_bytes),
        card_bytes > 0,
    ensures
        ({
            let after = state.recorded(
                delta,
                now,
                fullness,
                flash_bytes,
                card_bytes,
                pe_cycles,
                stamp,
            );
            &&& order::finite(after.estimated_avg_pe_cycles)
            &&& order::non_negative(after.estimated_avg_pe_cycles)
            &&& about(
                after.estimated_avg_pe_cycles.number() * card_bytes,
                after.estimated_flash_bytes_written * binary64::one_in_units(),
                9,
            )
        }),
{
    law_quotient_of_integers(
        (state.estimated_flash_bytes_written + flash_bytes) as u64,
        card_bytes,
    );
}

/// A quotient is finite where it is far from infinity.
proof fn lemma_quotient_is_finite(a: Binary64, b: Binary64)
    requires
        order::finite(a),
        order::non_negative(a),
        order::finite(b),
        b.number() > 0,
        a.number() * arithmetic::one() <= rounding::p2(1500) * b.number(),
    ensures
        order::finite(a.quotient(b)),
{
    let (u, v) = (arithmetic::size(a), arithmetic::size(b));
    let top = order::lemma_representable(1, 1500);
    let h = binary64::HIDDEN as nat;
    order::lemma_non_negative(a);
    order::lemma_non_negative(b);
    order::lemma_quotient_number(a, b);
    assert(1 * rounding::p2(1500) == rounding::p2(1500)) by (nonlinear_arith);
    order::lemma_rounded_bounds(u * arithmetic::one(), v, top);
    rounding::lemma_units_form(2046, h);
    vstd::arithmetic::power2::lemma_pow2_strictly_increases(1500, 2046);
    assert(rounding::p2(2046) <= h * rounding::p2(2046)) by (nonlinear_arith)
        requires
            h >= 1,
    ;
    binary64::lemma_units_order(top, binary64::INFINITY as nat);
}

/// The bytes that a life leaves, exactly: `life * pe_cycles * card_bytes / 100`.
proof fn lemma_remaining_bytes(state: StateModel, card_bytes: u64, pe_cycles: u64)
    requires
        settings::up_to(state.estimated_life_remaining_pct, state::full_life()),
        rounding::p2(300) <= state.estimated_life_remaining_pct.number(),
        card_bytes > 0,
        pe_cycles > 0,
    ensures
        ({
            let left = state.remaining_bytes(card_bytes, pe_cycles);
            let life = state.estimated_life_remaining_pct.number();
            &&& order::finite(left)
            &&& order::non_negative(left)
            &&& about(left.number() * 100, life * (pe_cycles * card_bytes), 17)
        }),
{
    let life = state.estimated_life_remaining_pct;
    let hundred = state::full_life();
    let budget = Binary64::of(pe_cycles).product(Binary64::of(card_bytes));
    let share = life.quotient(hundred);
    let one = arithmetic::one() as int;
    let l = life.number();
    binary64::law_named_numbers();
    lemma_one_is_large();
    rounding::lemma_p2_adds(64, 236);
    vstd::arithmetic::power2::lemma2_to64();
    assert(rounding::p2(300) >= 0x1_0000_0000_0000_0000) by (nonlinear_arith)
        requires
            rounding::p2(300) == rounding::p2(64) * rounding::p2(236),
            rounding::p2(64) == 0x1_0000_0000_0000_0000,
            rounding::p2(236) >= 1,
    ;
    order::lemma_finite(life, hundred);
    order::lemma_quotient_at_most_one(life, hundred);
    order::lemma_quotient_not_above(life, hundred);
    order::lemma_product_of(pe_cycles, card_bytes);
    order::lemma_product_not_above(budget, share);
    law_product_of_integers(pe_cycles, card_bytes);
    // The share of the life.
    assert(0x10_0000_0000_0000 * hundred.number() <= l * one) by (nonlinear_arith)
        requires
            hundred.number() == 100 * one,
            l >= 0x1_0000_0000_0000_0000,
            one > 0,
    ;
    lemma_quotient_about(life, hundred, l, 1, 0, 100 * one, 1, 0);
    let q = share.number();
    assert(q * (1 * (100 * one)) == (q * 100) * one) by (nonlinear_arith);
    assert(l * 1 * one == l * one) by (nonlinear_arith);
    lemma_reduced(q * 100, l, 5, one);
    // Of the budget.
    let n = pe_cycles * card_bytes * one;
    let b = budget.number();
    assert(q >= 0x20_0000_0000_0000);
    assert(0x10_0000_0000_0000 * one <= q * b) by (nonlinear_arith)
        requires
            q >= 0x20_0000_0000_0000,
            b >= one,
            one > 0,
    ;
    assert(n >= 0) by (nonlinear_arith)
        requires
            n == pe_cycles * card_bytes * one,
            one > 0,
    ;
    lemma_product_about(share, budget, l, 100, 5, n, 1, 8);
    let r = share.product(budget).number();
    assert(r * (100 * 1 * one) == (r * 100) * one) by (nonlinear_arith);
    assert(l * n == (l * (pe_cycles * card_bytes)) * one) by (nonlinear_arith)
        requires
            n == pe_cycles * card_bytes * one,
    ;
    lemma_reduced(r * 100, l * (pe_cycles * card_bytes), 17, one);
}

/// The years that are left are the bytes that the life leaves, over the bytes that were written
/// since the oldest sample, times the time since then: `years * 31557600 * written * 100 = life
/// * pe_cycles * card_bytes * elapsed`, up to 38 parts in two to the power of 53; they are cut
/// off at 100 where that makes 100 or more. That holds however many samples there are, from two
/// on, and for every life that is not vanishingly small.
pub proof fn law_years_left_are_the_budget_over_the_rate(
    state: StateModel,
    card_bytes: u64,
    pe_cycles: u64,
    now: u64,
)
    requires
        state.wear_samples.len() >= 2,
        state.wear_samples[0].timestamp_secs < now,
        state.wear_samples[0].flash_bytes_written < state.estimated_flash_bytes_written,
        settings::up_to(state.estimated_life_remaining_pct, state::full_life()),
        rounding::p2(300) <= state.estimated_life_remaining_pct.number(),
        card_bytes > 0,
        pe_cycles > 0,
    ensures
        state.years_left(card_bytes, pe_cycles, now) is Some,
        ({
            let oldest = state.wear_samples[0];
            let years = state.years_left(card_bytes, pe_cycles, now)->0.number();
            let life = state.estimated_life_remaining_pct.number();
            let elapsed = now - oldest.timestamp_secs;
            let written = state.estimated_flash_bytes_written - oldest.flash_bytes_written;
            let hundred = 100 * binary64::one_in_units();
            let left = life * (pe_cycles * card_bytes) * elapsed;
            let rate = 100 * written * 31_557_600;
            &&& years <= hundred
            &&& years < hundred ==> about(years * rate, left, 38)
            &&& years == hundred ==> 0x20_0000_0000_0000 * (hundred * rate)
                <= 0x20_0000_0000_0026 * left
        }),
{
    let one = arithmetic::one() as int;
    let hundred = state::full_life();
    let oldest = state.wear_samples[0];
    let (ws, wb) = (
        (now - oldest.timestamp_secs) as u64,
        (state.estimated_flash_bytes_written - oldest.flash_bytes_written) as u64,
    );
    let left = state.remaining_bytes(card_bytes, pe_cycles);
    let rate = state.rate(now);
    let year: u64 = 31_557_600;
    let l = state.estimated_life_remaining_pct.number();
    let budget = l * (pe_cycles * card_bytes);
    binary64::law_named_numbers();
    lemma_one_is_large();
    lemma_remaining_bytes(state, card_bytes, pe_cycles);
    assert(state.window_secs(now) == ws && state.window_bytes() == wb);
    law_quotient_of_integers(wb, ws);
    order::lemma_quotient_of(wb, ws);
    order::lemma_of(wb);
    order::lemma_of(ws);
    order::lemma_of_bound(wb);
    order::lemma_non_negative(Binary64::of(wb));
    order::lemma_quotient_not_above(Binary64::of(wb), Binary64::of(ws));
    order::lemma_of(year);
    order::lemma_of_bound(year);
    order::lemma_non_negative(Binary64::of(year));
    law_integers_become_numbers(year);
    let (r, v) = (left.number(), rate.number());
    let t = 0x1_0000_0000_0000_0000int;
    // How large and how small these can be.
    let p = rounding::p2(300);
    rounding::lemma_p2_adds(64, 236);
    rounding::lemma_p2_adds(64, 172);
    rounding::lemma_p2_adds(64, 108);
    vstd::arithmetic::power2::lemma2_to64();
    assert(p >= t * t * t) by (nonlinear_arith)
        requires
            p == t * (t * (t * rounding::p2(108))),
            rounding::p2(108) >= 1,
            t > 0,
    ;
    let bytes = pe_cycles * card_bytes;
    assert(1 <= bytes <= t * t) by (nonlinear_arith)
        requires
            bytes == pe_cycles * card_bytes,
            0 < pe_cycles <= t,
            0 < card_bytes <= t,
            t > 0,
    ;
    assert(l <= budget <= l * (t * t)) by (nonlinear_arith)
        requires
            budget == l * bytes,
            1 <= bytes <= t * t,
            l >= 0,
    ;
    assert(200 * r >= l);
    assert(100 * r <= 2 * budget);
    assert(v <= t * one);
    let wo = wb * one;
    assert(wo >= one) by (nonlinear_arith)
        requires
            wo == wb * one,
            wb >= 1,
            one > 0,
    ;
    assert(2 * (v * ws) >= wo);
    assert(2 * t * v >= one) by (nonlinear_arith)
        requires
            2 * (v * ws) >= one,
            0 < ws <= t,
            v > 0,
    ;
    // The seconds.
    let secs = left.quotient(rate);
    assert(r * one <= rounding::p2(1500) * v) by {
        rounding::lemma_p2_adds(1074, 426);
        rounding::lemma_p2_adds(64, 362);
        rounding::lemma_p2_adds(64, 298);
        rounding::lemma_p2_adds(64, 234);
        rounding::lemma_p2_adds(64, 170);
        let w = rounding::p2(426);
        assert(w >= t * t * t * t) by (nonlinear_arith)
            requires
                w == t * (t * (t * (t * rounding::p2(170)))),
                rounding::p2(170) >= 1,
                t > 0,
        ;
        let tt = t * t;
        assert(l * tt <= (100 * one) * tt) by (nonlinear_arith)
            requires
                l <= 100 * one,
                tt >= 0,
        ;
        assert((100 * one) * tt == 100 * (one * tt)) by (nonlinear_arith);
        assert(4 * one * (t * t) == 4 * (one * tt)) by (nonlinear_arith)
            requires
                tt == t * t,
        ;
        assert(one * tt >= 0) by (nonlinear_arith)
            requires
                one > 0,
                tt >= 0,
        ;
        assert(r * one <= (4 * one * (t * t)) * one) by (nonlinear_arith)
            requires
                r <= 4 * one * (t * t),
                one > 0,
        ;
        assert((4 * one * (t * t)) * one <= (4 * one * (t * t)) * (2 * t * v)) by (nonlinear_arith)
            requires
                one <= 2 * t * v,
                4 * one * (t * t) >= 0,
        ;
        assert((4 * one * (t * t)) * (2 * t * v) == (8 * (t * t * t)) * (one * v)) by (nonlinear_arith);
        assert((8 * (t * t * t)) * (one * v) <= w * (one * v)) by (nonlinear_arith)
            requires
                w >= t * t * t * t,
                t == 0x1_0000_0000_0000_0000,
                one * v >= 0,
        ;
        assert(one * v >= 0) by (nonlinear_arith)
            requires
                one > 0,
                v > 0,
        ;
        assert(w * (one * v) == (one * w) * v) by (nonlinear_arith);
    }
    lemma_quotient_is_finite(left, rate);
    assert(0x10_0000_0000_0000 * v <= r * one) by (nonlinear_arith)
        requires
            v <= t * one,
            200 * r >= t * t * t,
            t == 0x1_0000_0000_0000_0000,
            one > 0,
    ;
    assert(wo > 0);
    lemma_quotient_about(left, rate, budget, 100, 17, wo, ws as int, 9);
    let s = secs.number();
    let n = budget * ws;
    let d = 100 * wb;
    assert(s * (100 * wo) == (s * d) * one) by (nonlinear_arith)
        requires
            wo == wb * one,
            d == 100 * wb,
    ;
    lemma_reduced(s * d, n, 31, one);
    // The years.
    let y = secs.quotient(Binary64::of(year));
    order::lemma_quotient_not_above(secs, Binary64::of(year));
    assert(n >= budget) by (nonlinear_arith)
        requires
            n == budget * ws,
            ws >= 1,
            budget >= 0,
    ;
    assert(s * 200 * t >= t * t * t) by (nonlinear_arith)
        requires
            2 * (s * d) >= n,
            n >= t * t * t,
            d == 100 * wb,
            0 < wb <= t,
            s >= 0,
    {
        assert(s * (100 * wb) <= s * (100 * t));
    }
    assert(0x10_0000_0000_0000 * Binary64::of(year).number() <= s * one) by (nonlinear_arith)
        requires
            Binary64::of(year).number() <= t * one,
            s * 200 * t >= t * t * t,
            t == 0x1_0000_0000_0000_0000,
            one > 0,
    {
        assert(s >= 0x10_0000_0000_0000 * t);
    }
    assert(d > 0 && n >= 0);
    lemma_quotient_about(secs, Binary64::of(year), n, d, 31, year * one, 1, 2);
    let u = y.number();
    assert(u * (d * (year * one)) == (u * (d * year)) * one) by (nonlinear_arith);
    assert(n * 1 * one == n * one) by (nonlinear_arith);
    lemma_reduced(u * (d * year), n, 38, one);
    assert(d * year == 100 * wb * 31_557_600);
    let e = d * year;
    if u >= 100 * one {
        assert((100 * one) * e <= u * e) by (nonlinear_arith)
            requires
                u >= 100 * one,
                e > 0,
        ;
    }
}

// ---------------------------------------------------------------------------
// The write amplification
// ---------------------------------------------------------------------------
/// There is something to estimate exactly if there are requests, sectors and a page size.
pub proof fn law_something_to_estimate(delta: WriteDelta, flash_page_bytes: u64)
    ensures
        waf::estimable(delta, flash_page_bytes) <==> !(delta.ios == 0 || delta.sectors == 0
            || flash_page_bytes == 0),
{
}

/// The size of a request is the bytes over the requests.
pub proof fn law_request_size_is_bytes_over_requests(delta: WriteDelta)
    requires
        delta.ios > 0,
        delta.sectors * 512 <= u64::MAX,
    ensures
        about(
            waf::average_request(delta).number() * delta.ios,
            delta.sectors * 512 * binary64::one_in_units(),
            9,
        ),
{
    law_quotient_of_integers((delta.sectors * 512) as u64, delta.ios);
}

/// The size of a request in kilobytes is the whole kilobytes over the requests, and 0 without
/// requests.
pub proof fn law_request_size_in_kilobytes(delta: WriteDelta)
    requires
        delta.sectors * 512 <= u64::MAX,
    ensures
        delta.ios == 0 ==> waf::average_request_kb(delta).number() == 0,
        delta.ios > 0 ==> about(
            waf::average_request_kb(delta).number() * delta.ios,
            (delta.sectors / 2) * binary64::one_in_units(),
            9,
        ),
{
    binary64::law_named_numbers();
    assert((delta.sectors * 512) / 1024 == delta.sectors / 2);
    if delta.ios > 0 {
        law_quotient_of_integers((delta.sectors / 2) as u64, delta.ios);
    }
}

/// The sequential share is the merged requests over all of them, and 0 without any.
pub proof fn law_sequential_share_is_merges_over_all(delta: WriteDelta)
    requires
        delta.ios + delta.merges <= u64::MAX,
    ensures
        delta.ios + delta.merges == 0 ==> waf::sequential_share(delta).number() == 0,
        delta.ios + delta.merges > 0 ==> about(
            waf::sequential_share(delta).number() * (delta.ios + delta.merges),
            delta.merges * binary64::one_in_units(),
            9,
        ),
{
    binary64::law_named_numbers();
    if delta.ios + delta.merges > 0 {
        law_quotient_of_integers(delta.merges, (delta.ios + delta.merges) as u64);
    }
}

/// The amplification by pages is the page size over the size of a request, `page * ios / bytes`,
/// or one, where that is less.
pub proof fn law_page_amplification_is_pages_over_requests(
    delta: WriteDelta,
    flash_page_bytes: u64,
)
    requires
        delta.ios > 0,
        delta.sectors > 0,
        flash_page_bytes > 0,
        delta.sectors * 512 <= u64::MAX,
        delta.ios + delta.merges <= u64::MAX,
    ensures
        ({
            let one = binary64::one_in_units();
            let w = waf::page_amplification(delta, flash_page_bytes).number();
            let bytes = delta.sectors * 512;
            let pages = flash_page_bytes * delta.ios;
            &&& w >= one
            &&& w > one ==> about(w * bytes, pages * one, 16)
            &&& w == one ==> 0x1f_ffff_ffff_fff0 * pages <= 0x20_0000_0000_0000 * bytes
        }),
{
    let one = arithmetic::one() as int;
    let n = (delta.sectors * 512) as u64;
    let page = Binary64::of(flash_page_bytes);
    let request = waf::average_request(delta);
    let ratio = page.quotient(request);
    binary64::law_named_numbers();
    lemma_one_is_large();
    waf::lemma_page_amplification(delta, flash_page_bytes);
    law_quotient_of_integers(n, delta.ios);
    order::lemma_of(n);
    order::lemma_of(delta.ios);
    order::lemma_of_bound(n);
    order::lemma_non_negative(Binary64::of(n));
    order::lemma_quotient_not_above(Binary64::of(n), Binary64::of(delta.ios));
    order::lemma_of(flash_page_bytes);
    law_integers_become_numbers(flash_page_bytes);
    order::lemma_quotient_number(page, request);
    order::lemma_finite(ratio, waf::page_amplification(delta, flash_page_bytes));
    let (p, r) = (page.number(), request.number());
    assert(0x10_0000_0000_0000 * r <= p * one) by (nonlinear_arith)
        requires
            r <= 0x1_0000_0000_0000_0000 * one,
            p >= one,
            one >= 0x100_0000_0000_0000_0000_0000_0000_0000_0000,
    ;
    let (po, no) = (flash_page_bytes * one, n * one);
    assert(po >= 0 && no > 0) by (nonlinear_arith)
        requires
            po == flash_page_bytes * one,
            no == n * one,
            n > 0,
            one > 0,
            flash_page_bytes >= 0,
    ;
    lemma_quotient_about(page, request, po, 1, 2, no, delta.ios as int, 9);
    let q = ratio.number();
    let pages = flash_page_bytes * delta.ios;
    assert(q * (1 * no) == (q * n) * one) by (nonlinear_arith)
        requires
            no == n * one,
    ;
    assert(po * delta.ios * one == (pages * one) * one) by (nonlinear_arith)
        requires
            po == flash_page_bytes * one,
            pages == flash_page_bytes * delta.ios,
    ;
    lemma_reduced(q * n, pages * one, 16, one);
    if q <= one {
        let bytes = n as int;
        assert(q * bytes <= one * bytes) by (nonlinear_arith)
            requires
                q <= one,
                bytes >= 0,
        ;
        assert(0x1f_ffff_ffff_fff0 * (pages * one) <= 0x20_0000_0000_0000 * (one * bytes));
        assert(0x1f_ffff_ffff_fff0 * pages <= 0x20_0000_0000_0000 * bytes) by (nonlinear_arith)
            requires
                0x1f_ffff_ffff_fff0 * (pages * one) <= 0x20_0000_0000_0000 * (one * bytes),
                one > 0,
        ;
    }
}

/// The fill level that garbage collection sees is the fullness without what is held back,
/// `fill * (1 - held)`, up to 4 parts in two to the power of 53, and 0.99 where that is more.
pub proof fn law_effective_fill_is_without_what_is_held_back(
    fill_ratio: Binary64,
    over_provision: Binary64,
)
    requires
        settings::up_to(fill_ratio, waf::unity()),
        settings::up_to(over_provision, waf::unity()),
    ensures
        ({
            let one = binary64::one_in_units();
            let exact = fill_ratio.number() * (one - over_provision.number());
            let fill = waf::effective_fill(fill_ratio, over_provision);
            let tolerance = 4 * (precision::grain() * one);
            &&& 0 <= fill.number()
            &&& fill.number() * one <= exact + tolerance
            &&& fill != waf::max_fill() ==> exact <= fill.number() * one + tolerance
            &&& fill == waf::max_fill() ==> fill.number() * one <= exact + tolerance
        }),
{
    let (one, grain) = (arithmetic::one() as int, precision::grain() as int);
    let random = waf::unity().difference(over_provision);
    let product = fill_ratio.product(random);
    let (f, o, d, p) = (
        fill_ratio.number(),
        over_provision.number(),
        random.number(),
        product.number(),
    );
    binary64::law_named_numbers();
    lemma_one_is_large();
    waf::lemma_max_fill();
    order::lemma_finite(fill_ratio, waf::unity());
    order::lemma_finite(over_provision, waf::unity());
    order::lemma_complement(over_provision, waf::unity());
    order::lemma_product_not_above(random, fill_ratio);
    precision::lemma_difference_near(waf::unity(), over_provision);
    precision::lemma_product_near(fill_ratio, random);
    let go = grain * one;
    let (po, fd, fx) = (p * one, f * d, f * (one - o));
    assert(0 <= fd <= one * one) by (nonlinear_arith)
        requires
            fd == f * d,
            0 <= f <= one,
            0 <= d <= one,
    ;
    assert(one * one == 0x20_0000_0000_0000 * go) by (nonlinear_arith)
        requires
            go == grain * one,
            one == 0x20_0000_0000_0000 * grain,
    ;
    assert(one <= go) by (nonlinear_arith)
        requires
            go == grain * one,
            grain >= 1,
            one > 0,
    ;
    assert(distance(po, fd) <= 2 * go);
    assert(distance(fd, fx) <= 2 * go) by (nonlinear_arith)
        requires
            fd == f * d,
            fx == f * (one - o),
            distance(d, one - o) <= 2 * grain,
            0 <= f <= one,
            go == grain * one,
            grain > 0,
    {
        assert(distance(f * d, f * (one - o)) == f * distance(d, one - o));
        assert(f * distance(d, one - o) <= one * distance(d, one - o));
        assert(one * distance(d, one - o) <= one * (2 * grain));
    }
    let m = waf::max_fill().number();
    assert(product.number() >= 0);
    if p > m {
        assert(m * one <= p * one) by (nonlinear_arith)
            requires
                m <= p,
                one > 0,
        ;
    }
}

/// Garbage collection amplifies by a number between one and 100.
pub(crate) proof fn lemma_collection_number(fill: Binary64)
    requires
        waf::nil().le(fill),
        fill.le(waf::max_fill()),
    ensures
        ({
            let g = waf::unity().quotient(waf::unity().difference(fill));
            &&& order::finite(g)
            &&& arithmetic::one() <= g.number() <= 100 * arithmetic::one()
            &&& order::finite(g.difference(waf::unity()))
        }),
{
    let free = waf::unity().difference(fill);
    let hundred = state::full_life();
    let one = arithmetic::one();
    binary64::law_named_numbers();
    order::lemma_one_positive();
    waf::lemma_free_flash(fill);
    waf::lemma_collection(fill, fill);
    order::lemma_quotient_at_least_one(waf::unity(), free);
    order::lemma_quotient_number(waf::unity(), free);
    order::lemma_non_negative(free);
    order::lemma_non_negative(hundred);
    let u = arithmetic::size(free);
    assert(one * one <= (100 * one) * u) by (nonlinear_arith)
        requires
            100 * u >= one,
    ;
    order::lemma_rounded_bounds(one * one, u, hundred.magnitude());
    order::lemma_units_monotone(rounding::rounded(one * one, u), hundred.magnitude());
    order::lemma_finite(waf::unity().quotient(free), hundred);
}

/// Garbage collection amplifies by one over the free part of the flash: `collection * (1 -
/// fill) = 1`, up to 202 parts in two to the power of 53.
pub proof fn law_collection_is_one_over_the_free_part(
    fill_ratio: Binary64,
    over_provision: Binary64,
)
    requires
        settings::up_to(fill_ratio, waf::unity()),
        settings::up_to(over_provision, waf::unity()),
    ensures
        ({
            let one = binary64::one_in_units() as int;
            let fill = waf::effective_fill(fill_ratio, over_provision).number();
            let collection = waf::collection_amplification(fill_ratio, over_provision).number();
            about(collection * (one - fill), one * one, 202)
        }),
{
    let (one, grain) = (arithmetic::one() as int, precision::grain() as int);
    let fill = waf::effective_fill(fill_ratio, over_provision);
    let free = waf::unity().difference(fill);
    let collection = waf::unity().quotient(free);
    let (f, d, g) = (fill.number(), free.number(), collection.number());
    binary64::law_named_numbers();
    lemma_one_is_large();
    waf::lemma_max_fill();
    order::lemma_finite(fill_ratio, waf::unity());
    waf::law_effective_fill_grows(fill_ratio, fill_ratio, over_provision);
    order::lemma_finite(fill, waf::unity());
    waf::lemma_free_flash(fill);
    lemma_collection_number(fill);
    precision::lemma_difference_near(waf::unity(), fill);
    precision::lemma_quotient_near(waf::unity(), free);
    let go = grain * one;
    let oo = one * one;
    assert(oo == 0x20_0000_0000_0000 * go) by (nonlinear_arith)
        requires
            oo == one * one,
            go == grain * one,
            one == 0x20_0000_0000_0000 * grain,
    ;
    assert(2 * one <= go) by (nonlinear_arith)
        requires
            go == grain * one,
            grain >= 2,
            one > 0,
    ;
    let (gd, gx) = (g * d, g * (one - f));
    assert(distance(gd, oo) <= 2 * go);
    assert(distance(d, one - f) <= 2 * grain);
    assert(distance(gd, gx) <= 200 * go) by (nonlinear_arith)
        requires
            gd == g * d,
            gx == g * (one - f),
            distance(d, one - f) <= 2 * grain,
            0 <= g <= 100 * one,
            go == grain * one,
            grain > 0,
    {
        assert(distance(g * d, g * (one - f)) == g * distance(d, one - f));
        assert(g * distance(d, one - f) <= (100 * one) * distance(d, one - f));
        assert((100 * one) * distance(d, one - f) <= (100 * one) * (2 * grain));
    }
}

/// What is written to flash is what the host wrote times the amplification, without the
/// fraction: not more than that, up to rounding, and less than one byte below it; at most what
/// 64 bits can count.
pub proof fn law_flash_bytes_are_host_bytes_times_amplification(delta: WriteDelta, waf: Binary64)
    requires
        delta.sectors * 512 <= u64::MAX,
        order::finite(waf),
        waf::unity().le(waf),
    ensures
        ({
            let one = binary64::one_in_units();
            let n = waf::flash_bytes(delta, waf);
            let exact = (delta.sectors * 512) * waf.number();
            &&& 0x20_0000_0000_0000 * (n * one) <= 0x20_0000_0000_0006 * exact
            &&& n < u64::MAX ==> 0x1f_ffff_ffff_fffa * exact < 0x20_0000_0000_0000 * ((n + 1)
                * one)
        }),
{
    let one = arithmetic::one() as int;
    let b = (delta.sectors * 512) as u64;
    let host = Binary64::of(b);
    let product = host.product(waf);
    let w = waf.number();
    let (n, u) = (waf::flash_bytes(delta, waf), arithmetic::size(product) as int);
    binary64::law_named_numbers();
    lemma_one_is_large();
    order::lemma_of(b);
    law_integers_become_numbers(b);
    order::lemma_product_number(host, waf);
    order::lemma_non_negative(product);
    let bo = b * one;
    assert(bo >= 0 && (b == 0 ==> bo == 0)) by (nonlinear_arith)
        requires
            bo == b * one,
            one > 0,
            b >= 0,
    ;
    let x = host.number();
    vstd::arithmetic::div_mod::lemma_fundamental_div_mod(u, one);
    vstd::arithmetic::div_mod::lemma_mod_bound(u, one);
    let k = u / one;
    assert(one * k == k * one) by (nonlinear_arith);
    let exact = b * w;
    if b == 0 {
        assert(x * w == 0 && exact == 0) by (nonlinear_arith)
            requires
                x == 0,
                exact == b * w,
                b == 0,
        ;
        order::lemma_non_negative(host);
        order::lemma_non_negative(waf);
        arithmetic::lemma_rounded_zero(arithmetic::one());
        binary64::lemma_units_order(0, 0);
        assert(u == 0);
        vstd::arithmetic::div_mod::lemma_div_of0(one);
        assert(n == 0);
        assert(n * one == 0 && (n + 1) * one == one) by (nonlinear_arith)
            requires
                n == 0,
        ;
    } else {
        assert(0x10_0000_0000_0000 * one <= x * w) by (nonlinear_arith)
            requires
                x >= one,
                w >= one,
                one >= 0x100_0000_0000_0000_0000_0000_0000_0000_0000,
        ;
        if order::finite(product) {
            lemma_product_about(host, waf, bo, 1, 2, w, 1, 0);
            assert(u * (1 * 1 * one) == u * one) by (nonlinear_arith);
            assert(bo * w == exact * one) by (nonlinear_arith)
                requires
                    bo == b * one,
                    exact == b * w,
            ;
            lemma_reduced(u, exact, 6, one);
            assert(exact > 0) by (nonlinear_arith)
                requires
                    exact == b * w,
                    b > 0,
                    w > 0,
            ;
            assert(!product.is_negative());
            if k > u64::MAX {
                assert(n * one <= k * one) by (nonlinear_arith)
                    requires
                        n <= k,
                        one > 0,
                ;
            } else {
                assert(n == k);
                assert((n + 1) * one == n * one + one) by (nonlinear_arith);
            }
        } else {
            lemma_endless_product(host, waf, product, b as int, one, k, n as int);
        }
    }
}

/// A product beyond the numbers is beyond what 64 bits can count.
proof fn lemma_endless_product(
    host: Binary64,
    waf: Binary64,
    product: Binary64,
    b: int,
    one: int,
    k: int,
    n: int,
)
    requires
        product == host.product(waf),
        order::finite(host),
        order::finite(waf),
        order::non_negative(host),
        order::non_negative(waf),
        order::non_negative(product),
        !order::finite(product),
        one == arithmetic::one(),
        b > 0,
        about(host.number(), b * one, 2),
        k == arithmetic::size(product) as int / one,
        n == if k > u64::MAX {
            u64::MAX as int
        } else {
            k
        },
    ensures
        n == u64::MAX,
        0x20_0000_0000_0000 * (n * one) <= 0x20_0000_0000_0006 * (b * waf.number()),
{
    let (x, w) = (host.number(), waf.number());
    let low = order::lemma_representable(1, 1200);
    lemma_one_is_large();
    order::lemma_non_negative(host);
    order::lemma_non_negative(waf);
    order::lemma_product_number(host, waf);
    assert(1 * rounding::p2(1200) == rounding::p2(1200)) by (nonlinear_arith);
    let h = binary64::HIDDEN as nat;
    rounding::lemma_units_form(2046, h);
    vstd::arithmetic::power2::lemma_pow2_strictly_increases(1200, 2046);
    assert(rounding::p2(2046) <= h * rounding::p2(2046)) by (nonlinear_arith)
        requires
            h >= 1,
    ;
    binary64::lemma_units_order(low, binary64::INFINITY as nat);
    let exact = (x * w) as nat;
    assert(x * w >= 0) by (nonlinear_arith)
        requires
            x >= 0,
            w >= 0,
    ;
    // Had the exact product been less than two to the power of 126, it would be a number.
    let p = rounding::p2(1200) as int;
    order::lemma_rounded_bounds(exact, arithmetic::one(), low);
    assert(x * w > p * one);
    rounding::lemma_p2_adds(1074, 126);
    rounding::lemma_p2_adds(64, 62);
    vstd::arithmetic::power2::lemma2_to64();
    vstd::arithmetic::power2::lemma2_to64_rest();
    let t = 0x1_0000_0000_0000_0000int;
    assert(p >= (4 * t) * one) by (nonlinear_arith)
        requires
            p == one * (t * rounding::p2(62)),
            rounding::p2(62) >= 4,
            one > 0,
            t > 0,
    ;
    let bw = b * w;
    assert(x * w <= (2 * one) * bw) by (nonlinear_arith)
        requires
            x <= 2 * (b * one),
            w >= 0,
            bw == b * w,
    {
        assert(x * w <= (2 * (b * one)) * w);
        assert((2 * (b * one)) * w == (2 * one) * (b * w));
    }
    assert(p < 2 * bw) by (nonlinear_arith)
        requires
            p * one < (2 * one) * bw,
            one > 0,
    ;
    assert(n * one <= t * one) by (nonlinear_arith)
        requires
            n <= t,
            one > 0,
    ;
    // And infinity counts as more than can be counted.
    let u = arithmetic::size(product) as int;
    binary64::lemma_units_order(product.magnitude(), binary64::INFINITY as nat);
    assert(u >= p);
    assert((4 * t) * one == 4 * (t * one) && t * one >= 0) by (nonlinear_arith)
        requires
            one > 0,
            t > 0,
    ;
    assert(2 * (n * one) <= bw);
    vstd::arithmetic::div_mod::lemma_div_is_ordered(t * one, u, one);
    vstd::arithmetic::div_mod::lemma_div_by_multiple(t, one);
}

// ---------------------------------------------------------------------------
// The fullness
// ---------------------------------------------------------------------------
/// What is used of a file system is what is not free of it: `used * blocks = blocks - free`, up
/// to rounding, which is less than what there is over two to the power of 48.
pub proof fn law_used_is_what_is_not_free(u: FsUsage)
    requires
        u.blocks > 0,
        u.block_size > 0,
    ensures
        0x1_0000_0000_0000 * distance(
            u.used().number() * u.blocks,
            (u.blocks - u.blocks_free) * binary64::one_in_units(),
        ) <= (u.blocks + u.blocks_free) * binary64::one_in_units(),
{
    let (one, grain) = (arithmetic::one() as int, precision::grain() as int);
    let (free, all) = (u.free(), u.capacity());
    let share = free.quotient(all);
    let (b, f, s) = (u.blocks as int, u.blocks_free as int, u.block_size as int);
    binary64::law_named_numbers();
    lemma_one_is_large();
    order::lemma_product_of(u.blocks, u.block_size);
    order::lemma_product_of(u.blocks_free, u.block_size);
    law_product_of_integers(u.blocks, u.block_size);
    law_product_of_integers(u.blocks_free, u.block_size);
    order::lemma_quotient_not_above(free, all);
    let (bs, fs) = (b * s * one, f * s * one);
    assert(bs > 0 && fs >= 0) by (nonlinear_arith)
        requires
            bs == b * s * one,
            fs == f * s * one,
            b > 0,
            s > 0,
            f >= 0,
            one > 0,
    {
        assert(b * s > 0);
    }
    let t = 0x1_0000_0000_0000_0000int;
    if u.blocks_free > 0 {
        assert(bs <= (t * t) * one) by (nonlinear_arith)
            requires
                bs == b * s * one,
                0 < b <= t,
                0 < s <= t,
                one > 0,
        {
            assert(b * s <= t * t);
        }
        assert(0x10_0000_0000_0000 * all.number() <= free.number() * one) by (nonlinear_arith)
            requires
                all.number() <= 2 * ((t * t) * one),
                free.number() >= one,
                t == 0x1_0000_0000_0000_0000,
                one >= 0x1_0000_0000_0000_0000_0000_0000_0000_0000_0000_0000_0000_0000,
        ;
    } else {
        order::lemma_product_of_nothing(u.blocks_free, u.block_size);
    }
    lemma_quotient_about(free, all, fs, 1, 8, bs, 1, 8);
    let q = share.number();
    let so = s * one;
    assert(so > 0) by (nonlinear_arith)
        requires
            so == s * one,
            s > 0,
            one > 0,
    ;
    assert(q * (1 * bs) == (q * b) * so) by (nonlinear_arith)
        requires
            bs == b * s * one,
            so == s * one,
    ;
    let fo = f * one;
    assert(fs * 1 * one == fo * so) by (nonlinear_arith)
        requires
            fs == f * s * one,
            fo == f * one,
            so == s * one,
    ;
    lemma_reduced(q * b, fo, 21, so);
    // One less that.
    order::lemma_one_less_is_finite(share);
    precision::lemma_difference_near(waf::unity(), share);
    let used = u.used().number();
    let (bo, qb, ub) = (b * one, q * b, used * b);
    let c = one - q;
    assert(0x20_0000_0000_0000 * distance(ub, bo - qb) <= bo + qb + 0x10_0000_0000_0000 * b)
        by (nonlinear_arith)
        requires
            0x20_0000_0000_0000 * distance(used, one - q) <= one + q + 0x10_0000_0000_0000,
            ub == used * b,
            bo == b * one,
            qb == q * b,
            b > 0,
    {
        assert(distance(used * b, (one - q) * b) == distance(used, one - q) * b);
        assert((0x20_0000_0000_0000 * distance(used, one - q)) * b <= (one + q
            + 0x10_0000_0000_0000) * b);
    }
    assert(0x10_0000_0000_0000 * b <= bo) by (nonlinear_arith)
        requires
            bo == b * one,
            one >= 0x10_0000_0000_0000,
            b > 0,
    ;
    assert((b - f) * one == bo - fo && (b + f) * one == bo + fo) by (nonlinear_arith)
        requires
            bo == b * one,
            fo == f * one,
    ;
}

// ---------------------------------------------------------------------------
// Integers and decimals
// ---------------------------------------------------------------------------
/// The integer part of a number is the integer that it exceeds by less than one; a number beyond
/// 64 bits has the largest one, and a negative one, or none at all, has 0.
pub proof fn law_integer_part_is_just_below(x: Binary64)
    ensures
        ({
            let (n, one) = (x.integer_part(), binary64::one_in_units());
            &&& x.is_nan() || x.number() < 0 ==> n == 0
            &&& !x.is_nan() && x.number() >= 0 ==> n * one <= x.number()
            &&& !x.is_nan() && n < u64::MAX ==> x.number() < (n + 1) * one
        }),
{
    let (u, one) = (arithmetic::size(x) as int, arithmetic::one() as int);
    let k = u / one;
    order::lemma_one_positive();
    vstd::arithmetic::div_mod::lemma_fundamental_div_mod(u, one);
    vstd::arithmetic::div_mod::lemma_mod_bound(u, one);
    vstd::arithmetic::div_mod::lemma_div_pos_is_pos(u, one);
    assert(one * k == k * one) by (nonlinear_arith);
    let n = x.integer_part() as int;
    assert(n * one <= k * one || x.is_nan() || x.is_negative()) by {
        if !x.is_nan() && !x.is_negative() {
            assert(n * one <= k * one) by (nonlinear_arith)
                requires
                    n <= k,
                    one > 0,
            ;
        }
    }
    assert((n + 1) * one == n * one + one) by (nonlinear_arith);
    assert(n == 0 ==> n * one == 0) by (nonlinear_arith);
}

/// A number is rounded to a whole number that is no more than a half away, and farther from 0
/// where two are equally near.
pub proof fn law_rounding_goes_to_the_nearest_integer(x: Binary64) -> (m: nat)
    requires
        order::finite(x),
        arithmetic::size(x) <= 0x10_0000_0000_0000 * binary64::one_in_units(),
    ensures
        ({
            let one = binary64::one_in_units() as int;
            let r = x.rounded_to_integer();
            &&& r.number() == if x.is_negative() {
                -(m * one)
            } else {
                m * one
            }
            &&& order::finite(r)
            &&& m * one <= 0x20_0000_0000_0000 * one
            &&& 2 * distance(m * one, arithmetic::size(x) as int) <= one
            &&& 2 * distance(m * one, arithmetic::size(x) as int) == one ==> m * one
                > arithmetic::size(x)
        }),
{
    let (u, one) = (arithmetic::size(x) as int, arithmetic::one() as int);
    let a = 2 * u + one;
    let m = a / (2 * one);
    lemma_one_is_large();
    vstd::arithmetic::div_mod::lemma_fundamental_div_mod(a, 2 * one);
    vstd::arithmetic::div_mod::lemma_mod_bound(a, 2 * one);
    vstd::arithmetic::div_mod::lemma_div_pos_is_pos(a, 2 * one);
    assert((2 * one) * m == 2 * (m * one)) by (nonlinear_arith);
    assert(m <= 0x20_0000_0000_0000) by (nonlinear_arith)
        requires
            2 * (m * one) <= 2 * u + one,
            u <= 0x10_0000_0000_0000 * one,
            one > 0,
    ;
    assert(m * one <= 0x20_0000_0000_0000 * one) by (nonlinear_arith)
        requires
            m <= 0x20_0000_0000_0000,
            one > 0,
    ;
    law_integers_become_numbers(m as u64);
    order::lemma_of(m as u64);
    order::lemma_non_negative(Binary64::of(m as u64));
    order::lemma_rounded_bounds(m as nat * arithmetic::one(), 1, 0);
    m as nat
}

/// The steps from a number to a tenth of an integer.
proof fn lemma_tenths(x: Binary64, factor: u64) -> (m: nat)
    requires
        order::finite(x),
        order::non_negative(x),
        0 < factor <= 1000,
        x.number() <= 0x100_0000_0000 * arithmetic::one(),
    ensures
        ({
            let one = arithmetic::one() as int;
            let r = x.product(Binary64::of(factor)).rounded_to_integer().quotient(
                Binary64::of(10),
            );
            let exact = factor * x.number();
            &&& about(10 * r.number(), m * one, 7)
            &&& 0x4_0000_0000_0000 * (2 * distance(m * one, exact) - one) <= exact + one
        }),
{
    let one = arithmetic::one() as int;
    let (f, ten) = (Binary64::of(factor), Binary64::of(10));
    let p = x.product(f);
    binary64::law_named_numbers();
    lemma_one_is_large();
    order::lemma_of(factor);
    order::lemma_of(10);
    order::lemma_non_negative(x);
    order::lemma_non_negative(f);
    law_integers_become_numbers(factor);
    law_integers_become_numbers(10);
    let v = x.number();
    let exact = factor * v;
    let fo = factor * one;
    assert(exact <= 0x400_0000_0000_0000 * one) by (nonlinear_arith)
        requires
            exact == factor * v,
            0 < factor <= 1000,
            0 <= v <= 0x100_0000_0000 * one,
            one > 0,
    ;
    assert(exact >= 0) by (nonlinear_arith)
        requires
            exact == factor * v,
            factor > 0,
            v >= 0,
    ;
    // The product is finite: it is at most that of two integers.
    let big: u64 = 0x100_0000_0000;
    order::lemma_of(big);
    law_integers_become_numbers(big);
    order::lemma_product_monotone(x, Binary64::of(big), f);
    order::lemma_product_of(big, factor);
    order::lemma_product_number(x, f);
    order::lemma_finite(p, Binary64::of(big).product(f));
    precision::lemma_product_near(x, f);
    let q = p.number();
    assert(v * fo == exact * one) by (nonlinear_arith)
        requires
            fo == factor * one,
            exact == factor * v,
    ;
    lemma_near_reduced(q, exact, one);
    order::lemma_non_negative(p);
    assert(arithmetic::size(p) <= 0x10_0000_0000_0000 * one) by {
        assert(exact <= 0x3e8 * (0x100_0000_0000 * one)) by (nonlinear_arith)
            requires
                exact == factor * v,
                0 < factor <= 1000,
                0 <= v <= 0x100_0000_0000 * one,
                one > 0,
        ;
    }
    let m = law_rounding_goes_to_the_nearest_integer(p);
    let r = p.rounded_to_integer();
    // A tenth of that.
    let mo = m * one;
    assert(mo >= 0 && (m == 0 ==> mo == 0) && (m > 0 ==> mo >= one)) by (nonlinear_arith)
        requires
            mo == m * one,
            one > 0,
            m >= 0,
    ;
    assert(p.is_negative() ==> q == 0);
    assert(r.number() == mo);
    assert(!r.is_nan());
    order::lemma_quotient_not_above(r, ten);
    assert(m > 0 ==> 0x10_0000_0000_0000 * ten.number() <= r.number() * one) by (nonlinear_arith)
        requires
            ten.number() == 10 * one,
            m > 0 ==> r.number() >= one,
            one >= 0x100_0000_0000_0000_0000_0000_0000_0000_0000,
    ;
    lemma_quotient_about(r, ten, mo, 1, 0, 10 * one, 1, 2);
    let t = r.quotient(ten).number();
    assert(t * (1 * (10 * one)) == (10 * t) * one) by (nonlinear_arith);
    assert(mo * 1 * one == mo * one) by (nonlinear_arith);
    lemma_reduced(10 * t, mo, 7, one);
    m
}

proof fn lemma_near_reduced(r: int, n: int, k: int)
    requires
        near(r, n * k, k),
        k > 0,
        n >= 0,
    ensures
        0x20_0000_0000_0000 * distance(r, n) <= n + 0x10_0000_0000_0000,
{
    assert(distance(r * k, n * k) == distance(r, n) * k && distance(n * k, 0) == n * k)
        by (nonlinear_arith)
        requires
            k > 0,
            n >= 0,
    ;
    let d = distance(r, n);
    assert(0x20_0000_0000_0000 * d <= n + 0x10_0000_0000_0000) by (nonlinear_arith)
        requires
            0x20_0000_0000_0000 * (d * k) <= n * k + 0x10_0000_0000_0000 * k,
            k > 0,
    ;
}

/// A fraction as a percentage with one decimal is a whole number of tenths, the nearest one to a
/// thousand times the fraction, up to rounding.
pub proof fn law_percentage_has_one_decimal(fraction: Binary64) -> (tenths: nat)
    requires
        settings::up_to(fraction, waf::unity()),
    ensures
        ({
            let one = binary64::one_in_units() as int;
            let exact = 1000 * fraction.number();
            &&& about(
                10 * state::percent_to_one_decimal(fraction).number(),
                tenths * one,
                7,
            )
            &&& 0x4_0000_0000_0000 * (2 * distance(tenths * one, exact) - one) <= exact + one
        }),
{
    binary64::law_named_numbers();
    order::lemma_one_positive();
    order::lemma_finite(fraction, waf::unity());
    lemma_tenths(fraction, 1000)
}

/// The size of a card in gigabytes is described as a whole number of tenths, the nearest one, up
/// to rounding.
pub proof fn law_gigabytes_have_one_decimal(card_bytes: u64) -> (tenths: nat)
    ensures
        ({
            let one = binary64::one_in_units() as int;
            let exact = 10 * card::gigabytes(card_bytes).number();
            &&& about(
                10 * card::to_one_decimal(card::gigabytes(card_bytes)).number(),
                tenths * one,
                7,
            )
            &&& 0x4_0000_0000_0000 * (2 * distance(tenths * one, exact) - one) <= exact + one
        }),
{
    let one = arithmetic::one() as int;
    let g = card::gigabytes(card_bytes).number();
    lemma_one_is_large();
    law_quotient_of_integers(card_bytes, 1_073_741_824);
    let v = card_bytes * one;
    assert(v <= 0x1_0000_0000_0000_0000 * one) by (nonlinear_arith)
        requires
            v == card_bytes * one,
            card_bytes <= 0x1_0000_0000_0000_0000,
            one > 0,
    ;
    assert(g <= 0x100_0000_0000 * one);
    lemma_tenths(card::gigabytes(card_bytes), 10)
}

/// The fullness that is recorded, and that is saved, is that of the fullest file system.
pub proof fn law_recorded_fullness_is_that_of_the_moment(
    state: StateModel,
    delta: WriteDelta,
    now: crate::kernel::KernelStats,
    fullness: Binary64,
    flash_bytes: u64,
    card_bytes: u64,
    pe_cycles: u64,
    stamp: Seq<char>,
    card: crate::state::CardDescription,
    usage: Seq<FsUsage>,
)
    ensures
        state.recorded(
            delta,
            now,
            fullness,
            flash_bytes,
            card_bytes,
            pe_cycles,
            stamp,
        ).filesystem_fullness_pct == state::percent_to_one_decimal(fullness),
        state.prepared(card, usage, stamp).filesystem_fullness_pct
            == state::percent_to_one_decimal(crate::fullness::fullest(usage)),
{
}

} // verus!
