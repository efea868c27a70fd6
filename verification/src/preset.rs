//! What a health that the user gives stands for: the wear that it implies leads back to it.

use vstd::prelude::*;
use crate::arithmetic;
use crate::binary64;
use crate::binary64::Binary64;
use crate::order;
use crate::precision;
use crate::precision::{distance, near};
use crate::rounding;
use crate::settings;
use crate::state;
use crate::state::StateModel;

verus! {

/// What is near is near still when a common factor is taken out.
proof fn lemma_reduced(r: int, n: int, d: int, k: int)
    requires
        k > 0,
        near(r, n * k, d * k),
    ensures
        near(r, n, d),
{
    let h = 0x10_0000_0000_0000int;
    assert(r * (d * k) == (r * d) * k) by (nonlinear_arith);
    let x = r * d;
    assert(distance(x * k, n * k) == distance(x, n) * k) by (nonlinear_arith)
        requires
            k > 0,
    ;
    assert(distance(n * k, 0) == distance(n, 0) * k) by (nonlinear_arith)
        requires
            k > 0,
    ;
    let (a, b) = (2 * h * distance(x, n), distance(n, 0) + h * d);
    assert(2 * h * (distance(x, n) * k) == a * k) by (nonlinear_arith)
        requires
            a == 2 * h * distance(x, n),
    ;
    assert(distance(n, 0) * k + h * (d * k) == b * k) by (nonlinear_arith)
        requires
            b == distance(n, 0) + h * d,
    ;
    assert(a <= b) by (nonlinear_arith)
        requires
            a * k <= b * k,
            k > 0,
    ;
}

/// The steps from a health to the cycles that it implies, each near the exact one.
proof fn lemma_implied_steps(
    health: int,
    share: int,
    used: int,
    cycles: int,
    rated: int,
    one: int,
    grain: int,
)
    requires
        one == 0x20_0000_0000_0000 * grain,
        grain > 0x40_0000_0000_0000,
        rated >= one,
        0 <= health <= 100 * one,
        0 <= share <= one,
        0 <= used <= one,
        near(share, health * one, 100 * one),
        near(used, one - share, 1),
        near(cycles, used * rated, one),
    ensures
        distance(100 * (one * rated - cycles * one), health * rated) <= 501 * (grain * rated),
{
    let z = grain * rated;
    lemma_reduced(share, health, 100, one);
    assert(distance(share * 100, health) <= 101 * grain);
    assert(distance(used, one - share) <= 2 * grain);
    let (t, w, q, o) = (cycles * one, used * rated, share * rated, one * rated);
    assert(o == 0x20_0000_0000_0000 * z) by (nonlinear_arith)
        requires
            o == one * rated,
            one == 0x20_0000_0000_0000 * grain,
            z == grain * rated,
    ;
    assert(0 <= w <= o) by (nonlinear_arith)
        requires
            w == used * rated,
            o == one * rated,
            0 <= used <= one,
            rated >= 0,
    ;
    assert(one <= z) by (nonlinear_arith)
        requires
            z == grain * rated,
            grain >= 1,
            rated >= one,
            one >= 0,
    ;
    assert(distance(t, w) <= 2 * z);
    assert(distance(w, o - q) <= 2 * z) by (nonlinear_arith)
        requires
            distance(used, one - share) <= 2 * grain,
            w == used * rated,
            o == one * rated,
            q == share * rated,
            z == grain * rated,
            rated >= 0,
    ;
    assert(distance(q * 100, health * rated) <= 101 * z) by (nonlinear_arith)
        requires
            distance(share * 100, health) <= 101 * grain,
            q == share * rated,
            z == grain * rated,
            rated >= 0,
    ;
}

/// The first steps from cycles to the life that they leave, each near the exact one.
proof fn lemma_left_steps(cycles: int, share: int, left: int, rated: int, one: int, grain: int)
    requires
        one == 0x20_0000_0000_0000 * grain,
        grain > 0x40_0000_0000_0000,
        rated >= one,
        0 <= cycles <= 2 * rated,
        0 <= share,
        near(share, cycles * one, rated),
        near(left, one - share, 1),
    ensures
        distance(share * rated, cycles * one) <= 3 * (grain * rated),
        distance(left, one - share) <= 3 * grain,
        distance(left, 0) <= 3 * one,
{
    let z = grain * rated;
    let (c, s, o) = (cycles * one, share * rated, one * rated);
    assert(o == 0x20_0000_0000_0000 * z) by (nonlinear_arith)
        requires
            o == one * rated,
            one == 0x20_0000_0000_0000 * grain,
            z == grain * rated,
    ;
    assert(0 <= c <= 2 * o) by (nonlinear_arith)
        requires
            c == cycles * one,
            o == one * rated,
            0 <= cycles <= 2 * rated,
            one >= 0,
    ;
    assert(rated <= z) by (nonlinear_arith)
        requires
            z == grain * rated,
            grain >= 1,
            rated >= 0,
    ;
    assert(share <= 0x40_0000_0000_0003 * grain) by (nonlinear_arith)
        requires
            share * rated <= 0x40_0000_0000_0003 * (grain * rated),
            rated > 0,
    ;
}

/// The steps from cycles to the life that they leave, before it is cut off, each near the
/// exact one.
proof fn lemma_life_steps(
    cycles: int,
    share: int,
    left: int,
    life: int,
    rated: int,
    one: int,
    grain: int,
)
    requires
        one == 0x20_0000_0000_0000 * grain,
        grain > 0x40_0000_0000_0000,
        rated >= one,
        0 <= cycles <= 2 * rated,
        0 <= share,
        near(share, cycles * one, rated),
        near(left, one - share, 1),
        near(life, left * (100 * one), one),
    ensures
        distance(life * rated, 100 * (one * rated - cycles * one)) <= 901 * (grain * rated),
{
    let z = grain * rated;
    let (c, s, o) = (cycles * one, share * rated, one * rated);
    lemma_left_steps(cycles, share, left, rated, one, grain);
    assert(left * (100 * one) == (100 * left) * one) by (nonlinear_arith);
    lemma_reduced(life, 100 * left, 1, one);
    assert(distance(life, 100 * left) <= 301 * grain);
    assert(distance(life * rated, 100 * (o - s)) <= 601 * z) by (nonlinear_arith)
        requires
            distance(life, 100 * (one - share)) <= 601 * grain,
            o == one * rated,
            s == share * rated,
            z == grain * rated,
            rated >= 0,
    ;
}

/// The steps from cycles to the bytes that they stand for, and back, each near the exact one.
proof fn lemma_bytes_steps(
    cycles: int,
    product: int,
    bytes: int,
    number: int,
    average: int,
    card: int,
    rated: int,
    one: int,
    grain: int,
)
    requires
        one == 0x20_0000_0000_0000 * grain,
        grain > 0x40_0000_0000_0000,
        rated >= one,
        card >= one,
        0 <= cycles <= rated,
        0 <= bytes,
        0 <= product - bytes * one < one,
        near(product, cycles * card, one),
        near(number, bytes * one, 1),
        near(average, number * one, card),
        0 <= number,
        0 <= average,
    ensures
        0x20_0000_0000_0000 * distance(average * card, cycles * card) <= 9 * (rated * card)
            + 0x20_0000_0000_0000 * (one * one),
        average <= 2 * rated,
{
    let x = rated * card;
    let (ic, fo, lo, go, ac) = (
        cycles * card,
        product * one,
        bytes * one,
        number * one,
        average * card,
    );
    let loo = lo * one;
    assert(0 <= ic <= x) by (nonlinear_arith)
        requires
            ic == cycles * card,
            x == rated * card,
            0 <= cycles <= rated,
            card >= 0,
    ;
    assert(0 <= fo - loo <= one * one) by (nonlinear_arith)
        requires
            fo == product * one,
            loo == lo * one,
            0 <= product - lo < one,
    ;
    assert(lo >= 0) by (nonlinear_arith)
        requires
            lo == bytes * one,
            bytes >= 0,
            one >= 0,
    ;
    assert(0x20_0000_0000_0000 * distance(go, loo) <= loo + 0x10_0000_0000_0000 * one)
        by (nonlinear_arith)
        requires
            0x20_0000_0000_0000 * distance(number, lo) <= lo + 0x10_0000_0000_0000,
            go == number * one,
            loo == lo * one,
            one >= 0,
    ;
    assert(go >= 0) by (nonlinear_arith)
        requires
            go == number * one,
            number >= 0,
            one >= 0,
    ;
    assert(0x80_0000_0000_0000 * one <= x && 0x20_0000_0000_0000 * card <= x) by (nonlinear_arith)
        requires
            x == rated * card,
            rated >= one,
            card >= one,
            one >= 0x80_0000_0000_0000,
    ;
    assert(ac <= 2 * x);
    assert(average <= 2 * rated) by (nonlinear_arith)
        requires
            average * card <= 2 * (rated * card),
            card > 0,
    ;
}

/// A health between 0 and 100 percent implies cycles up to the rated ones, which are near the
/// exact ones.
proof fn lemma_implied(health: Binary64, pe_cycles: u64)
    requires
        settings::up_to(health, state::full_life()),
        pe_cycles > 0,
    ensures
        ({
            let cycles = state::implied_cycles(health, pe_cycles);
            let rated = Binary64::of(pe_cycles);
            let one = arithmetic::one();
            &&& order::finite(cycles)
            &&& order::non_negative(cycles)
            &&& cycles.le(rated)
            &&& distance(
                100 * (one * rated.number() - cycles.number() * one),
                health.number() * rated.number(),
            ) <= 501 * (precision::grain() * rated.number())
        }),
{
    let one = Binary64 { bits: binary64::ONE };
    let hundred = state::full_life();
    let rated = Binary64::of(pe_cycles);
    let share = health.quotient(hundred);
    let used = one.difference(share);
    let cycles = used.product(rated);
    binary64::law_named_numbers();
    order::lemma_one_positive();
    precision::lemma_grain();
    order::lemma_of(pe_cycles);
    order::lemma_finite(health, hundred);
    order::lemma_quotient_at_most_one(health, hundred);
    order::lemma_finite(share, one);
    order::lemma_complement(share, one);
    order::lemma_product_not_above(rated, used);
    precision::lemma_quotient_near(health, hundred);
    precision::lemma_difference_near(one, share);
    precision::lemma_product_near(used, rated);
    lemma_implied_steps(
        health.number(),
        share.number(),
        used.number(),
        cycles.number(),
        rated.number(),
        arithmetic::one() as int,
        precision::grain() as int,
    );
}

/// What lies in a range is not farther from what is cut off than from what is not.
proof fn lemma_clamped_is_nearer(x: Binary64, low: Binary64, high: Binary64, target: int)
    requires
        !x.is_nan(),
        !low.is_nan(),
        !high.is_nan(),
        low.number() <= target <= high.number(),
    ensures
        distance(x.clamped(low, high).number(), target) <= distance(x.number(), target),
{
}

/// The life that cycles leave is near the exact one, as seen from a health between 0 and 100
/// percent.
proof fn lemma_life(cycles: Binary64, pe_cycles: u64, health: int)
    requires
        pe_cycles > 0,
        order::finite(cycles),
        order::non_negative(cycles),
        cycles.number() <= 2 * Binary64::of(pe_cycles).number(),
        0 <= health <= 100 * arithmetic::one(),
    ensures
        ({
            let life = state::remaining_life(cycles, pe_cycles);
            let rated = Binary64::of(pe_cycles).number();
            let one = arithmetic::one();
            distance(life.number(), health) * rated <= distance(
                100 * (one * rated - cycles.number() * one),
                health * rated,
            ) + 901 * (precision::grain() * rated)
        }),
{
    let zero = Binary64 { bits: binary64::ZERO };
    let one = Binary64 { bits: binary64::ONE };
    let hundred = state::full_life();
    let rated = Binary64::of(pe_cycles);
    let share = cycles.quotient(rated);
    let left = one.difference(share);
    let uncut = left.product(hundred);
    let unit = arithmetic::one();
    binary64::law_named_numbers();
    order::lemma_one_positive();
    precision::lemma_grain();
    order::lemma_of(pe_cycles);
    order::lemma_quotient_not_above(cycles, rated);
    order::lemma_one_less_is_finite(share);
    precision::lemma_quotient_near(cycles, rated);
    precision::lemma_difference_near(one, share);
    lemma_left_steps(
        cycles.number(),
        share.number(),
        left.number(),
        rated.number(),
        unit as int,
        precision::grain() as int,
    );
    // A hundred times what is left is no more than 1000.
    order::lemma_non_negative(hundred);
    order::lemma_product_signed(left, hundred);
    order::lemma_of(1000);
    vstd::arithmetic::power2::lemma2_to64();
    assert(rounding::p2(0) == 1);
    order::lemma_of_exact(1000, 0);
    let (ul, uh) = (arithmetic::size(left), arithmetic::size(hundred));
    let limit = Binary64::of(1000);
    assert(ul * uh <= arithmetic::size(limit) * unit) by (nonlinear_arith)
        requires
            ul <= 3 * unit,
            uh == 100 * unit,
            arithmetic::size(limit) == 1000 * unit,
    ;
    order::lemma_rounded_bounds(ul * uh, unit, limit.magnitude());
    assert(order::finite(uncut));
    precision::lemma_product_near(left, hundred);
    lemma_life_steps(
        cycles.number(),
        share.number(),
        left.number(),
        uncut.number(),
        rated.number(),
        unit as int,
        precision::grain() as int,
    );
    lemma_clamped_is_nearer(uncut, zero, hundred, health);
    let (life, p) = (uncut.clamped(zero, hundred).number(), rated.number());
    assert(distance(life, health) * p <= distance(uncut.number() * p, health * p))
        by (nonlinear_arith)
        requires
            distance(life, health) <= distance(uncut.number(), health),
            p > 0,
    ;
}

/// The cycles that a health implies leave just that health, as far as rounding lets them: the
/// two differ by less than two to the power of -41 percent.
pub proof fn law_implied_cycles_leave_the_health(health: Binary64, pe_cycles: u64)
    requires
        settings::up_to(health, state::full_life()),
        pe_cycles > 0,
    ensures
        0x200_0000_0000 * distance(
            state::remaining_life(
                state::implied_cycles(health, pe_cycles),
                pe_cycles,
            ).number(),
            health.number(),
        ) < binary64::one_in_units(),
{
    let cycles = state::implied_cycles(health, pe_cycles);
    let p = Binary64::of(pe_cycles).number();
    binary64::law_named_numbers();
    order::lemma_one_positive();
    precision::lemma_grain();
    order::lemma_of(pe_cycles);
    lemma_implied(health, pe_cycles);
    lemma_life(cycles, pe_cycles, health.number());
    let d = distance(state::remaining_life(cycles, pe_cycles).number(), health.number());
    assert(d <= 1402 * precision::grain()) by (nonlinear_arith)
        requires
            d * p <= 1402 * (precision::grain() * p),
            p > 0,
    ;
}

/// A number that is not negative less its integer part is less than one, where the integer
/// part can be counted.
proof fn lemma_integer_part(a: Binary64)
    requires
        order::non_negative(a),
        arithmetic::size(a) / arithmetic::one() <= u64::MAX,
    ensures
        0 <= a.number() - a.integer_part() * arithmetic::one() < arithmetic::one(),
{
    let (u, one) = (arithmetic::size(a) as int, arithmetic::one() as int);
    order::lemma_one_positive();
    order::lemma_non_negative(a);
    vstd::arithmetic::div_mod::lemma_fundamental_div_mod(u, one);
    vstd::arithmetic::div_mod::lemma_mod_bound(u, one);
    if a.is_negative() {
        vstd::arithmetic::div_mod::lemma_div_of0(one);
    }
    assert(one * (u / one) == (u / one) * one) by (nonlinear_arith);
}

/// The number nearest to an integer is not less than three quarters of it.
proof fn lemma_of_not_small(n: u64)
    requires
        n > 0,
    ensures
        4 * Binary64::of(n).number() >= 3 * (n * arithmetic::one()),
{
    let v = n * arithmetic::one();
    order::lemma_one_positive();
    precision::lemma_grain();
    precision::lemma_of_near(n);
    assert(v >= arithmetic::one()) by (nonlinear_arith)
        requires
            v == n * arithmetic::one(),
            n >= 1,
    ;
}

/// From a distance over cycles and bytes to one in percent.
proof fn lemma_per_byte(d: int, p: int, c: int, pe: int, card: int, one: int, grain: int)
    requires
        d >= 0,
        pe > 0,
        card > 0,
        one == 0x20_0000_0000_0000 * grain,
        grain > 0x40_0000_0000_0000,
        p >= one,
        c >= one,
        4 * p >= 3 * (pe * one),
        4 * c >= 3 * (card * one),
        d * (p * c) <= 2302 * grain * (p * c) + 100 * (one * one * one),
    ensures
        d <= one / 0x200_0000_0000 + 200 * one / (pe * card),
{
    let n = pe * card;
    let x = p * c;
    let k = d - 2302 * grain;
    let oo = one * one;
    assert(oo > 0) by (nonlinear_arith)
        requires
            oo == one * one,
            one > 0,
    ;
    assert(n > 0) by (nonlinear_arith)
        requires
            n == pe * card,
            pe > 0,
            card > 0,
    ;
    assert(16 * x >= 9 * (n * oo)) by (nonlinear_arith)
        requires
            4 * p >= 3 * (pe * one),
            4 * c >= 3 * (card * one),
            pe * one >= 0,
            card * one >= 0,
            x == p * c,
            n == pe * card,
            oo == one * one,
    {
        assert((4 * p) * (4 * c) >= (3 * (pe * one)) * (3 * (card * one)));
        assert((3 * (pe * one)) * (3 * (card * one)) == 9 * ((pe * card) * (one * one)));
    }
    assert(k * x <= 100 * (oo * one)) by (nonlinear_arith)
        requires
            d * x <= 2302 * grain * x + 100 * (one * one * one),
            k == d - 2302 * grain,
            oo == one * one,
    ;
    if k > 0 {
        assert(9 * (k * n) <= 1600 * one) by (nonlinear_arith)
            requires
                k > 0,
                k * x <= 100 * (oo * one),
                16 * x >= 9 * (n * oo),
                oo > 0,
        {
            assert(k * (16 * x) >= k * (9 * (n * oo)));
            assert(k * (16 * x) == 16 * (k * x));
            assert(k * (9 * (n * oo)) == (9 * (k * n)) * oo);
            assert((9 * (k * n)) * oo <= (1600 * one) * oo);
        }
        let q = 200 * one / n;
        vstd::arithmetic::div_mod::lemma_fundamental_div_mod(200 * one, n);
        vstd::arithmetic::div_mod::lemma_mod_bound(200 * one, n);
        assert(k <= q + 1) by (nonlinear_arith)
            requires
                9 * (k * n) <= 1600 * one,
                200 * one < n * q + n,
                n > 0,
                one > 0,
        {
            if k > q + 1 {
                assert(k * n >= (q + 1) * n);
                assert((q + 1) * n == n * q + n);
            }
        }
    } else {
        vstd::arithmetic::div_mod::lemma_div_pos_is_pos(200 * one, n);
    }
}

/// The distances of the single steps, put together.
proof fn lemma_joined(d: int, i: int, a: int, p: int, c: int, h: int, one: int, grain: int)
    requires
        one == 0x20_0000_0000_0000 * grain,
        grain > 0,
        p > 0,
        c > 0,
        distance(100 * (one * p - i * one), h * p) <= 501 * (grain * p),
        d * p <= distance(100 * (one * p - a * one), h * p) + 901 * (grain * p),
        0x20_0000_0000_0000 * distance(a * c, i * c) <= 9 * (p * c) + 0x20_0000_0000_0000 * (one
            * one),
    ensures
        d * (p * c) <= 2302 * grain * (p * c) + 100 * (one * one * one),
{
    let z = grain * p;
    let x = p * c;
    let m = distance(a, i) * one;
    assert(distance(100 * (one * p - a * one), 100 * (one * p - i * one)) == 100 * m)
        by (nonlinear_arith)
        requires
            m == distance(a, i) * one,
            one > 0,
    ;
    assert(d * p <= 100 * m + 1402 * z);
    assert((d * p) * c <= (100 * m + 1402 * z) * c) by (nonlinear_arith)
        requires
            d * p <= 100 * m + 1402 * z,
            c > 0,
    ;
    assert(distance(a * c, i * c) == distance(a, i) * c) by (nonlinear_arith)
        requires
            c > 0,
    ;
    let w = distance(a, i) * c;
    let oo = one * one;
    assert(m * c == grain * (0x20_0000_0000_0000 * w)) by (nonlinear_arith)
        requires
            m == distance(a, i) * one,
            w == distance(a, i) * c,
            one == 0x20_0000_0000_0000 * grain,
    ;
    assert(grain * (0x20_0000_0000_0000 * w) <= grain * (9 * x + 0x20_0000_0000_0000 * oo))
        by (nonlinear_arith)
        requires
            0x20_0000_0000_0000 * w <= 9 * x + 0x20_0000_0000_0000 * oo,
            grain > 0,
    ;
    assert(grain * (9 * x + 0x20_0000_0000_0000 * oo) == 9 * (grain * x) + one * oo)
        by (nonlinear_arith)
        requires
            one == 0x20_0000_0000_0000 * grain,
    ;
    assert((100 * m + 1402 * z) * c == 100 * (m * c) + 1402 * (grain * x)) by (nonlinear_arith)
        requires
            z == grain * p,
            x == p * c,
    ;
    assert((d * p) * c == d * x) by (nonlinear_arith)
        requires
            x == p * c,
    ;
    assert(2302 * grain * x == 2302 * (grain * x)) by (nonlinear_arith);
    assert(one * oo == one * one * one) by (nonlinear_arith)
        requires
            oo == one * one,
    ;
}

/// The wear that a preset health implies is consistent with it: the life that is computed
/// from the bytes in the state is that health again, up to what rounding can cause (less than
/// two to the power of -41 percent) and to what two bytes take of the life. This holds where
/// the bytes can be counted in 64 bits.
pub proof fn law_preset_health_is_consistent(
    state: StateModel,
    health: Binary64,
    pe_cycles: u64,
    card_bytes: u64,
)
    requires
        settings::up_to(health, state::full_life()),
        pe_cycles > 0,
        card_bytes > 0,
        arithmetic::size(
            state::implied_cycles(health, pe_cycles).product(Binary64::of(card_bytes)),
        ) / binary64::one_in_units() <= u64::MAX,
    ensures
        ({
            let preset = state.with_health(health, pe_cycles, card_bytes);
            let life = state::remaining_life(
                state::average_cycles(preset.estimated_flash_bytes_written, card_bytes),
                pe_cycles,
            );
            let one = binary64::one_in_units() as int;
            distance(life.number(), health.number()) <= one / 0x200_0000_0000 + 200 * one / (
            pe_cycles * card_bytes)
        }),
{
    let (one, grain) = (arithmetic::one() as int, precision::grain() as int);
    let cycles = state::implied_cycles(health, pe_cycles);
    let (rated, card) = (Binary64::of(pe_cycles), Binary64::of(card_bytes));
    let product = cycles.product(card);
    let bytes = product.integer_part();
    let average = state::average_cycles(bytes, card_bytes);
    binary64::law_named_numbers();
    order::lemma_one_positive();
    precision::lemma_grain();
    order::lemma_of(pe_cycles);
    order::lemma_of(card_bytes);
    order::lemma_of(bytes);
    lemma_implied(health, pe_cycles);
    // The bytes.
    order::lemma_product_of(pe_cycles, card_bytes);
    order::lemma_product_monotone(cycles, rated, card);
    order::lemma_product_number(cycles, card);
    order::lemma_finite(product, rated.product(card));
    precision::lemma_product_near(cycles, card);
    lemma_integer_part(product);
    precision::lemma_of_near(bytes);
    // Back to cycles.
    order::lemma_quotient_not_above(Binary64::of(bytes), card);
    precision::lemma_quotient_near(Binary64::of(bytes), card);
    let (i, a, p, c) = (cycles.number(), average.number(), rated.number(), card.number());
    lemma_bytes_steps(
        i,
        product.number(),
        bytes as int,
        Binary64::of(bytes).number(),
        a,
        c,
        p,
        one,
        grain,
    );
    // And to the life.
    let h = health.number();
    lemma_life(average, pe_cycles, h);
    let d = distance(state::remaining_life(average, pe_cycles).number(), h);
    lemma_joined(d, i, a, p, c, h, one, grain);
    lemma_of_not_small(pe_cycles);
    lemma_of_not_small(card_bytes);
    lemma_per_byte(d, p, c, pe_cycles as int, card_bytes as int, one, grain);
}

/// A lower health is more wear: it implies no fewer cycles and no fewer bytes.
pub proof fn law_lower_health_is_more_wear(
    state: StateModel,
    health: Binary64,
    better: Binary64,
    pe_cycles: u64,
    card_bytes: u64,
)
    requires
        settings::up_to(health, state::full_life()),
        settings::up_to(better, state::full_life()),
        health.le(better),
    ensures
        state::implied_cycles(better, pe_cycles).le(state::implied_cycles(health, pe_cycles)),
        state.with_health(better, pe_cycles, card_bytes).estimated_flash_bytes_written
            <= state.with_health(health, pe_cycles, card_bytes).estimated_flash_bytes_written,
{
    let one = Binary64 { bits: binary64::ONE };
    let hundred = state::full_life();
    let rated = Binary64::of(pe_cycles);
    let card = Binary64::of(card_bytes);
    let (s1, s2) = (health.quotient(hundred), better.quotient(hundred));
    let (c1, c2) = (
        state::implied_cycles(health, pe_cycles),
        state::implied_cycles(better, pe_cycles),
    );
    binary64::law_named_numbers();
    order::lemma_one_positive();
    order::lemma_of(pe_cycles);
    order::lemma_of(card_bytes);
    order::lemma_finite(better, hundred);
    order::lemma_quotient_monotone(health, better, hundred);
    order::lemma_quotient_at_most_one(health, hundred);
    order::lemma_quotient_at_most_one(better, hundred);
    order::lemma_complement(s1, one);
    order::lemma_complement(s2, one);
    order::lemma_difference_antitone(one, s1, s2);
    order::lemma_product_monotone(one.difference(s2), one.difference(s1), rated);
    order::lemma_product_not_above(rated, one.difference(s1));
    order::lemma_product_not_above(rated, one.difference(s2));
    order::lemma_product_monotone(c2, c1, card);
    order::lemma_product_number(c2, card);
    order::lemma_integer_part_monotone(c2.product(card), c1.product(card));
}

/// From the rated cycles as a number to the rated cycles.
proof fn lemma_rated_steps(
    life: int,
    cycles: int,
    p: int,
    pe: int,
    h: int,
    one: int,
    grain: int,
)
    requires
        one == 0x20_0000_0000_0000 * grain,
        grain > 0x40_0000_0000_0000,
        pe > 0,
        p > 0,
        0 <= cycles <= p,
        near(p, pe * one, 1),
        0 <= 100 * (one * p - cycles * one) - h * p < p,
        distance(life, h) * p <= distance(100 * (one * p - cycles * one), h * p) + 901 * (grain
            * p),
    ensures
        0x200_0000_0000 * distance(life * pe, 100 * (pe * one - cycles)) <= pe * one,
{
    let (po, g, z) = (pe * one, grain * pe, grain * p);
    let x = 100 * (one * p - cycles * one);
    assert(po == 0x20_0000_0000_0000 * g) by (nonlinear_arith)
        requires
            po == pe * one,
            g == grain * pe,
            one == 0x20_0000_0000_0000 * grain,
    ;
    assert(g >= grain) by (nonlinear_arith)
        requires
            g == grain * pe,
            pe >= 1,
            grain > 0,
    ;
    assert(distance(p, po) <= 2 * g);
    assert(p <= z && 2 * p <= z) by (nonlinear_arith)
        requires
            z == grain * p,
            grain >= 2,
            p > 0,
    ;
    let lp = life * p;
    assert(distance(lp, h * p) == distance(life, h) * p) by (nonlinear_arith)
        requires
            lp == life * p,
            p > 0,
    ;
    assert(distance(lp, x) <= 903 * z);
    // The life is not far from its range.
    let op = one * p;
    assert(0 <= x <= 100 * op) by (nonlinear_arith)
        requires
            x == 100 * (one * p - cycles * one),
            op == one * p,
            0 <= cycles <= p,
            one > 0,
    ;
    assert(op == 0x20_0000_0000_0000 * z) by (nonlinear_arith)
        requires
            op == one * p,
            z == grain * p,
            one == 0x20_0000_0000_0000 * grain,
    ;
    assert(distance(life, 0) <= 101 * one) by (nonlinear_arith)
        requires
            distance(life * p, 0) <= 101 * (one * p),
            p > 0,
    ;
    let go = g * one;
    assert(distance(life * po, lp) <= 202 * go) by (nonlinear_arith)
        requires
            lp == life * p,
            distance(p, po) <= 2 * g,
            distance(life, 0) <= 101 * one,
            go == g * one,
            one > 0,
            g > 0,
    {
        assert(distance(life * po, life * p) == distance(life, 0) * distance(p, po));
        assert(distance(life, 0) * distance(p, po) <= (101 * one) * distance(p, po));
        assert((101 * one) * distance(p, po) <= (101 * one) * (2 * g));
    }
    assert(distance(op, one * po) <= 2 * go) by (nonlinear_arith)
        requires
            op == one * p,
            distance(p, po) <= 2 * g,
            go == g * one,
            one > 0,
    ;
    assert(z <= 2 * go) by (nonlinear_arith)
        requires
            z == grain * p,
            go == (grain * pe) * one,
            p <= 2 * (pe * one),
            grain > 0,
    ;
    let y = 100 * (po - cycles);
    assert(x == 100 * op - 100 * (cycles * one));
    assert(y * one == 100 * (one * po) - 100 * (cycles * one)) by (nonlinear_arith)
        requires
            y == 100 * (po - cycles),
    ;
    assert(life * po == (life * pe) * one) by (nonlinear_arith)
        requires
            po == pe * one,
    ;
    assert(distance((life * pe) * one, y * one) <= 2300 * go);
    assert(distance(life * pe, y) <= 2300 * g) by (nonlinear_arith)
        requires
            distance((life * pe) * one, y * one) <= 2300 * (g * one),
            one > 0,
    ;
}

/// The life that remains is what the cycles leave of the rated ones, in percent: `life *
/// rated = 100 * (rated - cycles)`, up to the rated cycles over two to the power of 41. Beyond
/// the rated cycles it is 0.
pub proof fn law_life_is_what_the_cycles_leave(cycles: Binary64, pe_cycles: u64)
    requires
        pe_cycles > 0,
        order::finite(cycles),
        order::non_negative(cycles),
    ensures
        ({
            let life = state::remaining_life(cycles, pe_cycles);
            let rated = pe_cycles * binary64::one_in_units();
            &&& cycles.number() <= rated ==> 0x200_0000_0000 * distance(
                life.number() * pe_cycles,
                100 * (rated - cycles.number()),
            ) <= rated
            &&& cycles.number() > rated ==> life.number() == 0
        }),
{
    let (one, grain) = (arithmetic::one() as int, precision::grain() as int);
    let rated = Binary64::of(pe_cycles);
    let (p, c) = (rated.number(), cycles.number());
    let po = pe_cycles * one;
    binary64::law_named_numbers();
    order::lemma_one_positive();
    precision::lemma_grain();
    order::lemma_of(pe_cycles);
    order::lemma_non_negative(cycles);
    order::lemma_non_negative(rated);
    precision::lemma_of_near(pe_cycles);
    assert(po >= 0) by (nonlinear_arith)
        requires
            po == pe_cycles * one,
            one > 0,
    ;
    order::lemma_rounded_bounds(po as nat, 1, cycles.magnitude());
    if c <= po {
        order::lemma_units_monotone(cycles.magnitude(), rounding::rounded(po as nat, 1));
        let x = 100 * (one * p - c * one);
        let h = x / p;
        assert(0 <= x <= (100 * one) * p) by (nonlinear_arith)
            requires
                x == 100 * (one * p - c * one),
                0 <= c <= p,
                one > 0,
        ;
        vstd::arithmetic::div_mod::lemma_fundamental_div_mod(x, p);
        vstd::arithmetic::div_mod::lemma_mod_bound(x, p);
        assert(p * h == h * p) by (nonlinear_arith);
        assert(0 <= h <= 100 * one) by (nonlinear_arith)
            requires
                0 <= x <= (100 * one) * p,
                x - p < h * p <= x,
                p > 0,
        ;
        lemma_life(cycles, pe_cycles, h);
        lemma_rated_steps(
            state::remaining_life(cycles, pe_cycles).number(),
            c,
            p,
            pe_cycles as int,
            h,
            one,
            grain,
        );
    } else {
        order::lemma_units_monotone(rounding::rounded(po as nat, 1), cycles.magnitude());
        state::law_rated_cycles_end_the_life(cycles, pe_cycles);
    }
}

/// The life that is recorded is what the recorded average cycles leave.
pub proof fn law_recorded_life_is_that_of_the_recorded_cycles(
    state: StateModel,
    delta: crate::kernel::WriteDelta,
    now: crate::kernel::KernelStats,
    fullness: Binary64,
    flash_bytes: u64,
    card_bytes: u64,
    pe_cycles: u64,
    stamp: Seq<char>,
)
    requires
        state.has_room(delta, flash_bytes),
        card_bytes > 0,
        pe_cycles > 0,
    ensures
        ({
            let after = state.recorded(
                delta,
                now,
                fullness,
                flash_bytes,
                card_bytes,
                pe_cycles,
                stamp,
            );
            let (life, cycles) = (
                after.estimated_life_remaining_pct,
                after.estimated_avg_pe_cycles,
            );
            let rated = pe_cycles * binary64::one_in_units();
            &&& life == state::remaining_life(cycles, pe_cycles)
            &&& cycles.number() <= rated ==> 0x200_0000_0000 * distance(
                life.number() * pe_cycles,
                100 * (rated - cycles.number()),
            ) <= rated
            &&& cycles.number() > rated ==> life.number() == 0
        }),
{
    crate::accuracy::law_average_cycles_are_all_bytes_over_the_size(
        state,
        delta,
        now,
        fullness,
        flash_bytes,
        card_bytes,
        pe_cycles,
        stamp,
    );
    law_life_is_what_the_cycles_leave(
        state.recorded(
            delta,
            now,
            fullness,
            flash_bytes,
            card_bytes,
            pe_cycles,
            stamp,
        ).estimated_avg_pe_cycles,
        pe_cycles,
    );
}

/// The cycles that a health implies are what it leaves out of the rated ones: `100 * cycles =
/// (100 - health) * rated`, up to the rated cycles over two to the power of 42.
pub proof fn law_implied_cycles_are_what_the_health_lacks(health: Binary64, pe_cycles: u64)
    requires
        settings::up_to(health, state::full_life()),
        pe_cycles > 0,
    ensures
        ({
            let cycles = state::implied_cycles(health, pe_cycles).number();
            let one = binary64::one_in_units();
            0x400_0000_0000 * distance(
                100 * cycles,
                (100 * one - health.number()) * pe_cycles,
            ) <= pe_cycles * one
        }),
{
    let (one, grain) = (arithmetic::one() as int, precision::grain() as int);
    let rated = Binary64::of(pe_cycles);
    let (p, h) = (rated.number(), health.number());
    let c = state::implied_cycles(health, pe_cycles).number();
    let pe = pe_cycles as int;
    binary64::law_named_numbers();
    order::lemma_one_positive();
    precision::lemma_grain();
    order::lemma_of(pe_cycles);
    precision::lemma_of_near(pe_cycles);
    lemma_implied(health, pe_cycles);
    let (po, g, z) = (pe * one, grain * pe, grain * p);
    assert(po == 0x20_0000_0000_0000 * g && g >= grain) by (nonlinear_arith)
        requires
            po == pe * one,
            g == grain * pe,
            one == 0x20_0000_0000_0000 * grain,
            pe >= 1,
            grain > 0,
    ;
    assert(distance(p, po) <= 2 * g);
    let m = 100 * one - h;
    let (mp, mo, co) = (m * p, m * po, c * one);
    assert(100 * (one * p - c * one) - h * p == mp - 100 * co) by (nonlinear_arith)
        requires
            mp == (100 * one - h) * p,
            co == c * one,
    ;
    assert(distance(100 * co, mp) <= 501 * z);
    let go = g * one;
    assert(distance(mp, mo) <= 200 * go) by (nonlinear_arith)
        requires
            mp == m * p,
            mo == m * po,
            0 <= m <= 100 * one,
            distance(p, po) <= 2 * g,
            go == g * one,
            g > 0,
    {
        assert(distance(m * p, m * po) == m * distance(p, po));
        assert(m * distance(p, po) <= (100 * one) * distance(p, po));
        assert((100 * one) * distance(p, po) <= (100 * one) * (2 * g));
    }
    assert(z <= 2 * go) by (nonlinear_arith)
        requires
            z == grain * p,
            go == (grain * pe) * one,
            p <= 2 * (pe * one),
            grain > 0,
    ;
    assert(mo == (m * pe) * one) by (nonlinear_arith)
        requires
            mo == m * po,
            po == pe * one,
    ;
    assert(100 * co == (100 * c) * one) by (nonlinear_arith)
        requires
            co == c * one,
    ;
    assert(distance(100 * c, m * pe) <= 1202 * g) by (nonlinear_arith)
        requires
            distance((100 * c) * one, (m * pe) * one) <= 1202 * (g * one),
            one > 0,
    ;
}

} // verus!
