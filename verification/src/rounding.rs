//! Rounding to the nearest binary64 number.
//!
//! The exact result of an operation is a fraction, counted in units of the smallest
//! positive number. The result that is returned is the number nearest to it; where two
//! are equally near, the one with the even bit pattern. The magnitude of infinity takes
//! part as if it were the number that follows the largest one.

use vstd::prelude::*;
use crate::binary64;
use crate::binary64::{HIDDEN, INFINITY};

verus! {

/// Two to the power of `e`, for an `e` that is not negative.
pub open spec fn p2(e: int) -> nat {
    vstd::arithmetic::power2::pow2(e as nat)
}

/// The magnitude `m` is the nearest to `n / d` units, and the even one of two that are
/// equally near.
pub open spec fn nearest(m: nat, n: nat, d: nat) -> bool {
    &&& m <= INFINITY
    &&& m > 0 ==> {
        let middle = (binary64::units((m - 1) as nat) + binary64::units(m)) * d;
        2 * n > middle || (2 * n == middle && m % 2 == 0)
    }
    &&& m < INFINITY ==> {
        let middle = (binary64::units(m) + binary64::units(m + 1)) * d;
        2 * n < middle || (2 * n == middle && m % 2 == 0)
    }
}

/// The magnitude to which `n / d` units are rounded.
pub open spec fn rounded(n: nat, d: nat) -> nat {
    choose|m: nat| nearest(m, n, d)
}

pub(crate) proof fn lemma_p2_adds(a: int, b: int)
    requires
        a >= 0,
        b >= 0,
    ensures
        p2(a + b) == p2(a) * p2(b),
        p2(a) > 0,
        p2(b) > 0,
{
    vstd::arithmetic::power2::lemma_pow2_adds(a as nat, b as nat);
    vstd::arithmetic::power2::lemma_pow2_pos(a as nat);
    vstd::arithmetic::power2::lemma_pow2_pos(b as nat);
}

/// Rounding is monotone: a larger fraction is not rounded to a smaller magnitude.
pub proof fn lemma_nearest_monotone(m1: nat, n1: nat, d1: nat, m2: nat, n2: nat, d2: nat)
    requires
        nearest(m1, n1, d1),
        nearest(m2, n2, d2),
        d1 > 0,
        d2 > 0,
        n1 * d2 <= n2 * d1,
    ensures
        m1 <= m2,
{
    if m2 < m1 {
        let high = binary64::units(m2) + binary64::units(m2 + 1);
        let low = binary64::units((m1 - 1) as nat) + binary64::units(m1);
        if m2 < m1 - 1 {
            binary64::lemma_units_increase(m2, (m1 - 1) as nat);
            binary64::lemma_units_increase(m2 + 1, m1);
        }
        assert(high <= low);
        assert(2 * n2 <= high * d2);
        assert(2 * n1 >= low * d1);
        assert((2 * n1) * d2 >= (low * d1) * d2) by (nonlinear_arith)
            requires
                2 * n1 >= low * d1,
        ;
        assert((2 * n2) * d1 <= (high * d2) * d1) by (nonlinear_arith)
            requires
                2 * n2 <= high * d2,
        ;
        assert((low * d1) * d2 == low * (d1 * d2)) by (nonlinear_arith);
        assert((high * d2) * d1 == high * (d1 * d2)) by (nonlinear_arith);
        assert((2 * n1) * d2 == 2 * (n1 * d2)) by (nonlinear_arith);
        assert((2 * n2) * d1 == 2 * (n2 * d1)) by (nonlinear_arith);
        assert(d1 * d2 > 0) by (nonlinear_arith)
            requires
                d1 > 0,
                d2 > 0,
        ;
        assert(low * (d1 * d2) <= high * (d1 * d2));
        assert(low <= high) by (nonlinear_arith)
            requires
                low * (d1 * d2) <= high * (d1 * d2),
                d1 * d2 > 0,
        ;
        assert(m2 == m1 - 1) by {
            if m2 < m1 - 1 {
                assert(high < low);
            }
        }
        // Both sides are tied, so that both magnitudes are even; but they are neighbours.
        assert(2 * n1 == low * d1) by (nonlinear_arith)
            requires
                2 * n1 >= low * d1,
                (2 * n1) * d2 <= (low * d1) * d2,
                d2 > 0,
        ;
        assert(2 * n2 == high * d2) by (nonlinear_arith)
            requires
                2 * n2 <= high * d2,
                (2 * n2) * d1 >= (high * d2) * d1,
                d1 > 0,
        ;
        assert(false);
    }
}

/// There is one nearest magnitude at most.
pub proof fn lemma_nearest_unique(m: nat, n: nat, d: nat)
    requires
        nearest(m, n, d),
        d > 0,
    ensures
        rounded(n, d) == m,
{
    let r = rounded(n, d);
    lemma_nearest_monotone(m, n, d, r, n, d);
    lemma_nearest_monotone(r, n, d, m, n, d);
}

/// The magnitude with `f` as its digits and the last of them at weight two to the power
/// of `t` stands for `f` times that weight.
pub proof fn lemma_units_form(t: int, f: nat)
    requires
        0 <= t,
        f <= 2 * HIDDEN,
        t == 0 || f >= HIDDEN,
    ensures
        binary64::units((t * HIDDEN + f) as nat) == f * p2(t),
{
    let h = HIDDEN as int;
    let m = (t * h + f) as nat;
    reveal(binary64::units);
    vstd::arithmetic::power2::lemma2_to64();
    if f < h {
        assert(m / h as nat == 0 && m % h as nat == f);
    } else if f < 2 * h {
        assert(m == (t + 1) * h + (f - h));
        assert(m as int / h == t + 1 && m as int % h == f - h) by {
            vstd::arithmetic::div_mod::lemma_fundamental_div_mod_converse(
                m as int,
                h,
                t + 1,
                f - h,
            );
        }
    } else {
        assert(m == (t + 2) * h);
        assert(m as int / h == t + 2 && m as int % h == 0) by {
            vstd::arithmetic::div_mod::lemma_fundamental_div_mod_converse(m as int, h, t + 2, 0);
        }
        vstd::arithmetic::power2::lemma_pow2_unfold((t + 1) as nat);
        assert(h * (2 * p2(t)) == (2 * h) * p2(t)) by (nonlinear_arith);
    }
}

pub open spec fn at_most_infinity(m: int) -> nat {
    if m > INFINITY {
        INFINITY as nat
    } else {
        m as nat
    }
}

/// A fraction between two neighbouring magnitudes is rounded to the lower or to the upper
/// one, as it lies below or above the middle between them.
pub(crate) proof fn lemma_round_between(m: nat, n: nat, d: nat, up: bool)
    requires
        d > 0,
        binary64::units(m) * d <= n < binary64::units(m + 1) * d,
        ({
            let middle = (binary64::units(m) + binary64::units(m + 1)) * d;
            if up {
                2 * n > middle || (2 * n == middle && m % 2 == 1)
            } else {
                2 * n < middle || (2 * n == middle && m % 2 == 0)
            }
        }),
    ensures
        nearest(
            at_most_infinity(m + if up {
                1int
            } else {
                0int
            }),
            n,
            d,
        ),
{
    let u0 = binary64::units(m);
    let u1 = binary64::units(m + 1);
    if m >= INFINITY {
        let i = INFINITY as nat;
        binary64::lemma_units_increase((i - 1) as nat, i);
        if i < m {
            binary64::lemma_units_increase(i, m);
        }
        let ui = binary64::units(i);
        let uj = binary64::units((i - 1) as nat);
        assert(2 * n > (uj + ui) * d) by (nonlinear_arith)
            requires
                uj < ui <= u0,
                n >= u0 * d,
                d > 0,
        ;
    } else if up {
        if m + 1 < INFINITY {
            binary64::lemma_units_increase(m + 1, m + 2);
            let u2 = binary64::units(m + 2);
            assert(2 * n < (u1 + u2) * d) by (nonlinear_arith)
                requires
                    u1 < u2,
                    n < u1 * d,
                    d > 0,
            ;
        }
    } else {
        if m > 0 {
            binary64::lemma_units_increase((m - 1) as nat, m);
            let ub = binary64::units((m - 1) as nat);
            assert(2 * n > (ub + u0) * d) by (nonlinear_arith)
                requires
                    ub < u0,
                    n >= u0 * d,
                    d > 0,
            ;
        }
    }
}

/// Digits that are cut off below weight two to the power of `t`: the nearest magnitude is
/// the one that remains or the next one, as the cut-off part is below or above one half.
proof fn lemma_round_digits(f: nat, t: int, n: nat, d: nat, up: bool)
    requires
        d > 0,
        0 <= t,
        f < 2 * HIDDEN,
        t == 0 || f >= HIDDEN,
        f * p2(t) * d <= n < (f + 1) * p2(t) * d,
        up ==> 2 * n > (2 * f + 1) * p2(t) * d || (2 * n == (2 * f + 1) * p2(t) * d && f % 2 == 1),
        !up ==> 2 * n < (2 * f + 1) * p2(t) * d || (2 * n == (2 * f + 1) * p2(t) * d && f % 2
            == 0),
    ensures
        nearest(
            at_most_infinity(t * HIDDEN + f + if up {
                1int
            } else {
                0int
            }),
            n,
            d,
        ),
{
    let m = (t * HIDDEN + f) as nat;
    lemma_units_form(t, f);
    lemma_units_form(t, f + 1);
    let u0 = binary64::units(m);
    let u1 = binary64::units(m + 1);
    assert((u0 + u1) * d == (2 * f + 1) * p2(t) * d) by {
        let p = p2(t);
        assert(f * p + (f + 1) * p == (2 * f + 1) * p) by (nonlinear_arith);
    }
    assert(m % 2 == f % 2) by {
        assert(t * 0x10_0000_0000_0000 == 2 * (t * 0x8_0000_0000_0000)) by (nonlinear_arith);
    }
    lemma_round_between(m, n, d, up);
}

/// How far exponents are shifted up so that none of them is negative.
pub const BIAS: i32 = 2000;

/// The fraction `n / d` lies at `s` times two to the power of `k`, or, where `more` says
/// so, above that but below the same with `s + 1`.
pub open spec fn leads(s: nat, k: int, more: bool, n: nat, d: nat) -> bool {
    let weight = p2(k + BIAS) * d;
    if more {
        s * weight < n * p2(BIAS as int) < (s + 1) * weight
    } else {
        s * weight == n * p2(BIAS as int)
    }
}

pub(crate) proof fn lemma_p2_127()
    ensures
        p2(127) == 0x8000_0000_0000_0000_0000_0000_0000_0000,
{
    vstd::arithmetic::power2::lemma2_to64();
    vstd::arithmetic::power2::lemma2_to64_rest();
    lemma_p2_adds(64, 63);
    let (a, b) = (p2(64), p2(63));
    assert(a * b == 0x8000_0000_0000_0000_0000_0000_0000_0000) by (nonlinear_arith)
        requires
            a == 0x1_0000_0000_0000_0000,
            b == 0x8000_0000_0000_0000,
    ;
}

/// Two to the power of `e`.
pub(crate) fn power_of_two(e: u32) -> (p: u128)
    requires
        e <= 127,
    ensures
        p == p2(e as int),
{
    let mut p: u128 = 1;
    let mut i: u32 = 0;
    proof {
        vstd::arithmetic::power2::lemma2_to64();
    }
    while i < e
        invariant
            i <= e <= 127,
            p == p2(i as int),
        decreases e - i,
    {
        proof {
            vstd::arithmetic::power2::lemma_pow2_unfold((i + 1) as nat);
            lemma_p2_127();
            if i + 1 < 127 {
                vstd::arithmetic::power2::lemma_pow2_strictly_increases((i + 1) as nat, 127);
            }
        }
        p = p * 2;
        i = i + 1;
    }
    p
}

/// How many binary digits a number has.
fn bit_length(s: u128) -> (l: u32)
    requires
        s < p2(127),
    ensures
        l <= 127,
        s < p2(l as int),
        s > 0 ==> l > 0 && p2(l - 1) <= s,
        s == 0 ==> l == 0,
{
    let mut l: u32 = 0;
    let mut p: u128 = 1;
    proof {
        lemma_p2_127();
        vstd::arithmetic::power2::lemma2_to64();
    }
    while p <= s
        invariant
            l <= 127,
            s < p2(127),
            p2(127) == 0x8000_0000_0000_0000_0000_0000_0000_0000,
            0 < p,
            p == p2(l as int),
            l > 0 ==> 0 < p2(l - 1) <= s,
        decreases 127 - l,
    {
        proof {
            vstd::arithmetic::power2::lemma_pow2_unfold((l + 1) as nat);
        }
        p = p * 2;
        l = l + 1;
    }
    l
}

/// What is known of a fraction once its leading digits are cut at weight two to the power
/// of `t`, which is `r` above that of the last of them: `f` is what remains, and `rem` is
/// what is cut off.
proof fn lemma_cut(s: nat, k: int, more: bool, n: nat, d: nat, r: int, f: nat, rem: nat)
    requires
        d > 0,
        r > 0,
        k + BIAS >= 0,
        k + r >= 0,
        leads(s, k, more, n, d),
        s == f * p2(r) + rem,
        rem < p2(r),
    ensures
        f * p2(k + r) * d <= n < (f + 1) * p2(k + r) * d,
        2 * rem < p2(r) ==> 2 * n < (2 * f + 1) * p2(k + r) * d,
        2 * rem == p2(r) && !more ==> 2 * n == (2 * f + 1) * p2(k + r) * d,
        2 * rem == p2(r) && more ==> 2 * n > (2 * f + 1) * p2(k + r) * d,
        2 * rem > p2(r) ==> 2 * n > (2 * f + 1) * p2(k + r) * d,
{
    let t = k + r;
    let q = p2(BIAS as int);
    let w = p2(k + BIAS) * d;
    let g = p2(t) * d;
    let pr = p2(r);
    lemma_p2_adds(k + BIAS, r);
    lemma_p2_adds(t, BIAS as int);
    assert(w > 0) by (nonlinear_arith)
        requires
            w == p2(k + BIAS) * d,
            p2(k + BIAS) > 0,
            d > 0,
    ;
    // The weight at which the digits are cut, in both ways of counting it.
    assert(g * q == pr * w) by {
        assert(p2(t) * q == p2(k + BIAS) * pr);
        assert((p2(t) * d) * q == (p2(t) * q) * d) by (nonlinear_arith);
        assert((p2(k + BIAS) * pr) * d == pr * (p2(k + BIAS) * d)) by (nonlinear_arith);
    }
    let nn = n * q;
    assert(s * w <= nn < (s + 1) * w) by {
        assert((s + 1) * w == s * w + w) by (nonlinear_arith);
    }
    assert(s * w == f * (pr * w) + rem * w) by (nonlinear_arith)
        requires
            s == f * pr + rem,
    ;
    assert((s + 1) * w == f * (pr * w) + (rem + 1) * w) by (nonlinear_arith)
        requires
            s == f * pr + rem,
    ;
    assert((rem + 1) * w <= pr * w) by (nonlinear_arith)
        requires
            rem + 1 <= pr,
            w > 0,
    ;
    assert(rem * w >= 0) by (nonlinear_arith)
        requires
            w > 0,
            rem >= 0,
    ;
    let gq = g * q;
    assert(f * gq <= nn < f * gq + gq);
    assert((f * g) * q == f * gq) by (nonlinear_arith)
        requires
            gq == g * q,
    ;
    assert(((f + 1) * g) * q == f * gq + gq) by (nonlinear_arith)
        requires
            gq == g * q,
    ;
    assert(f * g <= n) by (nonlinear_arith)
        requires
            (f * g) * q <= n * q,
            q > 0,
    ;
    assert(n < (f + 1) * g) by (nonlinear_arith)
        requires
            n * q < ((f + 1) * g) * q,
            q > 0,
    ;
    assert(f * p2(t) * d == f * g) by (nonlinear_arith)
        requires
            g == p2(t) * d,
    ;
    assert((f + 1) * p2(t) * d == (f + 1) * g) by (nonlinear_arith)
        requires
            g == p2(t) * d,
    ;
    assert((2 * f + 1) * p2(t) * d == (2 * f + 1) * g) by (nonlinear_arith)
        requires
            g == p2(t) * d,
    ;
    // The middle.
    let mid = (2 * f + 1) * g;
    assert(mid * q == 2 * (f * gq) + gq) by (nonlinear_arith)
        requires
            mid == (2 * f + 1) * g,
            gq == g * q,
    ;
    assert((2 * n) * q == 2 * nn) by (nonlinear_arith)
        requires
            nn == n * q,
    ;
    assert(2 * (rem * w) == (2 * rem) * w) by (nonlinear_arith);
    assert(2 * ((rem + 1) * w) == (2 * rem + 2) * w) by (nonlinear_arith);
    if 2 * rem < pr {
        // The weight at which the digits are cut is even, so that there is room for two.
        vstd::arithmetic::power2::lemma_pow2_unfold(r as nat);
        assert(2 * rem + 2 <= pr);
        assert((2 * rem + 2) * w <= pr * w) by (nonlinear_arith)
            requires
                2 * rem + 2 <= pr,
                w > 0,
        ;
        assert((2 * n) * q < mid * q);
        assert(2 * n < mid) by (nonlinear_arith)
            requires
                (2 * n) * q < mid * q,
                q > 0,
        ;
    } else if 2 * rem == pr {
        if more {
            assert(2 * n > mid) by (nonlinear_arith)
                requires
                    (2 * n) * q > mid * q,
                    q > 0,
            ;
        } else {
            assert(2 * n == mid) by (nonlinear_arith)
                requires
                    (2 * n) * q == mid * q,
                    q > 0,
            ;
        }
    } else {
        assert((2 * rem) * w > pr * w) by (nonlinear_arith)
            requires
                2 * rem > pr,
                w > 0,
        ;
        assert(2 * n > mid) by (nonlinear_arith)
            requires
                (2 * n) * q > mid * q,
                q > 0,
        ;
    }
}

/// A fraction whose leading digits are all there is, and of which there are few enough, is
/// the digits themselves at a weight that is lower by `j`.
proof fn lemma_exact(s: nat, k: int, n: nat, d: nat, j: int, f: nat)
    requires
        d > 0,
        0 <= j <= k,
        leads(s, k, false, n, d),
        f == s * p2(j),
    ensures
        n == f * p2(k - j) * d,
{
    let t = k - j;
    let q = p2(BIAS as int);
    lemma_p2_adds(j, t);
    lemma_p2_adds(k, BIAS as int);
    let (a, b) = (p2(j), p2(t));
    assert(s * (p2(k + BIAS) * d) == n * q);
    assert(p2(k + BIAS) == (a * b) * q);
    assert(s * (((a * b) * q) * d) == ((s * a) * b * d) * q) by (nonlinear_arith);
    assert(n == (s * a) * b * d) by (nonlinear_arith)
        requires
            n * q == ((s * a) * b * d) * q,
            q > 0,
    ;
}

/// The magnitude with the digits `f`, the last of them at weight two to the power of `t`, or
/// the next one; infinity, where that is beyond the numbers.
fn assemble(t: i32, f: u128, up: bool) -> (m: u64)
    requires
        0 <= t <= 10000,
        f < 2 * HIDDEN,
    ensures
        m == at_most_infinity(t * HIDDEN + f + if up {
            1int
        } else {
            0int
        }),
{
    let exponent: u128 = t as u128;
    let weight: u128 = HIDDEN as u128;
    assert(exponent * weight <= 10000 * 0x10_0000_0000_0000) by (nonlinear_arith)
        requires
            exponent <= 10000,
            weight == 0x10_0000_0000_0000,
    ;
    assert(exponent * weight == t * HIDDEN);
    let m: u128 = exponent * weight + f + if up {
        1
    } else {
        0
    };
    if m > INFINITY as u128 {
        INFINITY
    } else {
        m as u64
    }
}

/// The magnitude nearest to the fraction `n / d`, given its leading digits `s` at weight two
/// to the power of `k`, and whether there is `more` beyond them.
pub(crate) fn round_to_nearest(
    s: u128,
    k: i32,
    more: bool,
    Ghost(n): Ghost<nat>,
    Ghost(d): Ghost<nat>,
) -> (m: u64)
    requires
        d > 0,
        s < p2(127),
        -BIAS <= k <= 8000,
        leads(s as nat, k as int, more, n, d),
        more ==> s >= p2(54),
    ensures
        nearest(m as nat, n, d),
{
    if s == 0 {
        proof {
            let q = p2(BIAS as int);
            lemma_p2_adds(BIAS as int, 0);
            if more {
                lemma_p2_adds(54, 0);
            }
            assert(0 * (p2(k + BIAS) * d) == 0) by (nonlinear_arith);
            assert(n == 0) by (nonlinear_arith)
                requires
                    n * q == 0,
                    q > 0,
            ;
            vstd::arithmetic::power2::lemma2_to64();
            assert(0 * p2(0) * d == 0 && 1 * p2(0) * d == d) by (nonlinear_arith)
                requires
                    p2(0) == 1,
            ;
            lemma_round_digits(0, 0, n, d, false);
        }
        return 0;
    }
    let l: i32 = bit_length(s) as i32;
    proof {
        if more && l < 55 {
            if l < 54 {
                vstd::arithmetic::power2::lemma_pow2_strictly_increases(l as nat, 54);
            }
        }
        vstd::arithmetic::power2::lemma2_to64_rest();
        vstd::arithmetic::power2::lemma2_to64();
    }
    let t: i32 = if k + l > 53 {
        k + l - 53
    } else {
        0
    };
    let mut f: u128 = 0;
    let mut up: bool = false;
    if t <= k {
        let j: u32 = (k - t) as u32;
        let p = power_of_two(j);
        proof {
            lemma_p2_adds(l as int, 53 - l);
            if j < 53 - l {
                vstd::arithmetic::power2::lemma_pow2_strictly_increases(j as nat, (53 - l) as nat);
            }
            assert(s * p < 0x20_0000_0000_0000) by (nonlinear_arith)
                requires
                    s < p2(l as int),
                    p <= p2(53 - l),
                    p2(l as int) * p2(53 - l) == 0x20_0000_0000_0000,
                    p > 0,
            ;
            if t > 0 {
                lemma_p2_adds(l - 1, 53 - l);
                assert(s * p >= 0x10_0000_0000_0000) by (nonlinear_arith)
                    requires
                        s >= p2(l - 1),
                        p == p2(53 - l),
                        p2(l - 1) * p2(53 - l) == 0x10_0000_0000_0000,
                ;
            }
        }
        f = s * p;
        proof {
            lemma_exact(s as nat, k as int, n, d, j as int, f as nat);
            let g = p2(t as int) * d;
            lemma_p2_adds(t as int, 0);
            assert(g > 0) by (nonlinear_arith)
                requires
                    g == p2(t as int) * d,
                    p2(t as int) > 0,
                    d > 0,
            ;
            assert(n == f * g && (f + 1) * p2(t as int) * d == n + g && (2 * f + 1) * p2(t as int)
                * d == 2 * n + g) by (nonlinear_arith)
                requires
                    n == f * p2(t as int) * d,
                    g == p2(t as int) * d,
            ;
            lemma_round_digits(f as nat, t as int, n, d, false);
        }
    } else {
        let r: i32 = t - k;
        if r > l {
            proof {
                vstd::arithmetic::power2::lemma_pow2_unfold(r as nat);
                if l < r - 1 {
                    vstd::arithmetic::power2::lemma_pow2_strictly_increases(
                        l as nat,
                        (r - 1) as nat,
                    );
                }
                assert(0 * p2(r as int) == 0) by (nonlinear_arith);
                lemma_cut(s as nat, k as int, more, n, d, r as int, 0, s as nat);
                lemma_round_digits(0, 0, n, d, false);
            }
            return 0;
        }
        let p = power_of_two(r as u32);
        proof {
            lemma_p2_adds(r as int, 0);
        }
        f = s / p;
        let rem = s % p;
        proof {
            lemma_p2_127();
            if r < 127 {
                vstd::arithmetic::power2::lemma_pow2_strictly_increases(r as nat, 127);
            }
            assert(s == f * p + rem && rem < p) by {
                vstd::arithmetic::div_mod::lemma_fundamental_div_mod(s as int, p as int);
                assert(p as int * (s as int / p as int) == (s as int / p as int) * p as int)
                    by (nonlinear_arith);
            }
            lemma_p2_adds(l - r, r as int);
            if l - r < 53 {
                vstd::arithmetic::power2::lemma_pow2_strictly_increases((l - r) as nat, 53);
            }
            assert(f < 0x20_0000_0000_0000) by (nonlinear_arith)
                requires
                    s == f * p + rem,
                    rem >= 0,
                    s < p2(l as int),
                    p2(l as int) == p2(l - r) * p,
                    p2(l - r) <= 0x20_0000_0000_0000,
                    p > 0,
            ;
            if t > 0 {
                lemma_p2_adds(52, r as int);
                assert(f >= 0x10_0000_0000_0000) by (nonlinear_arith)
                    requires
                        s == f * p + rem,
                        rem < p,
                        s >= 0x10_0000_0000_0000 * p,
                ;
            }
        }
        up = 2 * rem > p || (2 * rem == p && (more || f % 2 == 1));
        proof {
            lemma_cut(s as nat, k as int, more, n, d, r as int, f as nat, rem as nat);
            lemma_round_digits(f as nat, t as int, n, d, up);
        }
    }
    assemble(t, f, up)
}

} // verus!
