//! Numbers as text, with a fixed number of decimals.

use vstd::prelude::*;
use crate::arithmetic;
use crate::binary64::{Binary64, INFINITY, SIGN};
use crate::order;
use crate::rounding;
use crate::text;

verus! {

// ---------------------------------------------------------------------------
// Model
// ---------------------------------------------------------------------------
/// Ten to the power of `k`.
pub open spec fn ten_to(k: nat) -> nat
    decreases k,
{
    if k == 0 {
        1
    } else {
        10 * ten_to((k - 1) as nat)
    }
}

/// The integer nearest to `n / d`, and the even one of two that are equally near.
pub open spec fn nearest_integer(n: nat, d: nat) -> nat {
    let (q, r) = (n / d, n % d);
    if 2 * r > d || (2 * r == d && q % 2 == 1) {
        q + 1
    } else {
        q
    }
}

/// The last `k` decimal digits of a number, with leading zeros where it has fewer.
pub open spec fn padded(n: nat, k: nat) -> Seq<char>
    decreases k,
{
    if k == 0 {
        seq![]
    } else {
        padded(n / 10, (k - 1) as nat).push(text::digit_char(n % 10))
    }
}

/// A number of which the last `k` digits are decimals.
pub open spec fn with_point(n: nat, k: nat) -> Seq<char> {
    if k == 0 {
        text::decimal(n)
    } else {
        text::decimal(n / ten_to(k)) + "."@ + padded(n % ten_to(k), k)
    }
}

/// A number with `k` decimals: the exact one, rounded to the nearest, and to an even last
/// digit where two are equally near.
pub open spec fn fixed_text(x: Binary64, k: nat) -> Seq<char> {
    if x.is_nan() {
        "NaN"@
    } else {
        let sign = if x.is_negative() {
            "-"@
        } else {
            ""@
        };
        if x.is_infinite() {
            sign + "inf"@
        } else {
            sign + with_point(
                nearest_integer(arithmetic::size(x) * ten_to(k), arithmetic::one()),
                k,
            )
        }
    }
}

// ---------------------------------------------------------------------------
// Rounding to an integer
// ---------------------------------------------------------------------------
proof fn lemma_ten_to(k: nat)
    requires
        k <= 6,
    ensures
        1 <= ten_to(k) <= 1_000_000,
{
    reveal_with_fuel(ten_to, 8);
}

fn power_of_ten(k: u32) -> (p: u64)
    requires
        k <= 6,
    ensures
        p == ten_to(k as nat),
        1 <= p <= 1_000_000,
{
    let mut p: u64 = 1;
    for i in 0..k
        invariant
            k <= 6,
            p == ten_to(i as nat),
    {
        proof {
            lemma_ten_to(i as nat);
        }
        p = p * 10;
    }
    proof {
        lemma_ten_to(k as nat);
    }
    p
}

/// A common factor does not change the nearest integer.
proof fn lemma_nearest_factor(n: nat, d: nat, c: nat)
    requires
        d > 0,
        c > 0,
    ensures
        nearest_integer(n * c, d * c) == nearest_integer(n, d),
{
    let (q, r) = (n as int / d as int, n as int % d as int);
    vstd::arithmetic::div_mod::lemma_fundamental_div_mod(n as int, d as int);
    arithmetic::lemma_common_factor(n, d, c);
    let e = d * c;
    assert(n * c == q * e + r * c) by (nonlinear_arith)
        requires
            n == d * q + r,
            e == d * c,
    ;
    assert(0 <= r * c < e) by (nonlinear_arith)
        requires
            0 <= r < d,
            c > 0,
            e == d * c,
    ;
    vstd::arithmetic::div_mod::lemma_fundamental_div_mod_converse((n * c) as int, e as int, q, r * c);
    assert((2 * r > d <==> 2 * (r * c) > e) && (2 * r == d <==> 2 * (r * c) == e))
        by (nonlinear_arith)
        requires
            e == d * c,
            c > 0,
    ;
}

/// The integer nearest to a fraction whose denominator is two to the power of `e`.
fn divided(n: u128, e: u32) -> (q: u128)
    requires
        n < 0x1_0000_0000_0000_0000_0000,
        e >= 1,
    ensures
        q == nearest_integer(n as nat, rounding::p2(e as int)),
        q <= n / 2 + 1,
{
    let ghost d = rounding::p2(e as int);
    proof {
        vstd::arithmetic::power2::lemma_pow2_unfold(e as nat);
        vstd::arithmetic::power2::lemma_pow2_pos(e as nat);
        vstd::arithmetic::power2::lemma2_to64();
        assert(d == 2 * rounding::p2(e - 1));
    }
    if e > 81 {
        proof {
            let (a, b) = (rounding::p2(64), rounding::p2(17));
            rounding::lemma_p2_adds(64, 17);
            assert(a * b == 0x2_0000_0000_0000_0000_0000) by (nonlinear_arith)
                requires
                    a == 0x1_0000_0000_0000_0000,
                    b == 0x2_0000,
            ;
            vstd::arithmetic::power2::lemma_pow2_strictly_increases(81, e as nat);
            vstd::arithmetic::div_mod::lemma_small_mod(n as nat, d);
            vstd::arithmetic::div_mod::lemma_basic_div(n as int, d as int);
        }
        return 0;
    }
    let p: u128 = rounding::power_of_two(e);
    let half: u128 = rounding::power_of_two(e - 1);
    let q: u128 = n / p;
    let r: u128 = n % p;
    proof {
        vstd::arithmetic::div_mod::lemma_div_is_ordered_by_denominator(n as int, 2, p as int);
    }
    if r > half || (r == half && q % 2 == 1) {
        q + 1
    } else {
        q
    }
}

// ---------------------------------------------------------------------------
// Digits
// ---------------------------------------------------------------------------
/// Appends the last `k` decimal digits of `n` to `s`.
fn push_padded(s: &mut String, n: u64, k: u32)
    ensures
        final(s)@ == old(s)@ + padded(n as nat, k as nat),
    decreases k,
{
    if k > 0 {
        push_padded(s, n / 10, k - 1);
        s.push((48u8 + (n % 10) as u8) as char);
    }
    assert(s@ =~= old(s)@ + padded(n as nat, k as nat));
}

/// The number that decimal digits stand for, the last one first.
spec fn digits_value(v: Seq<u8>) -> nat
    decreases v.len(),
{
    if v.len() == 0 {
        0
    } else {
        v[0] as nat + 10 * digits_value(v.skip(1))
    }
}

/// These are the decimal digits of a positive number, the last one first, without leading
/// zeros.
spec fn proper(v: Seq<u8>) -> bool {
    &&& v.len() > 0
    &&& v.last() != 0
    &&& forall|i: int| 0 <= i < v.len() ==> #[trigger] v[i] < 10
}

/// The digits of twice a number and a carry.
spec fn doubled_digits(v: Seq<u8>, carry: bool) -> Seq<u8>
    decreases v.len(),
{
    if v.len() == 0 {
        if carry {
            seq![1u8]
        } else {
            seq![]
        }
    } else {
        let low = (2 * v[0] % 10 + if carry {
            1int
        } else {
            0int
        }) as u8;
        seq![low] + doubled_digits(v.skip(1), v[0] >= 5)
    }
}

proof fn lemma_doubled_value(v: Seq<u8>, carry: bool)
    requires
        forall|i: int| 0 <= i < v.len() ==> #[trigger] v[i] < 10,
    ensures
        digits_value(doubled_digits(v, carry)) == 2 * digits_value(v) + if carry {
            1int
        } else {
            0int
        },
    decreases v.len(),
{
    let w = doubled_digits(v, carry);
    if v.len() == 0 {
        if carry {
            assert(w.skip(1) =~= seq![]);
            assert(digits_value(w.skip(1)) == 0);
        }
    } else {
        let rest = v.skip(1);
        assert(v[0] < 10);
        assert forall|i: int| 0 <= i < rest.len() implies #[trigger] rest[i] < 10 by {
            assert(rest[i] == v[i + 1]);
        }
        lemma_doubled_value(rest, v[0] >= 5);
        assert(w.skip(1) =~= doubled_digits(rest, v[0] >= 5));
    }
}

proof fn lemma_doubled_is_proper(v: Seq<u8>, carry: bool)
    requires
        proper(v),
    ensures
        proper(doubled_digits(v, carry)),
    decreases v.len(),
{
    let w = doubled_digits(v, carry);
    let rest = v.skip(1);
    let high = doubled_digits(rest, v[0] >= 5);
    assert(v[0] < 10);
    assert(w.skip(1) =~= high);
    assert(w[0] < 10);
    if rest.len() > 0 {
        assert(rest.last() == v.last());
        assert forall|i: int| 0 <= i < rest.len() implies #[trigger] rest[i] < 10 by {
            assert(rest[i] == v[i + 1]);
        }
        lemma_doubled_is_proper(rest, v[0] >= 5);
        assert(w.last() == high.last());
    } else {
        assert(w.last() == if v[0] >= 5 {
            1u8
        } else {
            w[0]
        });
    }
    assert forall|i: int| 0 <= i < w.len() implies #[trigger] w[i] < 10 by {
        if i > 0 {
            assert(w[i] == high[i - 1]);
        }
    }
}

fn doubled(v: &Vec<u8>) -> (w: Vec<u8>)
    requires
        proper(v@),
    ensures
        proper(w@),
        digits_value(w@) == 2 * digits_value(v@),
{
    let mut w: Vec<u8> = Vec::new();
    let mut carry: bool = false;
    assert(v@.skip(0) =~= v@);
    for i in 0..v.len()
        invariant
            proper(v@),
            w@ + doubled_digits(v@.skip(i as int), carry) =~= doubled_digits(v@, false),
    {
        let d: u8 = v[i];
        let ghost rest = v@.skip(i as int);
        let ghost before = w@;
        assert(rest[0] == d);
        assert(rest.skip(1) =~= v@.skip(i + 1));
        let low: u8 = 2 * d % 10 + if carry {
            1
        } else {
            0
        };
        w.push(low);
        carry = d >= 5;
        assert(w@ + doubled_digits(v@.skip(i + 1), carry) =~= before + (seq![low]
            + doubled_digits(v@.skip(i + 1), carry)));
    }
    assert(v@.skip(v@.len() as int) =~= seq![]);
    if carry {
        w.push(1);
    }
    assert(w@ =~= doubled_digits(v@, false));
    proof {
        lemma_doubled_value(v@, false);
        lemma_doubled_is_proper(v@, false);
    }
    w
}

/// The digits of a positive number, the last one first.
fn digits_of(n: u64) -> (v: Vec<u8>)
    requires
        n > 0,
    ensures
        proper(v@),
        digits_value(v@) == n,
    decreases n,
{
    let low: u8 = (n % 10) as u8;
    let mut v: Vec<u8> = Vec::new();
    v.push(low);
    if n >= 10 {
        let mut high = digits_of(n / 10);
        let ghost h = high@;
        v.append(&mut high);
        assert(v@ =~= seq![low] + h);
        assert(v@.skip(1) =~= h);
        assert(v@.last() == h.last());
        assert forall|i: int| 0 <= i < v@.len() implies #[trigger] v@[i] < 10 by {
            if i > 0 {
                assert(v@[i] == h[i - 1]);
            }
        }
    } else {
        assert(v@.skip(1) =~= seq![]);
        assert(digits_value(v@.skip(1)) == 0);
    }
    v
}

/// Proper digits are those that a number is written with.
proof fn lemma_digits(v: Seq<u8>)
    requires
        proper(v),
    ensures
        digits_value(v) > 0,
        text::decimal(digits_value(v)) == Seq::new(
            v.len(),
            |i: int| text::digit_char(v[v.len() - 1 - i] as nat),
        ),
    decreases v.len(),
{
    let n = digits_value(v);
    let rest = v.skip(1);
    let written = Seq::new(v.len(), |i: int| text::digit_char(v[v.len() - 1 - i] as nat));
    if v.len() == 1 {
        assert(digits_value(rest) == 0);
        assert(text::decimal(n) =~= written);
    } else {
        assert(rest.last() == v.last());
        assert forall|i: int| 0 <= i < rest.len() implies #[trigger] rest[i] < 10 by {
            assert(rest[i] == v[i + 1]);
        }
        lemma_digits(rest);
        let high = digits_value(rest);
        assert(v[0] < 10);
        assert(n / 10 == high && n % 10 == v[0] as nat);
        assert(text::decimal(n) =~= written);
    }
}

/// Appends the decimal digits of `f` times two to the power of `e` to `s`.
fn push_large(s: &mut String, f: u64, e: u32)
    requires
        f > 0,
    ensures
        final(s)@ == old(s)@ + text::decimal(f as nat * rounding::p2(e as int)),
{
    let mut v = digits_of(f);
    proof {
        vstd::arithmetic::power2::lemma2_to64();
        assert(f as nat * rounding::p2(0) == f) by (nonlinear_arith)
            requires
                rounding::p2(0) == 1,
        ;
    }
    for i in 0..e
        invariant
            proper(v@),
            digits_value(v@) == f as nat * rounding::p2(i as int),
    {
        v = doubled(&v);
        proof {
            rounding::lemma_p2_adds(i as int, 1);
            vstd::arithmetic::power2::lemma2_to64();
            let p = rounding::p2(i as int);
            assert(f as nat * (p * 2) == 2 * (f as nat * p)) by (nonlinear_arith);
        }
    }
    proof {
        lemma_digits(v@);
    }
    let ghost written = Seq::new(
        v@.len(),
        |i: int| text::digit_char(v@[v@.len() - 1 - i] as nat),
    );
    let n = v.len();
    for i in 0..n
        invariant
            proper(v@),
            n == v.len(),
            written == Seq::new(v@.len(), |i: int| text::digit_char(v@[v@.len() - 1 - i] as nat)),
            s@ == old(s)@ + written.take(i as int),
    {
        let d: u8 = v[n - 1 - i];
        s.push((48u8 + d) as char);
        assert(written.take(i + 1) =~= written.take(i as int).push(written[i as int]));
        assert(s@ =~= old(s)@ + written.take(i + 1));
    }
    assert(written.take(n as int) =~= written);
}

/// Writes a number with up to six decimals.
pub fn fixed(x: Binary64, decimals: u32) -> (s: String)
    requires
        decimals <= 6,
    ensures
        s@ == fixed_text(x, decimals as nat),
{
    let m: u64 = x.unsigned();
    if m > INFINITY {
        return "NaN".to_owned();
    }
    let mut s = if x.bits >= SIGN {
        "-".to_owned()
    } else {
        "".to_owned()
    };
    let ghost sign = s@;
    if m == INFINITY {
        s.append("inf");
        return s;
    }
    let (f, weight) = arithmetic::unpack(m);
    let p: u64 = power_of_ten(decimals);
    let ghost k = decimals as nat;
    let ghost u = arithmetic::size(x);
    let ghost one = arithmetic::one();
    let ghost tens = ten_to(k);
    let ghost whole = nearest_integer(u * tens, one);
    proof {
        order::lemma_one_positive();
        vstd::arithmetic::power2::lemma2_to64_rest();
    }
    if weight >= 1074 {
        let e: u32 = (weight - 1074) as u32;
        proof {
            lemma_whole_number(f as nat, weight as int, tens);
            let w = f as nat * rounding::p2(e as int);
            if k == 0 {
                assert(w * tens == w) by (nonlinear_arith)
                    requires
                        tens == 1,
                ;
            }
        }
        push_large(&mut s, f, e);
        if decimals > 0 {
            s.append(".");
            push_padded(&mut s, 0, decimals);
        }
        assert(s@ =~= sign + with_point(whole, k));
    } else {
        let e: u32 = (1074 - weight) as u32;
        assert(f as nat * p as nat <= 0x20_0000_0000_0000 * 1_000_000) by (nonlinear_arith)
            requires
                f <= 0x20_0000_0000_0000,
                p <= 1_000_000,
        ;
        let n: u128 = f as u128 * p as u128;
        let q: u128 = divided(n, e);
        proof {
            let (a, b) = (rounding::p2(weight as int), rounding::p2(e as int));
            rounding::lemma_p2_adds(weight as int, e as int);
            lemma_nearest_factor(n as nat, b, a);
            assert(u * tens == n * a && one == b * a) by (nonlinear_arith)
                requires
                    u == f * a,
                    n == f * tens,
                    one == a * b,
            ;
        }
        let high: u128 = q / p as u128;
        let low: u128 = q % p as u128;
        proof {
            assert(high <= 0x20_0000_0000_0000) by (nonlinear_arith)
                requires
                    high == q as int / p as int,
                    q <= n / 2 + 1,
                    n == f * p,
                    f <= 0x20_0000_0000_0000,
                    p >= 1,
            ;
        }
        text::push_decimal(&mut s, high as u64);
        if decimals > 0 {
            s.append(".");
            push_padded(&mut s, low as u64, decimals);
        }
        assert(s@ =~= sign + with_point(whole, k));
    }
    s
}

/// A number that is a multiple of one is a whole number, with zeros as decimals.
proof fn lemma_whole_number(f: nat, weight: int, tens: nat)
    requires
        weight >= 1074,
        tens > 0,
    ensures
        ({
            let n = nearest_integer(f * rounding::p2(weight) * tens, arithmetic::one());
            let whole = f * rounding::p2(weight - 1074);
            &&& n == whole * tens
            &&& n / tens == whole
            &&& n % tens == 0
        }),
{
    let one = arithmetic::one();
    let b = rounding::p2(weight - 1074);
    let whole = f * b;
    order::lemma_one_positive();
    rounding::lemma_p2_adds(weight - 1074, 1074);
    assert(f * rounding::p2(weight) * tens == (whole * tens) * one) by (nonlinear_arith)
        requires
            rounding::p2(weight) == b * one,
            whole == f * b,
    ;
    vstd::arithmetic::div_mod::lemma_div_by_multiple((whole * tens) as int, one as int);
    vstd::arithmetic::div_mod::lemma_mod_multiples_basic((whole * tens) as int, one as int);
    vstd::arithmetic::div_mod::lemma_div_by_multiple(whole as int, tens as int);
    vstd::arithmetic::div_mod::lemma_mod_multiples_basic(whole as int, tens as int);
}

/// A number is written as its digits with a point in front of the decimals, of which there are
/// just as many as asked for; read without the point, the digits are the integer nearest to the
/// number times ten to the power of the decimals, the even one of two. A minus sign stands in front of a negative
/// number.
pub proof fn law_written_number_is_the_nearest(x: Binary64, k: nat) -> (parts: (
    Seq<char>,
    Seq<char>,
))
    requires
        !x.is_nan(),
        !x.is_infinite(),
    ensures
        ({
            let (whole, decimals) = parts;
            let sign = if x.is_negative() {
                seq!['-']
            } else {
                seq![]
            };
            let one = crate::binary64::one_in_units();
            let exact = arithmetic::size(x) * vstd::arithmetic::power::pow(10, k);
            let read = text::value(whole + decimals) * one;
            &&& text::all_digits(whole) && whole.len() > 0
            &&& text::all_digits(decimals) && decimals.len() == k
            &&& whole[0] == '0' ==> whole.len() == 1
            &&& fixed_text(x, k) == if k == 0 {
                sign + whole
            } else {
                sign + whole + seq!['.'] + decimals
            }
            &&& 2 * crate::precision::distance(read as int, exact) <= one
            &&& 2 * crate::precision::distance(read as int, exact) == one ==> text::value(
                whole + decimals,
            ) % 2 == 0
        }),
{
    let one = arithmetic::one();
    let exact = arithmetic::size(x) * ten_to(k);
    let n = nearest_integer(exact, one);
    let whole = text::decimal(n / ten_to(k));
    let decimals = padded(n % ten_to(k), k);
    order::lemma_one_positive();
    lemma_power_of_ten(k);
    lemma_padded(n % ten_to(k), k);
    text::lemma_decimal_value(n / ten_to(k));
    text::lemma_decimal_front(n / ten_to(k));
    lemma_joined_value(whole, decimals);
    vstd::arithmetic::div_mod::lemma_fundamental_div_mod(n as int, ten_to(k) as int);
    assert(ten_to(k) * (n / ten_to(k)) == (n / ten_to(k)) * ten_to(k)) by (nonlinear_arith);
    assert(text::value(whole + decimals) == n) by {
        vstd::arithmetic::div_mod::lemma_mod_bound(n as int, ten_to(k) as int);
        vstd::arithmetic::div_mod::lemma_small_mod(n % ten_to(k), ten_to(k));
    }
    let (q, r) = (exact / one, exact % one);
    vstd::arithmetic::div_mod::lemma_fundamental_div_mod(exact as int, one as int);
    vstd::arithmetic::div_mod::lemma_mod_bound(exact as int, one as int);
    assert(one * q == q * one && (q + 1) * one == q * one + one) by (nonlinear_arith);
    reveal_strlit("-");
    reveal_strlit("");
    reveal_strlit(".");
    let sign = if x.is_negative() {
        seq!['-']
    } else {
        seq![]
    };
    if k == 0 {
        assert(n / 1 == n);
        assert(fixed_text(x, k) =~= sign + whole);
    } else {
        assert(fixed_text(x, k) =~= sign + whole + seq!['.'] + decimals);
    }
    (whole, decimals)
}

proof fn lemma_power_of_ten(k: nat)
    ensures
        ten_to(k) == vstd::arithmetic::power::pow(10, k),
        ten_to(k) > 0,
    decreases k,
{
    reveal(vstd::arithmetic::power::pow);
    if k > 0 {
        lemma_power_of_ten((k - 1) as nat);
    }
}

proof fn lemma_padded(n: nat, k: nat)
    ensures
        padded(n, k).len() == k,
        text::all_digits(padded(n, k)),
        text::value(padded(n, k)) == n % ten_to(k),
    decreases k,
{
    let s = padded(n, k);
    if k > 0 {
        let j = (k - 1) as nat;
        lemma_padded(n / 10, j);
        lemma_power_of_ten(j);
        assert(s.drop_last() =~= padded(n / 10, j));
        let d = text::digit_char(n % 10);
        assert(text::is_digit(d) && text::digit_value(d) == n % 10);
        assert forall|i: int| 0 <= i < s.len() implies text::is_digit(#[trigger] s[i]) by {
            if i < s.len() - 1 {
                assert(s[i] == padded(n / 10, j)[i]);
            }
        }
        let t = ten_to(j) as int;
        vstd::arithmetic::div_mod::lemma_mod_breakdown(n as int, 10, t);
    } else {
        assert(n % 1 == 0);
    }
}

proof fn lemma_joined_value(a: Seq<char>, b: Seq<char>)
    ensures
        text::value(a + b) == text::value(a) * ten_to(b.len()) + text::value(b),
    decreases b.len(),
{
    if b.len() == 0 {
        assert(a + b =~= a);
        assert(text::value(a) * 1 == text::value(a)) by (nonlinear_arith);
    } else {
        let c = b.drop_last();
        lemma_joined_value(a, c);
        assert((a + b).drop_last() =~= a + c);
        assert((a + b).last() == b.last());
        let (v, t) = (text::value(a), ten_to(c.len()));
        assert(10 * (v * t) == v * (10 * t)) by (nonlinear_arith);
    }
}

/// What is no number, or is beyond them, is written in letters.
pub proof fn law_what_is_no_number_is_written(x: Binary64, k: nat)
    ensures
        x.is_nan() ==> fixed_text(x, k) == "NaN"@,
        x.magnitude() == INFINITY && !x.is_negative() ==> fixed_text(x, k) == "inf"@,
        x.magnitude() == INFINITY && x.is_negative() ==> fixed_text(x, k) == "-inf"@,
{
    reveal_strlit("");
    reveal_strlit("-");
    reveal_strlit("inf");
    reveal_strlit("-inf");
    assert(""@ + "inf"@ =~= "inf"@);
    assert("-"@ + "inf"@ =~= "-inf"@);
}

/// There is no white space in a written number.
pub proof fn law_written_number_is_one_word(x: Binary64, k: nat)
    ensures
        text::no_space(fixed_text(x, k)),
        fixed_text(x, k).len() > 0,
{
    let s = fixed_text(x, k);
    reveal_strlit("NaN");
    reveal_strlit("inf");
    reveal_strlit("-");
    reveal_strlit("");
    if x.is_nan() {
        assert forall|i: int| 0 <= i < s.len() implies !text::is_space(#[trigger] s[i]) by {}
    } else if x.is_infinite() {
        assert forall|i: int| 0 <= i < s.len() implies !text::is_space(#[trigger] s[i]) by {}
    } else {
        let (whole, decimals) = law_written_number_is_the_nearest(x, k);
        let n: int = if x.is_negative() {
            1
        } else {
            0
        };
        assert forall|i: int| 0 <= i < s.len() implies !text::is_space(#[trigger] s[i]) by {
            if i < n {
                assert(s[i] == '-');
            } else if i < n + whole.len() {
                assert(s[i] == whole[i - n]);
                assert(text::is_digit(whole[i - n]));
            } else if i == n + whole.len() {
                assert(s[i] == '.');
            } else {
                assert(s[i] == decimals[i - n - whole.len() - 1]);
                assert(text::is_digit(decimals[i - n - whole.len() - 1]));
            }
        }
    }
}

} // verus!
