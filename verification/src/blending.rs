//! How pages, merging and garbage collection bear on the write amplification, up to rounding.
//!
//! Blending the amplification by pages with the sequential share takes several operations,
//! each of which rounds. So what holds of the exact blend, that merging never raises it, holds
//! of the computed one up to a small part of it.

use vstd::prelude::*;
use crate::arithmetic;
use crate::binary64;
use crate::binary64::Binary64;
use crate::kernel::WriteDelta;
use crate::order;
use crate::precision;
use crate::precision::{distance, near};
use crate::rounding;
use crate::settings;
use crate::waf;

verus! {

/// Two numbers up to two to the power of 136 have a finite sum.
proof fn lemma_sum_is_finite(a: Binary64, b: Binary64)
    requires
        order::finite(a),
        order::finite(b),
        order::non_negative(a),
        order::non_negative(b),
        a.number() <= rounding::p2(1210),
        b.number() <= rounding::p2(1210),
    ensures
        order::finite(a.sum(b)),
        order::non_negative(a.sum(b)),
{
    let exact = a.number() + b.number();
    vstd::arithmetic::power2::lemma2_to64();
    vstd::arithmetic::power2::lemma_pow2_unfold(1211);
    let top = order::lemma_representable(1, 1211);
    assert(1 * rounding::p2(1211) == rounding::p2(1211)) by (nonlinear_arith);
    order::lemma_sum_number(a, b);
    order::lemma_rounded_bounds(exact as nat, 1, top);
    assert(top < binary64::INFINITY) by {
        lemma_far_below_infinity();
        binary64::lemma_units_order(top, binary64::INFINITY as nat);
    }
}

/// Two to the power of 1211 units is less than what infinity counts as.
proof fn lemma_far_below_infinity()
    ensures
        rounding::p2(1211) < binary64::units(binary64::INFINITY as nat),
{
    let h = binary64::HIDDEN as nat;
    rounding::lemma_units_form(2046, h);
    assert(2046 * h + h == binary64::INFINITY);
    vstd::arithmetic::power2::lemma_pow2_strictly_increases(1211, 2046);
    assert(rounding::p2(2046) <= h * rounding::p2(2046)) by (nonlinear_arith)
        requires
            h >= 1,
    ;
}

// ---------------------------------------------------------------------------
// The blend
// ---------------------------------------------------------------------------
/// The steps to the blended amplification, each near the exact one.
proof fn lemma_blend_steps(
    page: int,
    share: int,
    random: int,
    amplified: int,
    blended: int,
    one: int,
    grain: int,
)
    requires
        one == 0x20_0000_0000_0000 * grain,
        grain > 0x40_0000_0000_0000,
        page >= one,
        0 <= share <= one,
        0 <= random <= one,
        0 <= amplified <= page,
        near(random, one - share, 1),
        near(amplified, page * random, one),
        near(blended, amplified + share, 1),
    ensures
        distance(blended * one, page * (one - share) + share * one) <= 7 * (grain
            * page),
{
    let z = grain * page;
    let (m, w, r, s, b) = (
        amplified * one,
        page * random,
        page * (one - share),
        share * one,
        blended * one,
    );
    assert(distance(random, one - share) <= 2 * grain);
    assert(distance(w, r) <= 2 * z) by (nonlinear_arith)
        requires
            distance(random, one - share) <= 2 * grain,
            w == page * random,
            r == page * (one - share),
            z == grain * page,
            page >= 0,
    ;
    assert(0 <= w <= 0x20_0000_0000_0000 * z) by (nonlinear_arith)
        requires
            w == page * random,
            0 <= random <= 0x20_0000_0000_0000 * grain,
            z == grain * page,
            page >= 0,
    ;
    assert(one <= z) by (nonlinear_arith)
        requires
            z == grain * page,
            page >= one,
            grain >= 1,
            one >= 0,
    ;
    assert(distance(m, w) <= 2 * z);
    assert(0x20_0000_0000_0000 * distance(blended, amplified + share) <= 3 * page);
    assert(distance(b, m + s) <= 3 * z) by (nonlinear_arith)
        requires
            0x20_0000_0000_0000 * distance(blended, amplified + share) <= 3 * page,
            b == blended * one,
            m == amplified * one,
            s == share * one,
            one == 0x20_0000_0000_0000 * grain,
            grain > 0,
            z == grain * page,
    ;
}

/// The blended amplification is near the linear blend of the amplification by pages and of
/// one, and not much above the former.
proof fn lemma_blend(delta: WriteDelta, flash_page_bytes: u64)
    requires
        delta.fits(),
        waf::estimable(delta, flash_page_bytes),
    ensures
        ({
            let one = arithmetic::one();
            let page = waf::page_amplification(delta, flash_page_bytes).number();
            let share = waf::sequential_share(delta).number();
            let blended = waf::blended_amplification(delta, flash_page_bytes);
            &&& 0 <= share <= one <= page
            &&& page <= rounding::p2(1202)
            &&& order::finite(blended)
            &&& order::non_negative(blended)
            &&& distance(blended.number() * one, page * (one - share) + share * one) <= 7 * (
            precision::grain() * page)
            &&& 0x20_0000_0000_0000 * blended.number() <= 0x20_0000_0000_0007 * page
        }),
{
    let page = waf::page_amplification(delta, flash_page_bytes);
    let share = waf::sequential_share(delta);
    let random = waf::unity().difference(share);
    let amplified = page.product(random);
    let (one, grain) = (arithmetic::one() as int, precision::grain() as int);
    binary64::law_named_numbers();
    order::lemma_one_positive();
    precision::lemma_grain();
    waf::lemma_page_amplification(delta, flash_page_bytes);
    waf::law_sequential_share_is_a_fraction(delta);
    order::lemma_finite(share, waf::unity());
    order::lemma_complement(share, waf::unity());
    order::lemma_times_one(share);
    order::lemma_product_not_above(page, random);
    assert(amplified == random.product(page)) by {
        let (a, b) = (arithmetic::size(page), arithmetic::size(random));
        assert(a * b == b * a) by (nonlinear_arith);
    }
    precision::lemma_difference_near(waf::unity(), share);
    precision::lemma_product_near(page, random);
    let blended = amplified.sum(share);
    vstd::arithmetic::power2::lemma_pow2_strictly_increases(1202, 1210);
    lemma_sum_is_finite(amplified, share);
    precision::lemma_sum_near(amplified, share);
    let (w, s, b) = (page.number(), share.number(), blended.number());
    lemma_blend_steps(w, s, random.number(), amplified.number(), b, one, grain);
    assert(w * (one - s) + s * one <= w * one) by (nonlinear_arith)
        requires
            0 <= s,
            one <= w,
    ;
    assert(0x20_0000_0000_0000 * b <= 0x20_0000_0000_0007 * w) by (nonlinear_arith)
        requires
            b * one <= w * one + 7 * (grain * w),
            one == 0x20_0000_0000_0000 * grain,
            grain > 0,
    ;
}

/// The write amplification is near the sum of the blended one and of what garbage collection
/// adds, or it is one, if that is more.
proof fn lemma_total(
    delta: WriteDelta,
    flash_page_bytes: u64,
    fill_ratio: Binary64,
    over_provision: Binary64,
)
    requires
        delta.fits(),
        waf::estimable(delta, flash_page_bytes),
        !waf::added_by_collection(fill_ratio, over_provision).is_nan(),
    ensures
        ({
            let one = arithmetic::one();
            let added = waf::added_by_collection(fill_ratio, over_provision);
            let blended = waf::blended_amplification(delta, flash_page_bytes);
            let sum = blended.sum(added);
            let total = waf::amplification(delta, flash_page_bytes, fill_ratio, over_provision);
            &&& 0 <= added.number() <= 99 * one
            &&& order::finite(sum)
            &&& near(sum.number(), blended.number() + added.number(), 1)
            &&& order::finite(total)
            &&& total.number() == if sum.number() < one {
                one as int
            } else {
                sum.number()
            }
        }),
{
    let one = arithmetic::one();
    let added = waf::added_by_collection(fill_ratio, over_provision);
    let blended = waf::blended_amplification(delta, flash_page_bytes);
    binary64::law_named_numbers();
    order::lemma_one_positive();
    precision::lemma_grain();
    waf::lemma_added(fill_ratio, over_provision);
    lemma_blend(delta, flash_page_bytes);
    // Everything is far from infinity.
    let p = rounding::p2(1202);
    rounding::lemma_p2_adds(1202, 8);
    vstd::arithmetic::power2::lemma2_to64();
    assert(rounding::p2(1210) == 0x100 * p) by (nonlinear_arith)
        requires
            rounding::p2(1210) == p * rounding::p2(8),
            rounding::p2(8) == 0x100,
    ;
    lemma_sum_is_finite(blended, added);
    precision::lemma_sum_near(blended, added);
}

// ---------------------------------------------------------------------------
// The sequential share
// ---------------------------------------------------------------------------
/// The steps to the sequential share, each near the exact one.
proof fn lemma_share_steps(
    merges: int,
    events: int,
    merged: int,
    all: int,
    share: int,
    one: int,
    grain: int,
)
    requires
        one == 0x20_0000_0000_0000 * grain,
        grain > 0x40_0000_0000_0000,
        0 <= merges <= events,
        0 < events,
        0 <= merged,
        0 < all,
        0 <= share <= one,
        near(merged, merges * one, 1),
        near(all, events * one, 1),
        near(share, merged * one, all),
    ensures
        distance(share * events, merges * one) <= 6 * (grain * events),
{
    let (gm, ge) = (grain * merges, grain * events);
    let (mo, eo) = (merges * one, events * one);
    let x = ge * one;
    assert(mo == 0x20_0000_0000_0000 * gm && eo == 0x20_0000_0000_0000 * ge) by (nonlinear_arith)
        requires
            mo == merges * one,
            eo == events * one,
            gm == grain * merges,
            ge == grain * events,
            one == 0x20_0000_0000_0000 * grain,
    ;
    assert(0 <= gm <= ge && grain <= ge) by (nonlinear_arith)
        requires
            gm == grain * merges,
            ge == grain * events,
            0 <= merges <= events,
            1 <= events,
            grain > 0,
    ;
    assert(distance(merged, mo) <= 2 * ge);
    assert(distance(all, eo) <= 2 * ge);
    let (st, mm) = (share * all, merged * one);
    assert(0 <= mm <= 0x20_0000_0000_0002 * x) by (nonlinear_arith)
        requires
            mm == merged * one,
            0 <= merged <= 0x20_0000_0000_0002 * ge,
            x == ge * one,
            one >= 0,
    ;
    assert(0x10_0000_0000_0000 * all <= x) by (nonlinear_arith)
        requires
            all <= 0x20_0000_0000_0002 * ge,
            x == ge * one,
            one >= 0x10_0000_0000_0000 * 0x20_0000_0000_0002,
            ge >= 0,
    ;
    assert(distance(st, mm) <= 2 * x);
    assert(distance(st, share * eo) <= 2 * x) by (nonlinear_arith)
        requires
            st == share * all,
            distance(all, eo) <= 2 * ge,
            0 <= share <= one,
            x == ge * one,
            ge >= 0,
    {
        assert(distance(share * all, share * eo) == share * distance(all, eo));
        assert(share * distance(all, eo) <= one * distance(all, eo));
        assert(one * distance(all, eo) <= one * (2 * ge));
    }
    assert(distance(mm, mo * one) <= 2 * x) by (nonlinear_arith)
        requires
            mm == merged * one,
            distance(merged, mo) <= 2 * ge,
            x == ge * one,
            one >= 0,
    ;
    assert(share * eo == (share * events) * one) by (nonlinear_arith)
        requires
            eo == events * one,
    ;
    assert(distance(share * events, mo) <= 6 * ge) by (nonlinear_arith)
        requires
            distance((share * events) * one, mo * one) <= 6 * (ge * one),
            one > 0,
    ;
}

/// The sequential share is near the exact one.
proof fn lemma_share(delta: WriteDelta)
    requires
        delta.io_events() <= u64::MAX,
        delta.ios > 0,
    ensures
        distance(
            waf::sequential_share(delta).number() * delta.io_events(),
            delta.merges * arithmetic::one(),
        ) <= 6 * (precision::grain() * delta.io_events()),
{
    let events = delta.io_events() as u64;
    let (m, t) = (Binary64::of(delta.merges), Binary64::of(events));
    let share = waf::sequential_share(delta);
    binary64::law_named_numbers();
    order::lemma_one_positive();
    precision::lemma_grain();
    waf::law_sequential_share_is_a_fraction(delta);
    order::lemma_finite(share, waf::unity());
    order::lemma_of(delta.merges);
    order::lemma_of(events);
    precision::lemma_of_near(delta.merges);
    precision::lemma_of_near(events);
    precision::lemma_quotient_near(m, t);
    lemma_share_steps(
        delta.merges as int,
        events as int,
        m.number(),
        t.number(),
        share.number(),
        arithmetic::one() as int,
        precision::grain() as int,
    );
}

/// A larger exact share does not become a smaller one, but for rounding.
proof fn lemma_share_order(
    m1: int,
    t1: int,
    s1: int,
    m2: int,
    t2: int,
    s2: int,
    one: int,
    grain: int,
)
    requires
        t1 > 0,
        t2 > 0,
        m1 * t2 <= m2 * t1,
        one > 0,
        distance(s1 * t1, m1 * one) <= 6 * (grain * t1),
        distance(s2 * t2, m2 * one) <= 6 * (grain * t2),
    ensures
        s1 <= s2 + 12 * grain,
{
    let t = t1 * t2;
    assert((s1 * t1) * t2 <= (m1 * one + 6 * (grain * t1)) * t2) by (nonlinear_arith)
        requires
            s1 * t1 <= m1 * one + 6 * (grain * t1),
            t2 > 0,
    ;
    assert((m2 * one - 6 * (grain * t2)) * t1 <= (s2 * t2) * t1) by (nonlinear_arith)
        requires
            m2 * one - 6 * (grain * t2) <= s2 * t2,
            t1 > 0,
    ;
    assert((m1 * one) * t2 <= (m2 * one) * t1) by (nonlinear_arith)
        requires
            m1 * t2 <= m2 * t1,
            one > 0,
    ;
    assert((s1 * t1) * t2 == s1 * t && (s2 * t2) * t1 == s2 * t) by (nonlinear_arith)
        requires
            t == t1 * t2,
    ;
    assert((m1 * one + 6 * (grain * t1)) * t2 == (m1 * one) * t2 + 6 * (grain * t)) by (nonlinear_arith)
        requires
            t == t1 * t2,
    ;
    assert((m2 * one - 6 * (grain * t2)) * t1 == (m2 * one) * t1 - 6 * (grain * t)) by (nonlinear_arith)
        requires
            t == t1 * t2,
    ;
    assert(t > 0) by (nonlinear_arith)
        requires
            t == t1 * t2,
            t1 > 0,
            t2 > 0,
    ;
    assert(s1 <= s2 + 12 * grain) by (nonlinear_arith)
        requires
            s1 * t <= s2 * t + 12 * (grain * t),
            t > 0,
    ;
}

/// From the blends to the sums.
proof fn lemma_merged_steps(
    page: int,
    s1: int,
    s2: int,
    b1: int,
    b2: int,
    added: int,
    sum1: int,
    sum2: int,
    one: int,
    grain: int,
)
    requires
        one == 0x20_0000_0000_0000 * grain,
        grain > 0x40_0000_0000_0000,
        one <= page,
        0 <= b1,
        0 <= b2,
        0x20_0000_0000_0000 * b1 <= 0x20_0000_0000_0007 * page,
        0x20_0000_0000_0000 * b2 <= 0x20_0000_0000_0007 * page,
        s1 <= s2 + 12 * grain,
        distance(b1 * one, page * (one - s1) + s1 * one) <= 7 * (grain * page),
        distance(b2 * one, page * (one - s2) + s2 * one) <= 7 * (grain * page),
        0 <= added <= 99 * one,
        near(sum1, b1 + added, 1),
        near(sum2, b2 + added, 1),
    ensures
        0x20_0000_0000_0000 * (sum2 - sum1) <= 229 * page,
{
    let z = grain * page;
    let (f1, f2) = (page * (one - s1) + s1 * one, page * (one - s2) + s2 * one);
    assert(f2 - f1 == (s1 - s2) * (page - one)) by (nonlinear_arith)
        requires
            f1 == page * (one - s1) + s1 * one,
            f2 == page * (one - s2) + s2 * one,
    ;
    assert((s1 - s2) * (page - one) <= 12 * z) by (nonlinear_arith)
        requires
            s1 - s2 <= 12 * grain,
            0 <= page - one <= page,
            grain >= 0,
            z == grain * page,
    {
        assert((s1 - s2) * (page - one) <= (12 * grain) * (page - one));
        assert((12 * grain) * (page - one) <= (12 * grain) * page);
    }
    assert((b2 - b1) * one <= 26 * z) by (nonlinear_arith)
        requires
            b2 * one - b1 * one <= 26 * z,
    ;
    assert(0x20_0000_0000_0000 * (b2 - b1) <= 26 * page) by (nonlinear_arith)
        requires
            (b2 - b1) * one <= 26 * (grain * page),
            one == 0x20_0000_0000_0000 * grain,
            grain > 0,
    ;
}

/// Merging never raises the write amplification: where as many sectors come in as many
/// requests and more of them were merged, it is not larger, up to rounding, which is less than
/// the amplification by pages over two to the power of 45.
pub proof fn law_merging_never_amplifies(
    delta: WriteDelta,
    more_merges: u64,
    flash_page_bytes: u64,
    fill_ratio: Binary64,
    over_provision: Binary64,
)
    requires
        waf::estimable(delta, flash_page_bytes),
        delta.merges <= more_merges,
        (WriteDelta { merges: more_merges, ..delta }).fits(),
    ensures
        ({
            let merged = WriteDelta { merges: more_merges, ..delta };
            0x2000_0000_0000 * (waf::amplification(
                merged,
                flash_page_bytes,
                fill_ratio,
                over_provision,
            ).number() - waf::amplification(
                delta,
                flash_page_bytes,
                fill_ratio,
                over_provision,
            ).number()) < waf::page_amplification(delta, flash_page_bytes).number()
        }),
{
    let merged = WriteDelta { merges: more_merges, ..delta };
    let (one, grain) = (arithmetic::one() as int, precision::grain() as int);
    let added = waf::added_by_collection(fill_ratio, over_provision);
    binary64::law_named_numbers();
    order::lemma_one_positive();
    precision::lemma_grain();
    lemma_blend(delta, flash_page_bytes);
    lemma_blend(merged, flash_page_bytes);
    if !added.is_nan() {
        lemma_total(delta, flash_page_bytes, fill_ratio, over_provision);
        lemma_total(merged, flash_page_bytes, fill_ratio, over_provision);
        lemma_share(delta);
        lemma_share(merged);
        let page = waf::page_amplification(delta, flash_page_bytes).number();
        assert(waf::page_amplification(merged, flash_page_bytes).number() == page);
        let (s1, s2) = (
            waf::sequential_share(delta).number(),
            waf::sequential_share(merged).number(),
        );
        let (b1, b2) = (
            waf::blended_amplification(delta, flash_page_bytes),
            waf::blended_amplification(merged, flash_page_bytes),
        );
        let (m1, m2, ios) = (delta.merges as int, more_merges as int, delta.ios as int);
        assert(m1 * (ios + m2) <= m2 * (ios + m1)) by (nonlinear_arith)
            requires
                m1 <= m2,
                ios >= 0,
        ;
        lemma_share_order(m1, ios + m1, s1, m2, ios + m2, s2, one, grain);
        lemma_merged_steps(
            page,
            s1,
            s2,
            b1.number(),
            b2.number(),
            added.number(),
            b1.sum(added).number(),
            b2.sum(added).number(),
            one,
            grain,
        );
    }
}

// ---------------------------------------------------------------------------
// Large requests
// ---------------------------------------------------------------------------
/// The steps to the pages that a request takes, where it is a page or more, each near the
/// exact one.
proof fn lemma_page_steps(
    page: int,
    ios: int,
    bytes: int,
    p: int,
    y: int,
    x: int,
    request: int,
    ratio: int,
    one: int,
    grain: int,
)
    requires
        one == 0x20_0000_0000_0000 * grain,
        grain > 0x40_0000_0000_0000,
        one >= 0x100_0000_0000_0000_0000_0000_0000_0000_0000,
        0 < page,
        0 < ios,
        0 < bytes,
        page * ios <= bytes,
        near(p, page * one, 1),
        near(y, ios * one, 1),
        near(x, bytes * one, 1),
        near(request, x * one, y),
        near(ratio, p * one, request),
        one <= p,
        one <= x,
        one <= y <= 0x1_0000_0000_0000_0000 * one,
        0 < request <= x,
        x <= 0x1_0000_0000_0000_0000 * one,
        0 <= ratio,
    ensures
        ratio <= one + 16 * grain,
{
    let (po, yo, xo) = (page * one, ios * one, bytes * one);
    assert(po >= one && yo >= one && xo >= one) by (nonlinear_arith)
        requires
            po == page * one,
            yo == ios * one,
            xo == bytes * one,
            page >= 1,
            ios >= 1,
            bytes >= 1,
            one > 0,
    ;
    assert(0x20_0000_0000_0000 * x >= 0x1f_ffff_ffff_fffe * xo);
    assert(0x20_0000_0000_0000 * y <= 0x20_0000_0000_0002 * yo);
    assert(0x20_0000_0000_0000 * p <= 0x20_0000_0000_0002 * po);
    let (xu, pu) = (x * one, p * one);
    assert(0x10_0000_0000_0000 * y <= xu) by (nonlinear_arith)
        requires
            xu == x * one,
            one <= x,
            y <= 0x1_0000_0000_0000_0000 * one,
            one >= 0x100_0000_0000_0000_0000_0000_0000_0000_0000,
    ;
    assert(0x10_0000_0000_0000 * request <= pu) by (nonlinear_arith)
        requires
            pu == p * one,
            one <= p,
            request <= 0x1_0000_0000_0000_0000 * one,
            one >= 0x100_0000_0000_0000_0000_0000_0000_0000_0000,
    ;
    let (ry, wr) = (request * y, ratio * request);
    assert(0x20_0000_0000_0000 * ry >= 0x1f_ffff_ffff_fffe * xu);
    assert(0x20_0000_0000_0000 * wr <= 0x20_0000_0000_0002 * pu);
    // The pages that a request takes, over all steps but the last.
    assert(0x1f_ffff_ffff_fffe * (ratio * x) <= 0x20_0000_0000_0002 * (p * y)) by {
        let (left, right) = (0x1f_ffff_ffff_fffe * (ratio * x), 0x20_0000_0000_0002 * (p * y));
        assert(ratio * (0x1f_ffff_ffff_fffe * xu) <= ratio * (0x20_0000_0000_0000 * ry))
            by (nonlinear_arith)
            requires
                0x1f_ffff_ffff_fffe * xu <= 0x20_0000_0000_0000 * ry,
                ratio >= 0,
        ;
        assert(ratio * (0x20_0000_0000_0000 * ry) == (0x20_0000_0000_0000 * wr) * y)
            by (nonlinear_arith)
            requires
                ry == request * y,
                wr == ratio * request,
        ;
        assert((0x20_0000_0000_0000 * wr) * y <= (0x20_0000_0000_0002 * pu) * y)
            by (nonlinear_arith)
            requires
                0x20_0000_0000_0000 * wr <= 0x20_0000_0000_0002 * pu,
                y >= 0,
        ;
        assert(ratio * (0x1f_ffff_ffff_fffe * xu) == left * one) by (nonlinear_arith)
            requires
                left == 0x1f_ffff_ffff_fffe * (ratio * x),
                xu == x * one,
        ;
        assert((0x20_0000_0000_0002 * pu) * y == right * one) by (nonlinear_arith)
            requires
                right == 0x20_0000_0000_0002 * (p * y),
                pu == p * one,
        ;
        assert(left <= right) by (nonlinear_arith)
            requires
                left * one <= right * one,
                one > 0,
        ;
    }
    lemma_page_ratio(ratio, x, p, y, xo, po, yo, page, ios, bytes, one);
    assert(0x20_0000_0000_0000 * ratio <= 0x20_0000_0000_0010 * one);
}

/// The last step to the pages that a request takes.
proof fn lemma_page_ratio(
    ratio: int,
    x: int,
    p: int,
    y: int,
    xo: int,
    po: int,
    yo: int,
    page: int,
    ios: int,
    bytes: int,
    one: int,
)
    requires
        0 <= ratio,
        0 < one,
        0 < page,
        0 < ios,
        0 < bytes,
        0 <= p,
        0 <= y,
        0 <= x,
        page * ios <= bytes,
        po == page * one,
        yo == ios * one,
        xo == bytes * one,
        0x20_0000_0000_0000 * x >= 0x1f_ffff_ffff_fffe * xo,
        0x20_0000_0000_0000 * y <= 0x20_0000_0000_0002 * yo,
        0x20_0000_0000_0000 * p <= 0x20_0000_0000_0002 * po,
        0x1f_ffff_ffff_fffe * (ratio * x) <= 0x20_0000_0000_0002 * (p * y),
    ensures
        0x20_0000_0000_0000 * ratio <= 0x20_0000_0000_0010 * one,
{
    let e: int = 0x20_0000_0000_0000;
    let (lo, hi): (int, int) = (0x1f_ffff_ffff_fffe, 0x20_0000_0000_0002);
    // Both factors on the right, from above.
    assert((e * p) * (e * y) <= (hi * po) * (hi * yo)) by (nonlinear_arith)
        requires
            0 <= e * p <= hi * po,
            0 <= e * y <= hi * yo,
    ;
    assert(po * yo <= xo * one) by (nonlinear_arith)
        requires
            po == page * one,
            yo == ios * one,
            xo == bytes * one,
            page * ios <= bytes,
            one > 0,
    {
        assert((page * one) * (ios * one) == (page * ios) * (one * one));
        assert((page * ios) * (one * one) <= bytes * (one * one));
        assert(bytes * (one * one) == (bytes * one) * one);
    }
    let (py, rx, xu) = (p * y, ratio * x, xo * one);
    assert((e * p) * (e * y) == e * e * py) by (nonlinear_arith)
        requires
            py == p * y,
    ;
    assert((hi * po) * (hi * yo) == hi * hi * (po * yo)) by (nonlinear_arith);
    assert(e * e * py <= hi * hi * xu);
    // The left side, from below.
    let rxo = ratio * xo;
    assert(e * rx >= lo * rxo) by (nonlinear_arith)
        requires
            rx == ratio * x,
            rxo == ratio * xo,
            e * x >= lo * xo,
            ratio >= 0,
    ;
    assert(lo * (e * rx) <= hi * (e * py));
    assert((e * lo * lo) * rxo <= (hi * hi * hi) * xu) by (nonlinear_arith)
        requires
            e * rx >= lo * rxo,
            lo * (e * rx) <= hi * (e * py),
            e * e * py <= hi * hi * xu,
            e > 0,
            lo > 0,
            hi > 0,
    {
        assert(lo * (lo * rxo) <= lo * (e * rx));
        assert(e * (lo * (lo * rxo)) <= e * (hi * (e * py)));
        assert(e * (hi * (e * py)) == hi * (e * e * py));
        assert(hi * (e * e * py) <= hi * (hi * hi * xu));
    }
    assert(xo > 0) by (nonlinear_arith)
        requires
            xo == bytes * one,
            bytes > 0,
            one > 0,
    ;
    assert((e * lo * lo) * ratio <= (hi * hi * hi) * one) by (nonlinear_arith)
        requires
            (e * lo * lo) * (ratio * xo) <= (hi * hi * hi) * (xo * one),
            xo > 0,
    ;
    let c = lo * lo;
    assert(hi * hi * hi <= c * (e + 16)) by (nonlinear_arith)
        requires
            c == lo * lo,
            e == 0x20_0000_0000_0000,
            lo == 0x1f_ffff_ffff_fffe,
            hi == 0x20_0000_0000_0002,
    ;
    assert(c > 0) by (nonlinear_arith)
        requires
            c == lo * lo,
            lo == 0x1f_ffff_ffff_fffe,
    ;
    assert(e * ratio <= (e + 16) * one) by (nonlinear_arith)
        requires
            (e * lo * lo) * ratio <= (hi * hi * hi) * one,
            hi * hi * hi <= c * (e + 16),
            c == lo * lo,
            c > 0,
            one > 0,
    {
        assert((e * lo * lo) * ratio == c * (e * ratio));
        assert((hi * hi * hi) * one <= (c * (e + 16)) * one);
        assert((c * (e + 16)) * one == c * ((e + 16) * one));
    }
}

/// Where a request is a page or more on average, the amplification by pages is one, up to
/// rounding.
proof fn lemma_large_request(delta: WriteDelta, flash_page_bytes: u64)
    requires
        delta.fits(),
        waf::estimable(delta, flash_page_bytes),
        flash_page_bytes * delta.ios <= delta.bytes(),
    ensures
        waf::page_amplification(delta, flash_page_bytes).number() <= arithmetic::one() + 16
            * precision::grain(),
{
    let n = delta.bytes() as u64;
    let (x, y, p) = (Binary64::of(n), Binary64::of(delta.ios), Binary64::of(flash_page_bytes));
    let request = waf::average_request(delta);
    let ratio = p.quotient(request);
    let one = arithmetic::one() as int;
    binary64::law_named_numbers();
    order::lemma_one_positive();
    precision::lemma_grain();
    waf::lemma_page_amplification(delta, flash_page_bytes);
    order::lemma_of(n);
    order::lemma_of(delta.ios);
    order::lemma_of(flash_page_bytes);
    order::lemma_of_bound(n);
    order::lemma_of_bound(delta.ios);
    order::lemma_non_negative(x);
    order::lemma_non_negative(y);
    order::lemma_quotient_not_above(x, y);
    order::lemma_quotient_number(p, request);
    if waf::unity().le(ratio) {
        assert(waf::page_amplification(delta, flash_page_bytes) == ratio);
    }
    precision::lemma_of_near(n);
    precision::lemma_of_near(delta.ios);
    precision::lemma_of_near(flash_page_bytes);
    precision::lemma_quotient_near(x, y);
    order::lemma_finite(ratio, waf::page_amplification(delta, flash_page_bytes));
    precision::lemma_quotient_near(p, request);
    assert(one >= 0x100_0000_0000_0000_0000_0000_0000_0000_0000) by {
        rounding::lemma_p2_adds(1010, 64);
        rounding::lemma_p2_adds(946, 64);
        rounding::lemma_p2_adds(882, 64);
        vstd::arithmetic::power2::lemma2_to64();
        let (a, t) = (rounding::p2(882), 0x1_0000_0000_0000_0000int);
        assert(a * t * t * t >= 0x100_0000_0000_0000_0000_0000_0000_0000_0000) by (nonlinear_arith)
            requires
                a >= 1,
                t == 0x1_0000_0000_0000_0000,
        ;
    }
    lemma_page_steps(
        flash_page_bytes as int,
        delta.ios as int,
        n as int,
        p.number(),
        y.number(),
        x.number(),
        request.number(),
        ratio.number(),
        one,
        precision::grain() as int,
    );
}

/// What is left of the write amplification without pages: one, and what garbage collection
/// adds, where that is a number.
pub open spec fn without_pages(fill_ratio: Binary64, over_provision: Binary64) -> int {
    let added = waf::added_by_collection(fill_ratio, over_provision);
    if added.is_nan() {
        binary64::one_in_units() as int
    } else {
        binary64::one_in_units() + added.number()
    }
}

/// Requests of a page or more on average are amplified by garbage collection alone, however
/// many of them were merged: the write amplification is one and what garbage collection adds,
/// up to rounding, which is less than two to the power of -45.
pub proof fn law_large_requests_are_amplified_by_collection_alone(
    delta: WriteDelta,
    flash_page_bytes: u64,
    fill_ratio: Binary64,
    over_provision: Binary64,
)
    requires
        delta.fits(),
        waf::estimable(delta, flash_page_bytes),
        flash_page_bytes * delta.ios <= delta.bytes(),
    ensures
        0x2000_0000_0000 * distance(
            waf::amplification(
                delta,
                flash_page_bytes,
                fill_ratio,
                over_provision,
            ).number(),
            without_pages(fill_ratio, over_provision),
        ) < binary64::one_in_units(),
{
    let (one, grain) = (arithmetic::one() as int, precision::grain() as int);
    let added = waf::added_by_collection(fill_ratio, over_provision);
    binary64::law_named_numbers();
    order::lemma_one_positive();
    precision::lemma_grain();
    if !added.is_nan() {
        lemma_blend(delta, flash_page_bytes);
        lemma_total(delta, flash_page_bytes, fill_ratio, over_provision);
        lemma_large_request(delta, flash_page_bytes);
        let w = waf::page_amplification(delta, flash_page_bytes).number();
        let s = waf::sequential_share(delta).number();
        let blended = waf::blended_amplification(delta, flash_page_bytes);
        let b = blended.number();
        let f = w * (one - s) + s * one;
        assert(one * one <= f <= w * one) by (nonlinear_arith)
            requires
                f == w * (one - s) + s * one,
                0 <= s <= one <= w,
        ;
        assert(w * one <= one * one + 16 * (grain * one)) by (nonlinear_arith)
            requires
                w <= one + 16 * grain,
                one > 0,
        ;
        assert(grain * w <= 2 * (grain * one)) by (nonlinear_arith)
            requires
                w <= 2 * one,
                grain > 0,
        ;
        assert(distance(b, one) <= 30 * grain) by (nonlinear_arith)
            requires
                distance(b * one, one * one) <= 30 * (grain * one),
                one > 0,
        ;
    }
}

// ---------------------------------------------------------------------------
// All together
// ---------------------------------------------------------------------------
/// More merging or larger requests never raise the write amplification, the former up to
/// rounding; and where the requests are a page or more on average, neither changes it, up to
/// rounding.
pub proof fn law_merging_and_larger_requests(
    delta: WriteDelta,
    more_merges: u64,
    more_sectors: u64,
    flash_page_bytes: u64,
    fill_ratio: Binary64,
    over_provision: Binary64,
)
    requires
        waf::estimable(delta, flash_page_bytes),
        delta.merges <= more_merges,
        delta.sectors <= more_sectors,
        (WriteDelta { merges: more_merges, sectors: more_sectors, ..delta }).fits(),
    ensures
        ({
            let merged = WriteDelta { merges: more_merges, ..delta };
            let both = WriteDelta { merges: more_merges, sectors: more_sectors, ..delta };
            let waf = waf::amplification(delta, flash_page_bytes, fill_ratio, over_provision);
            let waf_merged = waf::amplification(
                merged,
                flash_page_bytes,
                fill_ratio,
                over_provision,
            );
            let waf_both = waf::amplification(
                both,
                flash_page_bytes,
                fill_ratio,
                over_provision,
            );
            &&& 0x2000_0000_0000 * (waf_merged.number() - waf.number())
                < waf::page_amplification(delta, flash_page_bytes).number()
            &&& waf_both.le(waf_merged)
            &&& flash_page_bytes * delta.ios <= delta.bytes() ==> {
                &&& 0x1000_0000_0000 * distance(waf.number(), waf_merged.number())
                    < binary64::one_in_units()
                &&& 0x1000_0000_0000 * distance(waf_merged.number(), waf_both.number())
                    < binary64::one_in_units()
                &&& 0x1000_0000_0000 * distance(waf.number(), waf_both.number())
                    < binary64::one_in_units()
            }
        }),
{
    let merged = WriteDelta { merges: more_merges, ..delta };
    let both = WriteDelta { merges: more_merges, sectors: more_sectors, ..delta };
    law_merging_never_amplifies(delta, more_merges, flash_page_bytes, fill_ratio, over_provision);
    waf::law_larger_requests_amplify_less(
        merged,
        more_sectors,
        flash_page_bytes,
        fill_ratio,
        over_provision,
    );
    if flash_page_bytes * delta.ios <= delta.bytes() {
        law_large_requests_are_amplified_by_collection_alone(
            delta,
            flash_page_bytes,
            fill_ratio,
            over_provision,
        );
        law_large_requests_are_amplified_by_collection_alone(
            merged,
            flash_page_bytes,
            fill_ratio,
            over_provision,
        );
        law_large_requests_are_amplified_by_collection_alone(
            both,
            flash_page_bytes,
            fill_ratio,
            over_provision,
        );
    }
}

/// The write amplification is finite, and at most the amplification by pages and 99, up to
/// rounding, which is less than that over two to the power of 49.
pub proof fn law_amplification_is_bounded(
    delta: WriteDelta,
    flash_page_bytes: u64,
    fill_ratio: Binary64,
    over_provision: Binary64,
)
    requires
        waf::estimable(delta, flash_page_bytes) ==> delta.fits(),
    ensures
        order::finite(
            waf::amplification(delta, flash_page_bytes, fill_ratio, over_provision),
        ),
        waf::estimable(delta, flash_page_bytes) ==> {
            let bound = waf::page_amplification(delta, flash_page_bytes).number() + 99
                * binary64::one_in_units();
            0x2_0000_0000_0000 * (waf::amplification(
                delta,
                flash_page_bytes,
                fill_ratio,
                over_provision,
            ).number() - bound) < bound
        },
{
    binary64::law_named_numbers();
    order::lemma_one_positive();
    precision::lemma_grain();
    if waf::estimable(delta, flash_page_bytes) {
        lemma_blend(delta, flash_page_bytes);
        if !waf::added_by_collection(fill_ratio, over_provision).is_nan() {
            lemma_total(delta, flash_page_bytes, fill_ratio, over_provision);
        }
    }
}

/// The blended amplification is the linear blend of the amplification by pages, for the random
/// share of the writes, and of one, for the sequential share: `blended = page * (1 - share) +
/// share`, up to 7 parts in two to the power of 53 of the amplification by pages.
pub proof fn law_blend_is_linear(delta: WriteDelta, flash_page_bytes: u64)
    requires
        delta.ios > 0,
        delta.sectors > 0,
        flash_page_bytes > 0,
        delta.sectors * 512 <= u64::MAX,
        delta.ios + delta.merges <= u64::MAX,
    ensures
        ({
            let one = binary64::one_in_units();
            let page = waf::page_amplification(delta, flash_page_bytes).number();
            let share = waf::sequential_share(delta).number();
            let blended = waf::blended_amplification(delta, flash_page_bytes).number();
            0x20_0000_0000_0000 * distance(
                blended * one,
                page * (one - share) + share * one,
            ) <= 7 * (page * one)
        }),
{
    let page = waf::page_amplification(delta, flash_page_bytes).number();
    let (one, grain) = (arithmetic::one() as int, precision::grain() as int);
    precision::lemma_grain();
    lemma_blend(delta, flash_page_bytes);
    assert(page * one == 0x20_0000_0000_0000 * (grain * page)) by (nonlinear_arith)
        requires
            one == 0x20_0000_0000_0000 * grain,
    ;
}

/// The write amplification is the blended one and what garbage collection adds, `blended +
/// (collection - 1)`, up to rounding, and one where that is less; where there is nothing to
/// estimate it is one.
pub proof fn law_amplification_is_blend_and_collection(
    delta: WriteDelta,
    flash_page_bytes: u64,
    fill_ratio: Binary64,
    over_provision: Binary64,
)
    requires
        delta.sectors * 512 <= u64::MAX,
        delta.ios + delta.merges <= u64::MAX,
        settings::up_to(fill_ratio, waf::unity()),
        settings::up_to(over_provision, waf::unity()),
    ensures
        ({
            let one = binary64::one_in_units() as int;
            let total = waf::amplification(
                delta,
                flash_page_bytes,
                fill_ratio,
                over_provision,
            ).number();
            let sum = waf::blended_amplification(delta, flash_page_bytes).number() + (
            waf::collection_amplification(fill_ratio, over_provision).number() - one);
            &&& delta.ios == 0 || delta.sectors == 0 || flash_page_bytes == 0 ==> total == one
            &&& delta.ios > 0 && delta.sectors > 0 && flash_page_bytes > 0 ==> {
                &&& total >= one
                &&& 0x2_0000_0000_0000 * (sum - total) <= sum + one
                &&& total > one ==> 0x2_0000_0000_0000 * (total - sum) <= sum + one
            }
        }),
{
    let one = arithmetic::one() as int;
    let added = waf::added_by_collection(fill_ratio, over_provision);
    let collection = waf::collection_amplification(fill_ratio, over_provision);
    let fill = waf::effective_fill(fill_ratio, over_provision);
    binary64::law_named_numbers();
    order::lemma_one_positive();
    precision::lemma_grain();
    if delta.ios > 0 && delta.sectors > 0 && flash_page_bytes > 0 {
        order::lemma_finite(fill_ratio, waf::unity());
        waf::law_effective_fill_grows(fill_ratio, fill_ratio, over_provision);
        waf::lemma_collection(fill, fill);
        lemma_blend(delta, flash_page_bytes);
        lemma_total(delta, flash_page_bytes, fill_ratio, over_provision);
        crate::accuracy::lemma_collection_number(fill);
        precision::lemma_difference_near(collection, waf::unity());
    }
}

} // verus!
