//! Write amplification: how much more is written to flash than the host sends.
//!
//! The model has two parts. Flash is written in pages, so that a request smaller than a
//! page wastes the rest of it, unless requests are sequential and can be gathered into
//! full pages. And garbage collection moves data that is still in use, the more the
//! fuller the flash is. The two add up, as garbage collection moves full pages.

use vstd::prelude::*;
use crate::arithmetic;
use crate::binary64;
use crate::binary64::Binary64;
use crate::kernel::WriteDelta;
use crate::order;
use crate::precision;
use crate::rounding;
use crate::settings;

verus! {

pub open spec fn unity() -> Binary64 {
    Binary64 { bits: binary64::ONE }
}

pub open spec fn nil() -> Binary64 {
    Binary64 { bits: binary64::ZERO }
}

/// The largest fill level that the model of garbage collection takes: 0.99.
pub open spec fn max_fill() -> Binary64 {
    Binary64 { bits: binary64::NINETY_NINE_HUNDREDTHS }
}

/// The size of a request in bytes, on average: `bytes / ios`.
pub open spec fn average_request(delta: WriteDelta) -> Binary64 {
    Binary64::of(delta.bytes() as u64).quotient(Binary64::of(delta.ios))
}

/// The amplification of random writes by whole pages: `page / request`, and at least 1.
pub open spec fn page_amplification(delta: WriteDelta, flash_page_bytes: u64) -> Binary64 {
    Binary64::of(flash_page_bytes).quotient(average_request(delta)).floored(unity())
}

/// The share of sequential writes: `merges / (ios + merges)`, as only adjacent requests are
/// merged.
pub open spec fn sequential_share(delta: WriteDelta) -> Binary64 {
    if delta.io_events() > 0 {
        Binary64::of(delta.merges).quotient(Binary64::of(delta.io_events() as u64))
    } else {
        nil()
    }
}

/// The amplification by pages, where the sequential share is not amplified:
/// `page_waf * (1 - share) + 1 * share`.
pub open spec fn blended_amplification(delta: WriteDelta, flash_page_bytes: u64) -> Binary64 {
    let share = sequential_share(delta);
    page_amplification(delta, flash_page_bytes).product(unity().difference(share)).sum(
        unity().product(share),
    )
}

/// The fill level of the flash behind a file system that is filled to `fill_ratio`, where
/// the card holds back the share `over_provision`: `fill_ratio * (1 - over_provision)`, cut
/// off at 0 and at 0.99.
pub open spec fn effective_fill(fill_ratio: Binary64, over_provision: Binary64) -> Binary64 {
    fill_ratio.product(unity().difference(over_provision)).clamped(nil(), max_fill())
}

/// The amplification by greedy garbage collection: `1 / (1 - effective_fill)`.
pub open spec fn collection_amplification(
    fill_ratio: Binary64,
    over_provision: Binary64,
) -> Binary64 {
    unity().quotient(unity().difference(effective_fill(fill_ratio, over_provision)))
}

/// What garbage collection adds to the amplification: `collection - 1`.
pub open spec fn added_by_collection(
    fill_ratio: Binary64,
    over_provision: Binary64,
) -> Binary64 {
    collection_amplification(fill_ratio, over_provision).difference(unity())
}

/// There is something to estimate: requests, sectors and a page size.
pub open spec fn estimable(delta: WriteDelta, flash_page_bytes: u64) -> bool {
    delta.ios > 0 && delta.sectors > 0 && flash_page_bytes > 0
}

/// The write amplification: the blended one by pages, and what garbage collection adds to
/// it, `page + (collection - 1)`; at least 1, and 1 where there is nothing to estimate.
pub open spec fn amplification(
    delta: WriteDelta,
    flash_page_bytes: u64,
    fill_ratio: Binary64,
    over_provision: Binary64,
) -> Binary64 {
    if estimable(delta, flash_page_bytes) {
        blended_amplification(delta, flash_page_bytes).sum(
            added_by_collection(fill_ratio, over_provision),
        ).floored(unity())
    } else {
        unity()
    }
}

/// The bytes that are written to flash for what the host wrote: `bytes * waf`, without the
/// fraction.
pub open spec fn flash_bytes(delta: WriteDelta, waf: Binary64) -> u64 {
    Binary64::of(delta.bytes() as u64).product(waf).integer_part()
}

/// The share of sequential writes.
pub fn sequential_ratio(delta: &WriteDelta) -> (r: Binary64)
    requires
        delta.io_events() <= u64::MAX,
    ensures
        r == sequential_share(*delta),
{
    let total_io_events = delta.total_io_events();
    if total_io_events > 0 {
        Binary64::from_integer(delta.merges).over(Binary64::from_integer(total_io_events))
    } else {
        Binary64 { bits: binary64::ZERO }
    }
}

/// Estimates the write amplification of so many sectors in so many requests, of which so
/// many more were merged, by a device with pages of the given size that holds back the share
/// `over_provision` and whose fullest file system is filled to `fill_ratio`.
pub fn estimate_waf(
    delta_sectors: u64,
    delta_ios: u64,
    delta_merges: u64,
    flash_page_bytes: u64,
    fill_ratio: Binary64,
    over_provision: Binary64,
) -> (r: Binary64)
    requires
        ({
            let delta = WriteDelta {
                ios: delta_ios,
                merges: delta_merges,
                sectors: delta_sectors,
            };
            estimable(delta, flash_page_bytes) ==> delta.fits()
        }),
    ensures
        r == amplification(
            (WriteDelta { ios: delta_ios, merges: delta_merges, sectors: delta_sectors }),
            flash_page_bytes,
            fill_ratio,
            over_provision,
        ),
{
    let zero = Binary64 { bits: binary64::ZERO };
    let one = Binary64 { bits: binary64::ONE };
    if delta_ios == 0 || delta_sectors == 0 {
        return one;
    }
    if flash_page_bytes == 0 {
        return one;
    }
    let delta = WriteDelta { ios: delta_ios, merges: delta_merges, sectors: delta_sectors };
    let avg_io_bytes = Binary64::from_integer(delta.host_bytes()).over(
        Binary64::from_integer(delta_ios),
    );
    let page_waf = Binary64::from_integer(flash_page_bytes).over(avg_io_bytes).floor_at(one);
    let share = sequential_ratio(&delta);
    let random_waf = page_waf.times(one.minus(share)).plus(one.times(share));
    let fill = fill_ratio.times(one.minus(over_provision)).clamp_to(
        zero,
        Binary64 { bits: binary64::NINETY_NINE_HUNDREDTHS },
    );
    let gc_waf = one.over(one.minus(fill));
    random_waf.plus(gc_waf.minus(one)).floor_at(one)
}

/// The bytes that are written to flash for what the host wrote.
pub fn flash_bytes_written(delta: &WriteDelta, waf: Binary64) -> (n: u64)
    requires
        delta.bytes() <= u64::MAX,
    ensures
        n == flash_bytes(*delta, waf),
{
    Binary64::from_integer(delta.host_bytes()).times(waf).to_integer()
}

/// The size of a request in kilobytes, on average: `kb / ios`, and 0 where there was no
/// request.
pub open spec fn average_request_kb(delta: WriteDelta) -> Binary64 {
    if delta.ios > 0 {
        Binary64::of((delta.bytes() / 1024) as u64).quotient(Binary64::of(delta.ios))
    } else {
        nil()
    }
}

/// The size of a request in kilobytes, on average.
pub fn avg_io_kb(delta: &WriteDelta) -> (r: Binary64)
    requires
        delta.bytes() <= u64::MAX,
    ensures
        r == average_request_kb(*delta),
{
    if delta.ios > 0 {
        Binary64::from_integer(delta.host_kb()).over(Binary64::from_integer(delta.ios))
    } else {
        Binary64 { bits: binary64::ZERO }
    }
}

/// Nothing is written that was not sent: the write amplification is a number, and at least
/// one, whatever the figures.
pub proof fn law_amplification_is_at_least_one(
    delta: WriteDelta,
    flash_page_bytes: u64,
    fill_ratio: Binary64,
    over_provision: Binary64,
)
    ensures
        unity().le(amplification(delta, flash_page_bytes, fill_ratio, over_provision)),
{
}

/// The sequential share is a fraction between 0 and 1.
pub proof fn law_sequential_share_is_a_fraction(delta: WriteDelta)
    requires
        delta.io_events() <= u64::MAX,
    ensures
        nil().le(sequential_share(delta)),
        sequential_share(delta).le(unity()),
{
    binary64::law_named_numbers();
    if delta.io_events() > 0 {
        order::lemma_of(delta.merges);
        order::lemma_of(delta.io_events() as u64);
        order::lemma_of_monotone(delta.merges, delta.io_events() as u64);
        order::lemma_quotient_at_most_one(
            Binary64::of(delta.merges),
            Binary64::of(delta.io_events() as u64),
        );
    }
}

/// Without merged requests the sequential share is 0, and random writes suffer the full
/// amplification by pages.
pub proof fn law_no_merges_is_fully_random(delta: WriteDelta, flash_page_bytes: u64)
    requires
        delta.merges == 0,
    ensures
        sequential_share(delta) == nil(),
        blended_amplification(delta, flash_page_bytes) == page_amplification(
            delta,
            flash_page_bytes,
        ),
{
    binary64::law_named_numbers();
    order::lemma_one_positive();
    if delta.io_events() > 0 {
        order::lemma_of(0);
        order::lemma_of(delta.ios);
        binary64::lemma_units_order(0, 0);
        arithmetic::lemma_rounded_zero(arithmetic::size(Binary64::of(delta.ios)));
        assert(0 * arithmetic::one() == 0) by (nonlinear_arith);
    }
    let page = page_amplification(delta, flash_page_bytes);
    order::lemma_plus_zero(unity());
    order::lemma_times_one(page);
    order::lemma_times_one(nil());
    order::lemma_plus_zero(page);
}

/// Requests that are a page or more on average are not amplified by pages.
pub proof fn law_large_requests_fill_their_pages(delta: WriteDelta, flash_page_bytes: u64)
    requires
        delta.fits(),
        estimable(delta, flash_page_bytes),
        Binary64::of(flash_page_bytes).le(average_request(delta)),
    ensures
        page_amplification(delta, flash_page_bytes) == unity(),
{
    let page = Binary64::of(flash_page_bytes);
    let request = average_request(delta);
    binary64::law_named_numbers();
    order::lemma_of(flash_page_bytes);
    order::lemma_of(delta.bytes() as u64);
    order::lemma_of(delta.ios);
    order::lemma_quotient_not_above(Binary64::of(delta.bytes() as u64), Binary64::of(delta.ios));
    order::lemma_quotient_at_most_one(page, request);
    let ratio = page.quotient(request);
    binary64::law_order_is_total(ratio, unity());
    order::lemma_one_positive();
}

/// The fill level that garbage collection sees is higher where the file system is fuller,
/// and lies between 0 and 0.99.
pub proof fn law_effective_fill_grows(
    fill_ratio: Binary64,
    fuller: Binary64,
    over_provision: Binary64,
)
    requires
        nil().le(fill_ratio),
        fill_ratio.le(fuller),
        order::finite(fuller),
        settings::up_to(over_provision, unity()),
    ensures
        nil().le(effective_fill(fill_ratio, over_provision)),
        effective_fill(fill_ratio, over_provision).le(effective_fill(fuller, over_provision)),
        effective_fill(fuller, over_provision).le(max_fill()),
{
    binary64::law_named_numbers();
    order::lemma_one_positive();
    order::lemma_complement(over_provision, unity());
    order::lemma_product_monotone(fill_ratio, fuller, unity().difference(over_provision));
    lemma_max_fill();
}

/// 0.99 is a positive number below one.
pub(crate) proof fn lemma_max_fill()
    ensures
        nil().le(max_fill()),
        max_fill().lt(unity()),
{
    binary64::lemma_units_increase(0, max_fill().magnitude());
    binary64::lemma_units_increase(max_fill().magnitude(), unity().magnitude());
    binary64::lemma_units_order(0, 0);
}

/// How much of the flash is free at least at the largest fill level: one hundredth.
pub(crate) proof fn lemma_free_flash(fill: Binary64)
    requires
        nil().le(fill),
        fill.le(max_fill()),
    ensures
        order::finite(unity().difference(fill)),
        unity().difference(fill).le(unity()),
        100 * unity().difference(fill).number() >= arithmetic::one(),
{
    let p = rounding::p2(1021);
    let free: nat = 0x51eb_851e_b852;
    binary64::law_named_numbers();
    precision::lemma_grain();
    lemma_max_fill();
    order::lemma_complement(fill, max_fill());
    // What is free at the largest fill level is a number.
    let filled: nat = 0x1f_ae14_7ae1_47ae;
    rounding::lemma_units_form(1021, filled);
    assert(max_fill().magnitude() == 1021 * binary64::HIDDEN + filled);
    assert(filled * p + free * p == binary64::one_in_units()) by (nonlinear_arith)
        requires
            filled == 0x1f_ae14_7ae1_47ae,
            free == 0x51eb_851e_b852,
            binary64::one_in_units() == 0x20_0000_0000_0000 * p,
    ;
    let m = order::lemma_representable(free, 1021);
    let exact = unity().number() - fill.number();
    assert(exact >= binary64::units(m));
    order::lemma_negated(fill);
    order::lemma_finite(fill, unity());
    order::lemma_sum_number(unity(), fill.negated());
    order::lemma_rounded_bounds(exact as nat, 1, m);
    order::lemma_units_monotone(m, rounding::rounded(exact as nat, 1));
    assert(100 * (free * p) >= 0x20_0000_0000_0000 * p) by (nonlinear_arith)
        requires
            free == 0x51eb_851e_b852,
            p > 0,
    ;
}

/// Garbage collection amplifies by a number between one and 100, and by more where the fill
/// level is higher; so what it adds lies between 0 and 99.
pub(crate) proof fn lemma_collection(fill: Binary64, fuller: Binary64)
    requires
        nil().le(fill),
        fill.le(fuller),
        fuller.le(max_fill()),
    ensures
        ({
            let low = unity().quotient(unity().difference(fill)).difference(unity());
            let high = unity().quotient(unity().difference(fuller)).difference(unity());
            &&& nil().le(low)
            &&& low.le(high)
            &&& order::finite(high)
            &&& high.number() <= 99 * arithmetic::one()
        }),
{
    let one = arithmetic::one();
    let hundred = Binary64 { bits: binary64::ONE_HUNDRED };
    let (d1, d2) = (unity().difference(fill), unity().difference(fuller));
    let (g1, g2) = (unity().quotient(d1), unity().quotient(d2));
    binary64::law_named_numbers();
    order::lemma_one_positive();
    lemma_free_flash(fill);
    lemma_free_flash(fuller);
    order::lemma_difference_antitone(unity(), fill, fuller);
    order::lemma_quotient_antitone(unity(), d2, d1);
    order::lemma_quotient_at_least_one(unity(), d1);
    // The larger one is at most 100.
    order::lemma_quotient_number(unity(), d2);
    order::lemma_non_negative(d2);
    order::lemma_non_negative(hundred);
    let u = arithmetic::size(d2);
    assert(one * one <= (100 * one) * u) by (nonlinear_arith)
        requires
            100 * u >= one,
    ;
    order::lemma_rounded_bounds(one * one, u, hundred.magnitude());
    order::lemma_units_monotone(rounding::rounded(one * one, u), hundred.magnitude());
    order::lemma_finite(g2, hundred);
    // What is added.
    order::lemma_difference_monotone(unity(), g1, unity());
    order::lemma_difference_monotone(g1, g2, unity());
    order::lemma_difference_monotone(g2, hundred, unity());
    order::lemma_negated(unity());
    order::lemma_sum_number(unity(), unity().negated());
    order::lemma_rounded_number_exact(nil());
    // 100 less one is 99.
    order::lemma_of(99);
    vstd::arithmetic::power2::lemma2_to64();
    assert(rounding::p2(0) == 1);
    order::lemma_of_exact(99, 0);
    order::lemma_non_negative(Binary64::of(99));
    order::lemma_sum_number(hundred, unity().negated());
    order::lemma_rounded_number_exact(Binary64::of(99));
    order::lemma_finite(g2.difference(unity()), Binary64::of(99));
}

/// Where garbage collection sees a higher fill level, the write amplification is not smaller.
proof fn lemma_more_collection(
    delta: WriteDelta,
    flash_page_bytes: u64,
    fill_ratio: Binary64,
    over_provision: Binary64,
    other_ratio: Binary64,
    other_provision: Binary64,
)
    requires
        nil().le(effective_fill(fill_ratio, over_provision)),
        effective_fill(fill_ratio, over_provision).le(
            effective_fill(other_ratio, other_provision),
        ),
        effective_fill(other_ratio, other_provision).le(max_fill()),
    ensures
        amplification(delta, flash_page_bytes, fill_ratio, over_provision).le(
            amplification(delta, flash_page_bytes, other_ratio, other_provision),
        ),
{
    let base = blended_amplification(delta, flash_page_bytes);
    let low = added_by_collection(fill_ratio, over_provision);
    let high = added_by_collection(other_ratio, other_provision);
    binary64::law_named_numbers();
    lemma_collection(
        effective_fill(fill_ratio, over_provision),
        effective_fill(other_ratio, other_provision),
    );
    order::lemma_finite(low, high);
    if order::finite(base) {
        order::lemma_sum_monotone(low, high, base);
    }
}

/// The fuller the card, the more is written to flash: a fuller file system never has a
/// smaller write amplification.
pub proof fn law_fuller_card_amplifies_more(
    delta: WriteDelta,
    flash_page_bytes: u64,
    fill_ratio: Binary64,
    fuller: Binary64,
    over_provision: Binary64,
)
    requires
        nil().le(fill_ratio),
        fill_ratio.le(fuller),
        order::finite(fuller),
        settings::up_to(over_provision, unity()),
    ensures
        amplification(delta, flash_page_bytes, fill_ratio, over_provision).le(
            amplification(delta, flash_page_bytes, fuller, over_provision),
        ),
{
    law_effective_fill_grows(fill_ratio, fuller, over_provision);
    lemma_more_collection(
        delta,
        flash_page_bytes,
        fill_ratio,
        over_provision,
        fuller,
        over_provision,
    );
}

/// What garbage collection adds is a number between 0 and 99, or nothing is known of the fill
/// level.
pub(crate) proof fn lemma_added(fill_ratio: Binary64, over_provision: Binary64)
    ensures
        ({
            let added = added_by_collection(fill_ratio, over_provision);
            ||| added.is_nan()
            ||| order::finite(added) && 0 <= added.number() <= 99 * arithmetic::one()
        }),
{
    let fill = effective_fill(fill_ratio, over_provision);
    binary64::law_named_numbers();
    lemma_max_fill();
    if !fill.is_nan() {
        lemma_collection(fill, fill);
    }
}

/// The size of a request is a positive number, and the amplification by pages is at most two
/// to the power of 128.
pub(crate) proof fn lemma_page_amplification(delta: WriteDelta, flash_page_bytes: u64)
    requires
        delta.fits(),
        estimable(delta, flash_page_bytes),
    ensures
        order::finite(average_request(delta)),
        average_request(delta).number() > 0,
        order::finite(page_amplification(delta, flash_page_bytes)),
        unity().le(page_amplification(delta, flash_page_bytes)),
        page_amplification(delta, flash_page_bytes).number() <= rounding::p2(1202),
{
    let h = binary64::HIDDEN as nat;
    let one = arithmetic::one();
    let (bytes, ios) = (Binary64::of(delta.bytes() as u64), Binary64::of(delta.ios));
    let page = Binary64::of(flash_page_bytes);
    let request = average_request(delta);
    binary64::law_named_numbers();
    order::lemma_one_positive();
    order::lemma_of(delta.bytes() as u64);
    order::lemma_of(delta.ios);
    order::lemma_of(flash_page_bytes);
    order::lemma_of_bound(delta.ios);
    order::lemma_of_bound(flash_page_bytes);
    order::lemma_quotient_not_above(bytes, ios);
    order::lemma_quotient_number(bytes, ios);
    order::lemma_non_negative(bytes);
    order::lemma_non_negative(request);
    vstd::arithmetic::power2::lemma2_to64();
    vstd::arithmetic::power2::lemma2_to64_rest();
    // A request is at least two to the power of -64.
    let p = rounding::p2(1010);
    rounding::lemma_p2_adds(1010, 64);
    rounding::lemma_p2_adds(958, 52);
    rounding::lemma_units_form(958, h);
    let (ub, ui) = (arithmetic::size(bytes), arithmetic::size(ios));
    assert(h * rounding::p2(958) == p) by (nonlinear_arith)
        requires
            h == 0x10_0000_0000_0000,
            p == rounding::p2(958) * 0x10_0000_0000_0000,
    ;
    assert(p * ui <= ub * one) by (nonlinear_arith)
        requires
            one == p * 0x1_0000_0000_0000_0000,
            ui <= 0x1_0000_0000_0000_0000 * one,
            one <= ub,
    ;
    let low = (958 * h + h) as nat;
    order::lemma_rounded_bounds(ub * one, ui, low);
    order::lemma_units_monotone(low, rounding::rounded(ub * one, ui));
    assert(arithmetic::size(request) >= p);
    // So a page is at most two to the power of 128 requests.
    order::lemma_quotient_number(page, request);
    order::lemma_non_negative(page);
    let (up, ur) = (arithmetic::size(page), arithmetic::size(request));
    let q = rounding::p2(1202);
    let top = (1150 * h + h) as nat;
    rounding::lemma_p2_adds(1074, 64);
    rounding::lemma_p2_adds(1138, 64);
    rounding::lemma_p2_adds(1150, 52);
    rounding::lemma_units_form(1150, h);
    assert(h * rounding::p2(1150) == q) by (nonlinear_arith)
        requires
            h == 0x10_0000_0000_0000,
            q == rounding::p2(1150) * 0x10_0000_0000_0000,
    ;
    assert(up * one <= q * ur) by (nonlinear_arith)
        requires
            one == p * 0x1_0000_0000_0000_0000,
            q == (one * 0x1_0000_0000_0000_0000) * 0x1_0000_0000_0000_0000,
            up <= 0x1_0000_0000_0000_0000 * one,
            ur >= p,
    ;
    order::lemma_rounded_bounds(up * one, ur, top);
    order::lemma_units_monotone(rounding::rounded(up * one, ur), top);
    binary64::lemma_units_increase(top, binary64::INFINITY as nat);
    binary64::lemma_units_order(page.quotient(request).magnitude(), binary64::INFINITY as nat);
}

/// The larger the requests, the better they fill their pages: more sectors in as many requests
/// never have a larger write amplification.
pub proof fn law_larger_requests_amplify_less(
    delta: WriteDelta,
    more_sectors: u64,
    flash_page_bytes: u64,
    fill_ratio: Binary64,
    over_provision: Binary64,
)
    requires
        estimable(delta, flash_page_bytes),
        delta.sectors <= more_sectors,
        (WriteDelta { sectors: more_sectors, ..delta }).fits(),
    ensures
        amplification(
            WriteDelta { sectors: more_sectors, ..delta },
            flash_page_bytes,
            fill_ratio,
            over_provision,
        ).le(amplification(delta, flash_page_bytes, fill_ratio, over_provision)),
{
    let larger = WriteDelta { sectors: more_sectors, ..delta };
    let (b1, b2) = (Binary64::of(delta.bytes() as u64), Binary64::of(larger.bytes() as u64));
    let ios = Binary64::of(delta.ios);
    let page = Binary64::of(flash_page_bytes);
    let share = sequential_share(delta);
    let (w1, w2) = (
        page_amplification(delta, flash_page_bytes),
        page_amplification(larger, flash_page_bytes),
    );
    binary64::law_named_numbers();
    order::lemma_one_positive();
    order::lemma_of(delta.bytes() as u64);
    order::lemma_of(larger.bytes() as u64);
    order::lemma_of(delta.ios);
    order::lemma_of(flash_page_bytes);
    order::lemma_of_monotone(delta.bytes() as u64, larger.bytes() as u64);
    order::lemma_quotient_monotone(b1, b2, ios);
    lemma_page_amplification(delta, flash_page_bytes);
    lemma_page_amplification(larger, flash_page_bytes);
    order::lemma_quotient_antitone(page, average_request(delta), average_request(larger));
    assert(w2.le(w1));
    law_sequential_share_is_a_fraction(delta);
    order::lemma_complement(share, unity());
    order::lemma_product_monotone(w2, w1, unity().difference(share));
    order::lemma_times_one(share);
    order::lemma_finite(share, unity());
    order::lemma_sum_monotone(
        w2.product(unity().difference(share)),
        w1.product(unity().difference(share)),
        share,
    );
    let added = added_by_collection(fill_ratio, over_provision);
    lemma_added(fill_ratio, over_provision);
    if order::finite(added) {
        order::lemma_sum_monotone(
            blended_amplification(larger, flash_page_bytes),
            blended_amplification(delta, flash_page_bytes),
            added,
        );
    }
}

/// What the card holds back eases garbage collection: a card that holds back more never has a
/// larger write amplification.
pub proof fn law_over_provision_eases_collection(
    delta: WriteDelta,
    flash_page_bytes: u64,
    fill_ratio: Binary64,
    over_provision: Binary64,
    more_provision: Binary64,
)
    requires
        nil().le(fill_ratio),
        order::finite(fill_ratio),
        nil().le(over_provision),
        over_provision.le(more_provision),
        more_provision.le(unity()),
    ensures
        amplification(delta, flash_page_bytes, fill_ratio, more_provision).le(
            amplification(delta, flash_page_bytes, fill_ratio, over_provision),
        ),
{
    binary64::law_named_numbers();
    order::lemma_one_positive();
    lemma_max_fill();
    order::lemma_complement(over_provision, unity());
    order::lemma_complement(more_provision, unity());
    order::lemma_difference_antitone(unity(), over_provision, more_provision);
    order::lemma_product_monotone(
        unity().difference(more_provision),
        unity().difference(over_provision),
        fill_ratio,
    );
    lemma_more_collection(
        delta,
        flash_page_bytes,
        fill_ratio,
        more_provision,
        fill_ratio,
        over_provision,
    );
}

/// At least as much is written to flash as the host wrote, as far as binary64 can hold the
/// bytes, which it can for up to two to the power of 53 sectors.
pub proof fn law_flash_gets_what_the_host_wrote(delta: WriteDelta, waf: Binary64)
    requires
        delta.bytes() <= u64::MAX,
        unity().le(waf),
    ensures
        flash_bytes(delta, waf) >= Binary64::of(delta.bytes() as u64).integer_part(),
        delta.sectors <= 0x20_0000_0000_0000 ==> flash_bytes(delta, waf) >= delta.bytes(),
{
    let n = delta.bytes() as u64;
    let a = Binary64::of(n);
    let one = arithmetic::one();
    binary64::law_named_numbers();
    order::lemma_one_positive();
    order::lemma_of(n);
    if order::finite(waf) {
        order::lemma_product_not_below(a, waf);
        order::lemma_integer_part_monotone(a, a.product(waf));
    } else {
        binary64::lemma_units_order(waf.magnitude(), 0);
        if n > 0 {
            binary64::lemma_units_order(a.magnitude(), 0);
            order::lemma_sum_in_range(a);
            order::lemma_integer_part_monotone(a, a.product(waf));
        } else {
            assert(a.integer_part() == 0) by {
                binary64::lemma_units_order(0, 0);
                vstd::arithmetic::div_mod::lemma_div_of0(one as int);
            }
        }
    }
    if delta.sectors <= 0x20_0000_0000_0000 {
        vstd::arithmetic::power2::lemma2_to64();
        assert(rounding::p2(9) == 512);
        order::lemma_of_exact(delta.sectors, 9);
        vstd::arithmetic::div_mod::lemma_div_by_multiple(n as int, one as int);
    }
}

/// Where nothing is known of the fill level, nothing is estimated.
pub proof fn law_unknown_fill_is_not_estimated(
    delta: WriteDelta,
    flash_page_bytes: u64,
    fill_ratio: Binary64,
    over_provision: Binary64,
)
    requires
        fill_ratio.is_nan() || over_provision.is_nan(),
    ensures
        amplification(delta, flash_page_bytes, fill_ratio, over_provision) == unity(),
{
}

} // verus!
