//! The rate of wear: samples of the wear over time, and how long the card will last.

use vstd::prelude::*;
use crate::arithmetic;
use crate::binary64;
use crate::binary64::Binary64;
use crate::clock;
use crate::fullness::FsUsage;
use crate::kernel;
use crate::order;
use crate::render;
use crate::state::{CardDescription, State, StateModel, WearSample};
use crate::text;

verus! {

/// The samples that are kept: one a day for four weeks.
pub const WEAR_SAMPLE_MAX: usize = 28;

/// The least time between two samples, in seconds: a day.
pub const WEAR_SAMPLE_INTERVAL_SECS: u64 = 86400;

/// The seconds in a year of 365.25 days.
pub const SECS_PER_YEAR: u64 = 31_557_600;

impl StateModel {
    /// A sample is due: the interval has passed since the last one.
    pub open spec fn sample_due(self, now: u64) -> bool {
        kernel::advance(self.last_sample_timestamp, now) >= WEAR_SAMPLE_INTERVAL_SECS
    }

    /// The state as it is at the given time with respect to sampling: where a sample is
    /// due, it is added behind the others, and the oldest one goes if there are as many as
    /// are kept.
    pub open spec fn sampled(self, now: u64) -> StateModel {
        if self.sample_due(now) {
            let kept = if self.wear_samples.len() >= WEAR_SAMPLE_MAX {
                self.wear_samples.drop_first()
            } else {
                self.wear_samples
            };
            StateModel {
                wear_samples: kept.push(
                    WearSample {
                        timestamp_secs: now,
                        flash_bytes_written: self.estimated_flash_bytes_written,
                    },
                ),
                last_sample_timestamp: now,
                ..self
            }
        } else {
            self
        }
    }

    /// The seconds since the oldest sample.
    pub open spec fn window_secs(self, now: u64) -> u64 {
        kernel::advance(self.wear_samples[0].timestamp_secs, now)
    }

    /// The bytes that were written to flash since the oldest sample.
    pub open spec fn window_bytes(self) -> u64 {
        kernel::advance(
            self.wear_samples[0].flash_bytes_written,
            self.estimated_flash_bytes_written,
        )
    }

    /// There is a rate of wear: two samples at least, and since the oldest one time has
    /// passed and bytes were written.
    pub open spec fn has_rate(self, now: u64) -> bool {
        self.wear_samples.len() >= 2 && self.window_secs(now) > 0 && self.window_bytes() > 0
    }

    /// The rate of wear in bytes per second.
    pub open spec fn rate(self, now: u64) -> Binary64 {
        Binary64::of(self.window_bytes()).quotient(Binary64::of(self.window_secs(now)))
    }

    /// The bytes that can still be written to flash: `life / 100 * (pe_cycles *
    /// card_bytes)`.
    pub open spec fn remaining_bytes(self, card_bytes: u64, pe_cycles: u64) -> Binary64 {
        self.estimated_life_remaining_pct.quotient(
            Binary64 { bits: binary64::ONE_HUNDRED },
        ).product(Binary64::of(pe_cycles).product(Binary64::of(card_bytes)))
    }

    /// The years that the card will last at the rate of wear, cut off at 100; `None` where
    /// there is no rate.
    pub open spec fn years_left(self, card_bytes: u64, pe_cycles: u64, now: u64) -> Option<
        Binary64,
    > {
        if self.has_rate(now) {
            Some(
                self.remaining_bytes(card_bytes, pe_cycles).quotient(self.rate(now)).quotient(
                    Binary64::of(SECS_PER_YEAR),
                ).capped(Binary64 { bits: binary64::ONE_HUNDRED }),
            )
        } else {
            None
        }
    }
}

/// Adds a sample of the wear at the given time, if one is due.
pub fn push_wear_sample_at(state: &mut State, now: u64)
    ensures
        final(state)@ == old(state)@.sampled(now),
{
    if now.saturating_sub(state.last_sample_timestamp) < WEAR_SAMPLE_INTERVAL_SECS {
        return;
    }
    if state.wear_samples.len() >= WEAR_SAMPLE_MAX {
        state.wear_samples.remove(0);
        assert(state.wear_samples@ =~= old(state).wear_samples@.drop_first());
    }
    state.wear_samples.push(
        WearSample {
            timestamp_secs: now,
            flash_bytes_written: state.estimated_flash_bytes_written,
        },
    );
    state.last_sample_timestamp = now;
}

/// Adds a sample of the wear at the current time, if one is due.
pub fn maybe_push_wear_sample(state: &mut State)
    ensures
        exists|now: u64|
            clock::clock_gave(now) && final(state)@ == #[trigger] old(state)@.sampled(now),
{
    let now = clock::now_secs();
    push_wear_sample_at(state, now);
}

/// Estimates how many years the card will last from the given time on.
pub fn estimate_years_left_at(state: &State, card_bytes: u64, pe_cycles: u64, now: u64) -> (r:
    Option<Binary64>)
    ensures
        r == state@.years_left(card_bytes, pe_cycles, now),
{
    if state.wear_samples.len() < 2 {
        return None;
    }
    let oldest = state.wear_samples[0];
    let elapsed_secs = now.saturating_sub(oldest.timestamp_secs);
    if elapsed_secs == 0 {
        return None;
    }
    let bytes_in_window = state.estimated_flash_bytes_written.saturating_sub(
        oldest.flash_bytes_written,
    );
    if bytes_in_window == 0 {
        return None;
    }
    let hundred = Binary64 { bits: binary64::ONE_HUNDRED };
    let bytes_per_sec = Binary64::from_integer(bytes_in_window).over(
        Binary64::from_integer(elapsed_secs),
    );
    let remaining = state.estimated_life_remaining_pct.over(hundred).times(
        Binary64::from_integer(pe_cycles).times(Binary64::from_integer(card_bytes)),
    );
    let years = remaining.over(bytes_per_sec).over(Binary64::from_integer(SECS_PER_YEAR));
    Some(years.cap_at(hundred))
}

/// Estimates how many years the card will last from now on.
pub fn estimate_years_left(state: &State, card_bytes: u64, pe_cycles: u64) -> (r: Option<Binary64>)
    ensures
        exists|now: u64|
            clock::clock_gave(now) && r == #[trigger] state@.years_left(
                card_bytes,
                pe_cycles,
                now,
            ),
{
    let now = clock::now_secs();
    estimate_years_left_at(state, card_bytes, pe_cycles, now)
}

/// How the years that are left are written: with one decimal, as `n/a` where there is no
/// estimate, and as `>100y` from 100 on.
pub open spec fn years_text(years: Option<Binary64>) -> Seq<char> {
    match years {
        Some(y) => if (Binary64 { bits: binary64::ONE_HUNDRED }).le(y) {
            ">100y"@
        } else {
            render::fixed_text(y, 1) + "y"@
        },
        None => "n/a"@,
    }
}

/// Writes the years that are left.
pub fn format_years_left(years: Option<Binary64>) -> (s: String)
    ensures
        s@ == years_text(years),
{
    match years {
        Some(y) => if y.at_least(Binary64 { bits: binary64::ONE_HUNDRED }) {
            ">100y".to_owned()
        } else {
            text::joined(render::fixed(y, 1).as_str(), "y")
        },
        None => "n/a".to_owned(),
    }
}

// ---------------------------------------------------------------------------
// Laws
// ---------------------------------------------------------------------------
impl StateModel {
    /// The samples are a history of the wear: not more than are kept, each at least the
    /// interval after the one before and with no less wear, the last one taken when the
    /// state says so and with no more wear than the state has.
    pub open spec fn history_ok(self) -> bool {
        &&& self.wear_samples.len() <= WEAR_SAMPLE_MAX
        &&& forall|i: int, j: int|
            0 <= i < j < self.wear_samples.len() ==> {
                &&& (#[trigger] self.wear_samples[i]).timestamp_secs + WEAR_SAMPLE_INTERVAL_SECS
                    <= (#[trigger] self.wear_samples[j]).timestamp_secs
                &&& self.wear_samples[i].flash_bytes_written
                    <= self.wear_samples[j].flash_bytes_written
            }
        &&& self.wear_samples.len() > 0 ==> {
            &&& self.wear_samples.last().timestamp_secs == self.last_sample_timestamp
            &&& self.wear_samples.last().flash_bytes_written
                <= self.estimated_flash_bytes_written
        }
    }
}

/// A new state has a history, and with a health that the user gives it still has.
pub proof fn law_new_state_has_a_history(
    stamp: Seq<char>,
    initial_health: Option<Binary64>,
    pe_cycles: u64,
    card_bytes: u64,
)
    ensures
        StateModel::fresh(stamp).with_initial_health(
            initial_health,
            false,
            pe_cycles,
            card_bytes,
        ).history_ok(),
{
}

/// Sampling keeps the history, at whatever time: never more samples than are kept, and never
/// two within the interval.
pub proof fn law_sampling_keeps_the_history(state: StateModel, now: u64)
    requires
        state.history_ok(),
    ensures
        state.sampled(now).history_ok(),
{
    let after = state.sampled(now);
    if state.sample_due(now) {
        let old_samples = state.wear_samples;
        let new_samples = after.wear_samples;
        let shift: int = if old_samples.len() >= WEAR_SAMPLE_MAX {
            1
        } else {
            0
        };
        let last = new_samples.len() - 1;
        assert forall|i: int| 0 <= i < last implies #[trigger] new_samples[i] == old_samples[i
            + shift] by {}
        assert forall|i: int, j: int| 0 <= i < j < new_samples.len() implies {
            &&& (#[trigger] new_samples[i]).timestamp_secs + WEAR_SAMPLE_INTERVAL_SECS <= (
            #[trigger] new_samples[j]).timestamp_secs
            &&& new_samples[i].flash_bytes_written <= new_samples[j].flash_bytes_written
        } by {
            assert(new_samples[i] == old_samples[i + shift]);
            if j < last {
                assert(new_samples[j] == old_samples[j + shift]);
            } else {
                let k = old_samples.len() - 1;
                if i + shift < k {
                    assert(old_samples[i + shift].timestamp_secs <= old_samples[k].timestamp_secs);
                }
            }
        }
    }
}

/// Recording activity keeps the history, and so does taking a reading, and everything that
/// happens between two sessions.
pub proof fn law_recording_keeps_the_history(
    state: StateModel,
    delta: kernel::WriteDelta,
    now: kernel::KernelStats,
    fullness: Binary64,
    flash_bytes: u64,
    card_bytes: u64,
    pe_cycles: u64,
    stamp: Seq<char>,
    card: CardDescription,
    usage: Seq<FsUsage>,
)
    requires
        state.history_ok(),
        state.has_room(delta, flash_bytes),
    ensures
        state.recorded(
            delta,
            now,
            fullness,
            flash_bytes,
            card_bytes,
            pe_cycles,
            stamp,
        ).history_ok(),
        state.polled(now).history_ok(),
        state.session_started(now).history_ok(),
        state.described(card).history_ok(),
        state.prepared(card, usage, stamp).history_ok(),
{
}

/// The newest sample is always kept, and so are the ones before it but for the oldest, which
/// goes only when there are as many as are kept.
pub proof fn law_samples_are_a_rolling_window(state: StateModel, now: u64)
    requires
        state.sample_due(now),
    ensures
        ({
            let before = state.wear_samples;
            let after = state.sampled(now).wear_samples;
            &&& after.last() == WearSample {
                timestamp_secs: now,
                flash_bytes_written: state.estimated_flash_bytes_written,
            }
            &&& before.len() < WEAR_SAMPLE_MAX ==> after.drop_last() == before
            &&& before.len() >= WEAR_SAMPLE_MAX ==> after.drop_last() == before.drop_first()
        }),
{
    let before = state.wear_samples;
    let after = state.sampled(now).wear_samples;
    if before.len() < WEAR_SAMPLE_MAX {
        assert(after.drop_last() =~= before);
    } else {
        assert(after.drop_last() =~= before.drop_first());
    }
}

/// At most one sample is taken in an interval, however often the state is offered one.
pub proof fn law_one_sample_in_an_interval(state: StateModel, now: u64, later: u64)
    requires
        state.sample_due(now),
        later < now + WEAR_SAMPLE_INTERVAL_SECS,
    ensures
        state.sampled(now).sampled(later) == state.sampled(now),
{
}

/// There is an estimate exactly if there are two samples and the card has worn since the
/// oldest one, and it is a number of at most 100 years.
pub proof fn law_years_left_are_at_most_100(
    state: StateModel,
    card_bytes: u64,
    pe_cycles: u64,
    now: u64,
)
    ensures
        state.years_left(card_bytes, pe_cycles, now) is Some <==> {
            &&& state.wear_samples.len() >= 2
            &&& state.wear_samples[0].timestamp_secs < now
            &&& state.wear_samples[0].flash_bytes_written < state.estimated_flash_bytes_written
        },
        state.years_left(card_bytes, pe_cycles, now) matches Some(y) ==> y.le(
            Binary64 { bits: binary64::ONE_HUNDRED },
        ),
{
}

/// An estimate rests on a day of history at least, unless the clock has been set back.
pub proof fn law_estimates_rest_on_a_day(
    state: StateModel,
    card_bytes: u64,
    pe_cycles: u64,
    now: u64,
)
    requires
        state.history_ok(),
        now >= state.last_sample_timestamp,
        state.years_left(card_bytes, pe_cycles, now) is Some,
    ensures
        state.window_secs(now) >= WEAR_SAMPLE_INTERVAL_SECS,
{
    let last = state.wear_samples.len() - 1;
    assert(state.wear_samples[0].timestamp_secs + WEAR_SAMPLE_INTERVAL_SECS
        <= state.wear_samples[last].timestamp_secs);
}

/// The years that so many bytes last at a rate, cut off at 100.
spec fn years_of(bytes: Binary64, rate: Binary64) -> Binary64 {
    bytes.quotient(rate).quotient(Binary64::of(SECS_PER_YEAR)).capped(
        Binary64 { bits: binary64::ONE_HUNDRED },
    )
}

/// A number that is not negative, or none at all.
spec fn not_below_zero(x: Binary64) -> bool {
    x.is_nan() || order::non_negative(x)
}

/// A quotient by a positive number keeps the sign, and infinity stays infinity.
proof fn lemma_quotient_sign(a: Binary64, b: Binary64)
    requires
        order::non_negative(a),
        order::finite(b),
        b.number() > 0,
    ensures
        order::non_negative(a.quotient(b)),
        !order::finite(a) ==> !order::finite(a.quotient(b)),
{
    binary64::lemma_units_order(a.magnitude(), 0);
    binary64::lemma_units_order(b.magnitude(), 0);
    if order::finite(a) {
        order::lemma_quotient_number(a, b);
    } else {
        binary64::lemma_units_order(binary64::INFINITY as nat, 0);
    }
}

/// Nothing divided by a positive number is nothing.
proof fn lemma_quotient_of_nothing(a: Binary64, b: Binary64)
    requires
        order::non_negative(a),
        a.number() == 0,
        order::finite(b),
        b.number() > 0,
    ensures
        a.quotient(b).number() == 0,
        order::finite(a.quotient(b)),
        order::non_negative(a.quotient(b)),
{
    let zero = Binary64 { bits: binary64::ZERO };
    binary64::law_named_numbers();
    order::lemma_finite(a, zero);
    order::lemma_non_negative(a);
    order::lemma_non_negative(b);
    order::lemma_quotient_number(a, b);
    binary64::lemma_units_order(0, 0);
    arithmetic::lemma_rounded_zero(arithmetic::size(b));
    assert(0 * arithmetic::one() == 0) by (nonlinear_arith);
    order::lemma_finite(a.quotient(b), zero);
}

/// Years are not negative; they are 0 for no bytes, and 100 for more bytes than a number
/// holds or where nothing is known of them.
proof fn lemma_years(bytes: Binary64, rate: Binary64)
    requires
        not_below_zero(bytes),
        order::finite(rate),
        rate.number() > 0,
    ensures
        (Binary64 { bits: binary64::ZERO }).le(years_of(bytes, rate)),
        bytes.is_nan() || !order::finite(bytes) ==> years_of(bytes, rate) == (Binary64 {
            bits: binary64::ONE_HUNDRED,
        }),
        !bytes.is_nan() && bytes.number() == 0 ==> years_of(bytes, rate).number() == 0,
{
    let hundred = Binary64 { bits: binary64::ONE_HUNDRED };
    let year = Binary64::of(SECS_PER_YEAR);
    binary64::law_named_numbers();
    order::lemma_one_positive();
    order::lemma_of(SECS_PER_YEAR);
    if !bytes.is_nan() {
        let secs = bytes.quotient(rate);
        let years = secs.quotient(year);
        lemma_quotient_sign(bytes, rate);
        lemma_quotient_sign(secs, year);
        if !order::finite(bytes) {
            binary64::lemma_units_increase(hundred.magnitude(), binary64::INFINITY as nat);
            order::lemma_non_negative(years);
        }
        if bytes.number() == 0 {
            lemma_quotient_of_nothing(bytes, rate);
            lemma_quotient_of_nothing(secs, year);
        }
    }
}

/// More bytes at a slower rate last no shorter.
proof fn lemma_years_order(bytes: Binary64, more: Binary64, rate: Binary64, slower: Binary64)
    requires
        not_below_zero(bytes),
        not_below_zero(more),
        more.is_nan() || !order::finite(more) || bytes.le(more),
        slower.number() > 0,
        slower.le(rate),
        order::finite(rate),
    ensures
        years_of(bytes, rate).le(years_of(more, slower)),
{
    let hundred = Binary64 { bits: binary64::ONE_HUNDRED };
    let year = Binary64::of(SECS_PER_YEAR);
    let (s1, s2) = (bytes.quotient(rate), more.quotient(slower));
    binary64::law_named_numbers();
    order::lemma_of(SECS_PER_YEAR);
    order::lemma_finite(slower, rate);
    lemma_years(more, slower);
    lemma_years(bytes, rate);
    if !more.is_nan() && order::finite(more) {
        order::lemma_finite(bytes, more);
        order::lemma_quotient_antitone(bytes, slower, rate);
        order::lemma_quotient_monotone(bytes, more, slower);
        order::lemma_quotient_number(bytes, rate);
        if order::finite(s2) {
            order::lemma_quotient_monotone(s1, s2, year);
        } else {
            // Beyond the numbers is beyond 100 years.
            lemma_quotient_sign(more, slower);
            lemma_quotient_sign(s2, year);
            binary64::lemma_units_increase(hundred.magnitude(), binary64::INFINITY as nat);
            order::lemma_non_negative(s2.quotient(year));
        }
    }
}

/// The bytes that a life in percent leaves of a budget.
spec fn left_of(life: Binary64, budget: Binary64) -> Binary64 {
    life.quotient(Binary64 { bits: binary64::ONE_HUNDRED }).product(budget)
}

/// What a life leaves of a budget is not negative; it is 0 where there is no life or no
/// budget, and no finite number where the life is none.
proof fn lemma_left(life: Binary64, budget: Binary64)
    requires
        not_below_zero(life),
        order::finite(budget),
        order::non_negative(budget),
    ensures
        not_below_zero(left_of(life, budget)),
        life.is_nan() || !order::finite(life) ==> left_of(life, budget).is_nan()
            || !order::finite(left_of(life, budget)),
        order::finite(life) && !life.is_nan() && (life.number() == 0 || budget.number() == 0)
            ==> !left_of(life, budget).is_nan() && left_of(life, budget).number() == 0,
{
    let hundred = Binary64 { bits: binary64::ONE_HUNDRED };
    let share = life.quotient(hundred);
    binary64::law_named_numbers();
    order::lemma_one_positive();
    if !life.is_nan() {
        lemma_quotient_sign(life, hundred);
        if order::finite(life) {
            order::lemma_quotient_not_above(life, hundred);
            order::lemma_product_number(share, budget);
            if life.number() == 0 {
                lemma_quotient_of_nothing(life, hundred);
            }
            if life.number() == 0 || budget.number() == 0 {
                let (a, b) = (arithmetic::size(share), arithmetic::size(budget));
                order::lemma_non_negative(share);
                order::lemma_non_negative(budget);
                assert(a * b == 0) by (nonlinear_arith)
                    requires
                        a == 0 || b == 0,
                ;
                arithmetic::lemma_rounded_zero(arithmetic::one());
                binary64::lemma_units_order(0, 0);
            }
        } else {
            binary64::lemma_units_order(share.magnitude(), 0);
            binary64::lemma_units_order(budget.magnitude(), 0);
        }
    }
}

/// More life of a larger budget leaves no fewer bytes.
proof fn lemma_left_order(life: Binary64, better: Binary64, budget: Binary64, larger: Binary64)
    requires
        order::non_negative(life),
        life.le(better),
        order::non_negative(budget),
        budget.le(larger),
        order::finite(larger),
    ensures
        ({
            let (less, more) = (left_of(life, budget), left_of(better, larger));
            &&& not_below_zero(less)
            &&& not_below_zero(more)
            &&& more.is_nan() || !order::finite(more) || less.le(more)
        }),
{
    let hundred = Binary64 { bits: binary64::ONE_HUNDRED };
    let (q1, q2) = (life.quotient(hundred), better.quotient(hundred));
    binary64::law_named_numbers();
    order::lemma_one_positive();
    order::lemma_finite(budget, larger);
    lemma_left(life, budget);
    lemma_left(better, larger);
    if order::finite(better) {
        order::lemma_finite(life, better);
        order::lemma_quotient_not_above(life, hundred);
        order::lemma_quotient_not_above(better, hundred);
        order::lemma_quotient_monotone(life, better, hundred);
        order::lemma_product_monotone(q1, q2, budget);
        order::lemma_product_monotone(budget, larger, q2);
    }
}

/// The years are never less than 0, unless the life that remains is.
pub proof fn law_years_left_are_not_negative(
    state: StateModel,
    card_bytes: u64,
    pe_cycles: u64,
    now: u64,
)
    requires
        !state.estimated_life_remaining_pct.lt(Binary64 { bits: binary64::ZERO }),
    ensures
        state.years_left(card_bytes, pe_cycles, now) matches Some(y) ==> (Binary64 {
            bits: binary64::ZERO,
        }).le(y),
{
    binary64::law_named_numbers();
    if state.has_rate(now) {
        order::lemma_product_of(pe_cycles, card_bytes);
        order::lemma_quotient_of(state.window_bytes(), state.window_secs(now));
        lemma_left(
            state.estimated_life_remaining_pct,
            Binary64::of(pe_cycles).product(Binary64::of(card_bytes)),
        );
        lemma_years(state.remaining_bytes(card_bytes, pe_cycles), state.rate(now));
    }
}

/// Where nothing is left to write, because there is no life left, no rated cycle or no byte
/// on the card, the years are 0.
pub proof fn law_nothing_left_lasts_no_time(
    state: StateModel,
    card_bytes: u64,
    pe_cycles: u64,
    now: u64,
)
    requires
        state.has_rate(now),
        order::non_negative(state.estimated_life_remaining_pct),
        order::finite(state.estimated_life_remaining_pct),
        state.estimated_life_remaining_pct.number() == 0 || pe_cycles == 0 || card_bytes == 0,
    ensures
        state.years_left(card_bytes, pe_cycles, now) is Some,
        state.years_left(card_bytes, pe_cycles, now)->0.number() == 0,
{
    let budget = Binary64::of(pe_cycles).product(Binary64::of(card_bytes));
    binary64::law_named_numbers();
    order::lemma_product_of(pe_cycles, card_bytes);
    order::lemma_quotient_of(state.window_bytes(), state.window_secs(now));
    if pe_cycles == 0 || card_bytes == 0 {
        order::lemma_product_of_nothing(pe_cycles, card_bytes);
    }
    lemma_left(state.estimated_life_remaining_pct, budget);
    lemma_years(state.remaining_bytes(card_bytes, pe_cycles), state.rate(now));
}

/// A larger card, or one that is rated for more cycles, never lasts shorter at the same rate
/// of wear.
pub proof fn law_larger_budget_lasts_longer(
    state: StateModel,
    card_bytes: u64,
    pe_cycles: u64,
    more_bytes: u64,
    more_cycles: u64,
    now: u64,
)
    requires
        !state.estimated_life_remaining_pct.lt(Binary64 { bits: binary64::ZERO }),
        card_bytes <= more_bytes,
        pe_cycles <= more_cycles,
        state.has_rate(now),
    ensures
        state.years_left(card_bytes, pe_cycles, now)->0.le(
            state.years_left(more_bytes, more_cycles, now)->0,
        ),
{
    let life = state.estimated_life_remaining_pct;
    let (c1, c2) = (Binary64::of(card_bytes), Binary64::of(more_bytes));
    let (p1, p2) = (Binary64::of(pe_cycles), Binary64::of(more_cycles));
    binary64::law_named_numbers();
    order::lemma_of(card_bytes);
    order::lemma_of(more_bytes);
    order::lemma_of(pe_cycles);
    order::lemma_of(more_cycles);
    order::lemma_of_monotone(card_bytes, more_bytes);
    order::lemma_of_monotone(pe_cycles, more_cycles);
    order::lemma_product_monotone(p1, p2, c1);
    order::lemma_product_monotone(c1, c2, p2);
    order::lemma_product_of(pe_cycles, card_bytes);
    order::lemma_product_of(more_cycles, more_bytes);
    order::lemma_quotient_of(state.window_bytes(), state.window_secs(now));
    if !life.is_nan() {
        lemma_left_order(life, life, p1.product(c1), p2.product(c2));
    }
    lemma_years_order(
        state.remaining_bytes(card_bytes, pe_cycles),
        state.remaining_bytes(more_bytes, more_cycles),
        state.rate(now),
        state.rate(now),
    );
}

/// A card with more life left never lasts shorter at the same rate of wear.
pub proof fn law_more_life_lasts_longer(
    state: StateModel,
    life: Binary64,
    card_bytes: u64,
    pe_cycles: u64,
    now: u64,
)
    requires
        (Binary64 { bits: binary64::ZERO }).le(state.estimated_life_remaining_pct),
        state.estimated_life_remaining_pct.le(life),
        state.has_rate(now),
    ensures
        ({
            let healthier = StateModel { estimated_life_remaining_pct: life, ..state };
            state.years_left(card_bytes, pe_cycles, now)->0.le(
                healthier.years_left(card_bytes, pe_cycles, now)->0,
            )
        }),
{
    let healthier = StateModel { estimated_life_remaining_pct: life, ..state };
    let budget = Binary64::of(pe_cycles).product(Binary64::of(card_bytes));
    binary64::law_named_numbers();
    order::lemma_product_of(pe_cycles, card_bytes);
    lemma_left_order(state.estimated_life_remaining_pct, life, budget, budget);
    order::lemma_quotient_of(state.window_bytes(), state.window_secs(now));
    lemma_years_order(
        state.remaining_bytes(card_bytes, pe_cycles),
        healthier.remaining_bytes(card_bytes, pe_cycles),
        state.rate(now),
        state.rate(now),
    );
}

/// A card on which less was written in the same time never lasts shorter.
pub proof fn law_slower_wear_lasts_longer(
    state: StateModel,
    oldest_flash_bytes: u64,
    card_bytes: u64,
    pe_cycles: u64,
    now: u64,
)
    requires
        !state.estimated_life_remaining_pct.lt(Binary64 { bits: binary64::ZERO }),
        state.has_rate(now),
        state.wear_samples[0].flash_bytes_written <= oldest_flash_bytes
            < state.estimated_flash_bytes_written,
    ensures
        ({
            let oldest = WearSample {
                flash_bytes_written: oldest_flash_bytes,
                ..state.wear_samples[0]
            };
            let slower = StateModel { wear_samples: state.wear_samples.update(0, oldest), ..state };
            state.years_left(card_bytes, pe_cycles, now)->0.le(
                slower.years_left(card_bytes, pe_cycles, now)->0,
            )
        }),
{
    let oldest = WearSample { flash_bytes_written: oldest_flash_bytes, ..state.wear_samples[0] };
    let slower = StateModel { wear_samples: state.wear_samples.update(0, oldest), ..state };
    let secs = Binary64::of(state.window_secs(now));
    let budget = Binary64::of(pe_cycles).product(Binary64::of(card_bytes));
    binary64::law_named_numbers();
    order::lemma_product_of(pe_cycles, card_bytes);
    lemma_left(state.estimated_life_remaining_pct, budget);
    order::lemma_quotient_of(state.window_bytes(), state.window_secs(now));
    order::lemma_quotient_of(slower.window_bytes(), slower.window_secs(now));
    order::lemma_of(state.window_bytes());
    order::lemma_of(slower.window_bytes());
    order::lemma_of(state.window_secs(now));
    order::lemma_of_monotone(slower.window_bytes(), state.window_bytes());
    order::lemma_quotient_monotone(
        Binary64::of(slower.window_bytes()),
        Binary64::of(state.window_bytes()),
        secs,
    );
    lemma_years_order(
        state.remaining_bytes(card_bytes, pe_cycles),
        state.remaining_bytes(card_bytes, pe_cycles),
        state.rate(now),
        slower.rate(now),
    );
}

/// A sample is taken exactly if a day has passed since the last one: then it goes behind the
/// others with the time and the bytes written so far, the oldest of 28 or more going first, and
/// the time becomes that of the last sample. Nothing else ever changes.
pub proof fn law_sample_is_taken_after_a_day(state: StateModel, now: u64)
    ensures
        ({
            let after = state.sampled(now);
            let (old_samples, samples) = (state.wear_samples, after.wear_samples);
            let gone: int = if old_samples.len() >= 28 {
                1
            } else {
                0
            };
            &&& now < state.last_sample_timestamp + 86400 ==> after == state
            &&& now >= state.last_sample_timestamp + 86400 ==> {
                &&& after.last_sample_timestamp == now
                &&& samples.len() == old_samples.len() + 1 - gone
                &&& samples[samples.len() - 1].timestamp_secs == now
                &&& samples[samples.len() - 1].flash_bytes_written
                    == state.estimated_flash_bytes_written
                &&& forall|i: int|
                    0 <= i < samples.len() - 1 ==> #[trigger] samples[i] == old_samples[i + gone]
            }
            &&& after == StateModel {
                wear_samples: samples,
                last_sample_timestamp: after.last_sample_timestamp,
                ..state
            }
        }),
{
}

/// The window of the rate goes from the oldest sample to now, in time and in bytes, however
/// many samples there are.
pub proof fn law_window_begins_with_the_oldest_sample(state: StateModel, now: u64)
    requires
        state.wear_samples.len() > 0,
    ensures
        ({
            let oldest = state.wear_samples[0];
            &&& oldest.timestamp_secs <= now ==> oldest.timestamp_secs + state.window_secs(now)
                == now
            &&& oldest.flash_bytes_written <= state.estimated_flash_bytes_written
                ==> oldest.flash_bytes_written + state.window_bytes()
                == state.estimated_flash_bytes_written
            &&& now < oldest.timestamp_secs ==> state.window_secs(now) == 0
            &&& state.estimated_flash_bytes_written < oldest.flash_bytes_written
                ==> state.window_bytes() == 0
        }),
{
}

/// The same wear over a longer time is a slower one: the later it is, the longer the card
/// lasts, as long as nothing is written.
pub proof fn law_same_bytes_over_a_longer_time(
    state: StateModel,
    card_bytes: u64,
    pe_cycles: u64,
    now: u64,
    later: u64,
)
    requires
        !state.estimated_life_remaining_pct.lt(Binary64 { bits: binary64::ZERO }),
        state.wear_samples.len() >= 2,
        state.wear_samples[0].timestamp_secs < now <= later,
        state.wear_samples[0].flash_bytes_written < state.estimated_flash_bytes_written,
    ensures
        state.years_left(card_bytes, pe_cycles, now) is Some,
        state.years_left(card_bytes, pe_cycles, later) is Some,
        state.years_left(card_bytes, pe_cycles, now)->0.le(
            state.years_left(card_bytes, pe_cycles, later)->0,
        ),
{
    let budget = Binary64::of(pe_cycles).product(Binary64::of(card_bytes));
    let (t1, t2) = (state.window_secs(now), state.window_secs(later));
    binary64::law_named_numbers();
    order::lemma_product_of(pe_cycles, card_bytes);
    lemma_left(state.estimated_life_remaining_pct, budget);
    order::lemma_quotient_of(state.window_bytes(), t1);
    order::lemma_quotient_of(state.window_bytes(), t2);
    order::lemma_of(state.window_bytes());
    order::lemma_of(t1);
    order::lemma_of(t2);
    order::lemma_of_monotone(t1, t2);
    order::lemma_quotient_antitone(
        Binary64::of(state.window_bytes()),
        Binary64::of(t1),
        Binary64::of(t2),
    );
    lemma_years_order(
        state.remaining_bytes(card_bytes, pe_cycles),
        state.remaining_bytes(card_bytes, pe_cycles),
        state.rate(now),
        state.rate(later),
    );
}

/// Years are written with one decimal and a `y`, and from 100 on as more than 100; without an
/// estimate there is nothing to write.
pub proof fn law_years_are_written(years: Binary64)
    ensures
        years_text(None) == "n/a"@,
        !years.is_nan() && years.number() >= 100 * binary64::one_in_units() ==> years_text(
            Some(years),
        ) == ">100y"@,
        years.is_nan() || years.number() < 100 * binary64::one_in_units() ==> years_text(
            Some(years),
        ) == render::fixed_text(years, 1) + "y"@,
{
    binary64::law_named_numbers();
}

} // verus!
