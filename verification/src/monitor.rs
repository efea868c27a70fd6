//! The monitoring loop: from one reading of the kernel's counters to the next.

use vstd::prelude::*;
use crate::binary64::Binary64;
use crate::clock;
use crate::fullness;
use crate::fullness::FsUsage;
use crate::kernel::{KernelStats, WriteDelta};
use crate::state::{State, StateModel};
use crate::waf;
use crate::wear;

verus! {

/// What the estimates depend on besides the activity.
#[derive(Debug, Clone, Copy, PartialEq, Eq, Structural)]
pub struct CardParameters {
    /// The capacity of the card in bytes.
    pub card_bytes: u64,
    /// The program/erase cycles that the card is rated for.
    pub pe_cycles: u64,
    /// The bytes in a flash page.
    pub flash_page_size: u64,
    /// The share of the flash that the card holds back.
    pub over_provision: Binary64,
}

/// A session of monitoring.
#[derive(Debug)]
pub struct Monitor {
    pub state: State,
    /// The last reading of the kernel's counters.
    pub prev: KernelStats,
    pub parameters: CardParameters,
}

/// What there is to tell about a poll with write activity.
#[derive(Debug, Clone, Copy, PartialEq, Eq, Structural)]
pub struct PollReport {
    /// The write requests.
    pub ios: u64,
    /// The whole kilobytes that the host wrote.
    pub kb: u64,
    /// The size of a request in kilobytes, on average.
    pub avg_io_kb: Binary64,
    /// The write amplification.
    pub waf: Binary64,
    /// The share of sequential writes.
    pub sequential_ratio: Binary64,
    /// The fraction that is used of the fullest file system.
    pub fullness: Binary64,
    /// The average cycles, once the activity has been recorded.
    pub avg_pe_cycles: Binary64,
    /// The life that remains then, in percent.
    pub life_remaining_pct: Binary64,
    /// The years that the card will last, where there is a rate of wear.
    pub years_left: Option<Binary64>,
}

impl CardParameters {
    /// The write amplification of activity while the file systems are used as given.
    pub open spec fn amplification(self, delta: WriteDelta, usage: Seq<FsUsage>) -> Binary64 {
        waf::amplification(
            delta,
            self.flash_page_size,
            fullness::fullest(usage),
            self.over_provision,
        )
    }

    /// The bytes that the activity writes to flash.
    pub open spec fn flash_bytes(self, delta: WriteDelta, usage: Seq<FsUsage>) -> u64 {
        waf::flash_bytes(delta, self.amplification(delta, usage))
    }

    /// A state once the activity up to the given reading has been recorded.
    pub open spec fn recorded(
        self,
        state: StateModel,
        delta: WriteDelta,
        usage: Seq<FsUsage>,
        now: KernelStats,
        stamp: Seq<char>,
    ) -> StateModel {
        state.recorded(
            delta,
            now,
            fullness::fullest(usage),
            self.flash_bytes(delta, usage),
            self.card_bytes,
            self.pe_cycles,
            stamp,
        )
    }

    /// What there is to tell about activity once it has been recorded in the state, from the
    /// given time on.
    pub open spec fn report(
        self,
        state: StateModel,
        delta: WriteDelta,
        usage: Seq<FsUsage>,
        now: u64,
    ) -> PollReport {
        PollReport {
            ios: delta.ios,
            kb: (delta.bytes() / 1024) as u64,
            avg_io_kb: waf::average_request_kb(delta),
            waf: self.amplification(delta, usage),
            sequential_ratio: waf::sequential_share(delta),
            fullness: fullness::fullest(usage),
            avg_pe_cycles: state.estimated_avg_pe_cycles,
            life_remaining_pct: state.estimated_life_remaining_pct,
            years_left: state.years_left(self.card_bytes, self.pe_cycles, now),
        }
    }
}

impl Monitor {
    /// Every figure that recording the activity leads to fits in 64 bits.
    pub open spec fn has_room(self, delta: WriteDelta, usage: Seq<FsUsage>) -> bool {
        delta.fits() && self.state@.has_room(delta, self.parameters.flash_bytes(delta, usage))
    }

    /// Takes the next reading of the counters into the state, and gives the activity since the
    /// last one, if there was any.
    pub fn poll(&mut self, now: KernelStats) -> (delta: Option<WriteDelta>)
        ensures
            final(self).prev == now,
            final(self).state@ == old(self).state@.polled(now),
            final(self).parameters == old(self).parameters,
            delta == if now.delta_since(old(self).prev).active() {
                Some(now.delta_since(old(self).prev))
            } else {
                None
            },
    {
        let delta = now.since(&self.prev);
        self.prev = now;
        self.state.take_reading(&now);
        if delta.is_active() {
            Some(delta)
        } else {
            None
        }
    }

    /// Whether every figure that recording the activity leads to fits in 64 bits.
    pub fn can_record(&self, delta: &WriteDelta, usage: &Vec<FsUsage>) -> (b: bool)
        ensures
            b == self.has_room(*delta, usage@),
    {
        if !delta.is_representable() {
            return false;
        }
        let waf = waf::estimate_waf(
            delta.sectors,
            delta.ios,
            delta.merges,
            self.parameters.flash_page_size,
            fullness::max_filesystem_fullness(usage),
            self.parameters.over_provision,
        );
        self.state.can_record(delta, waf::flash_bytes_written(delta, waf))
    }

    /// Records activity up to the last reading while the file systems are used as given,
    /// takes a sample of the wear if one is due, and reports: stamped with the given time,
    /// sampled at `sampled_at` and estimated at `estimated_at`, in seconds since the epoch.
    pub fn record_at(
        &mut self,
        delta: &WriteDelta,
        usage: &Vec<FsUsage>,
        stamp: String,
        sampled_at: u64,
        estimated_at: u64,
    ) -> (report: PollReport)
        requires
            old(self).has_room(*delta, usage@),
        ensures
            final(self).prev == old(self).prev,
            final(self).parameters == old(self).parameters,
            final(self).state@ == old(self).parameters.recorded(
                old(self).state@,
                *delta,
                usage@,
                old(self).prev,
                stamp@,
            ).sampled(sampled_at),
            report == old(self).parameters.report(
                final(self).state@,
                *delta,
                usage@,
                estimated_at,
            ),
    {
        let p = self.parameters;
        let fullness = fullness::max_filesystem_fullness(usage);
        let waf = waf::estimate_waf(
            delta.sectors,
            delta.ios,
            delta.merges,
            p.flash_page_size,
            fullness,
            p.over_provision,
        );
        let flash_bytes = waf::flash_bytes_written(delta, waf);
        let prev = self.prev;
        self.state.record_at(
            delta,
            &prev,
            fullness,
            flash_bytes,
            p.card_bytes,
            p.pe_cycles,
            stamp,
        );
        wear::push_wear_sample_at(&mut self.state, sampled_at);
        PollReport {
            ios: delta.ios,
            kb: delta.host_kb(),
            avg_io_kb: waf::avg_io_kb(delta),
            waf,
            sequential_ratio: waf::sequential_ratio(delta),
            fullness,
            avg_pe_cycles: self.state.estimated_avg_pe_cycles,
            life_remaining_pct: self.state.estimated_life_remaining_pct,
            years_left: wear::estimate_years_left_at(
                &self.state,
                p.card_bytes,
                p.pe_cycles,
                estimated_at,
            ),
        }
    }

    /// As [`Monitor::record_at`], at the current time.
    pub fn record(&mut self, delta: &WriteDelta, usage: &Vec<FsUsage>) -> (report: PollReport)
        requires
            old(self).has_room(*delta, usage@),
        ensures
            final(self).prev == old(self).prev,
            final(self).parameters == old(self).parameters,
            exists|stamp: Seq<char>, now: u64|
                clock::is_stamp(stamp) && clock::clock_gave(now) && final(self).state@
                    == #[trigger] old(
                    self,
                ).parameters.recorded(
                    old(self).state@,
                    *delta,
                    usage@,
                    old(self).prev,
                    stamp,
                ).sampled(now),
            exists|now: u64|
                clock::clock_gave(now) && report == #[trigger] old(self).parameters.report(
                    final(self).state@,
                    *delta,
                    usage@,
                    now,
                ),
    {
        let stamp = clock::now_string();
        let sampled_at = clock::now_secs();
        let estimated_at = clock::now_secs();
        self.record_at(delta, usage, stamp, sampled_at, estimated_at)
    }
}

// ---------------------------------------------------------------------------
// Laws
// ---------------------------------------------------------------------------
/// What a poll finds: the reading of the counters, and, for when there was activity, the use of
/// the file systems, the time stamp and the time at which a sample is taken.
pub struct Poll {
    pub reading: KernelStats,
    pub usage: Seq<FsUsage>,
    pub stamp: Seq<char>,
    pub sampled_at: u64,
}

/// The last reading once the polls are over, in a session that began with the reading `first`.
pub open spec fn last_reading(first: KernelStats, polls: Seq<Poll>) -> KernelStats {
    if polls.len() == 0 {
        first
    } else {
        polls.last().reading
    }
}

impl CardParameters {
    /// A state once a poll is over, where the reading before it was `prev`: the reading is
    /// taken, and activity is recorded and sampled.
    pub open spec fn after_poll(
        self,
        state: StateModel,
        prev: KernelStats,
        poll: Poll,
    ) -> StateModel {
        let delta = poll.reading.delta_since(prev);
        let read = state.polled(poll.reading);
        if delta.active() {
            self.recorded(read, delta, poll.usage, poll.reading, poll.stamp).sampled(
                poll.sampled_at,
            )
        } else {
            read
        }
    }

    /// What the poll finds can be recorded: every figure that it leads to fits in 64 bits.
    pub open spec fn poll_has_room(
        self,
        state: StateModel,
        prev: KernelStats,
        poll: Poll,
    ) -> bool {
        let delta = poll.reading.delta_since(prev);
        delta.active() ==> delta.fits() && state.has_room(
            delta,
            self.flash_bytes(delta, poll.usage),
        )
    }

    /// A state once a session's polls are over, which began with the reading `first`.
    pub open spec fn after_polls(
        self,
        state: StateModel,
        first: KernelStats,
        polls: Seq<Poll>,
    ) -> StateModel
        decreases polls.len(),
    {
        if polls.len() == 0 {
            state
        } else {
            let before = polls.drop_last();
            self.after_poll(
                self.after_polls(state, first, before),
                last_reading(first, before),
                polls.last(),
            )
        }
    }

    /// What every poll of a session finds can be recorded.
    pub open spec fn polls_have_room(
        self,
        state: StateModel,
        first: KernelStats,
        polls: Seq<Poll>,
    ) -> bool
        decreases polls.len(),
    {
        polls.len() > 0 ==> {
            let before = polls.drop_last();
            &&& self.polls_have_room(state, first, before)
            &&& self.poll_has_room(
                self.after_polls(state, first, before),
                last_reading(first, before),
                polls.last(),
            )
        }
    }
}

/// The sector counter goes back at no poll of a session.
pub open spec fn sectors_never_go_back(first: KernelStats, polls: Seq<Poll>) -> bool {
    forall|i: int|
        0 <= i < polls.len() ==> last_reading(first, polls.take(i)).write_sectors <= (
        #[trigger] polls[i]).reading.write_sectors
}

/// The request counter goes back at no poll of a session.
pub open spec fn ios_never_go_back(first: KernelStats, polls: Seq<Poll>) -> bool {
    forall|i: int|
        0 <= i < polls.len() ==> last_reading(first, polls.take(i)).write_ios <= (
        #[trigger] polls[i]).reading.write_ios
}

/// However often the counters are read, the state counts every sector that the kernel counts,
/// and none twice, as long as the counter does not go back: over a session, the total grows by
/// as much as the counter does.
pub proof fn law_session_counts_every_sector_once(
    parameters: CardParameters,
    state: StateModel,
    first: KernelStats,
    polls: Seq<Poll>,
)
    requires
        sectors_never_go_back(first, polls),
        parameters.polls_have_room(state, first, polls),
    ensures
        first.write_sectors <= last_reading(first, polls).write_sectors,
        parameters.after_polls(state, first, polls).total_host_sectors_written
            == state.total_host_sectors_written + last_reading(first, polls).write_sectors
            - first.write_sectors,
    decreases polls.len(),
{
    if polls.len() > 0 {
        let before = polls.drop_last();
        let last = polls.len() - 1;
        assert(polls.take(last) =~= before);
        assert(last_reading(first, polls.take(last)).write_sectors
            <= polls[last].reading.write_sectors);
        assert forall|i: int| 0 <= i < before.len() implies last_reading(
            first,
            before.take(i),
        ).write_sectors <= (#[trigger] before[i]).reading.write_sectors by {
            assert(before.take(i) =~= polls.take(i));
            assert(before[i] == polls[i]);
        }
        law_session_counts_every_sector_once(parameters, state, first, before);
    }
}

/// The state counts every write request that the kernel counts, and none twice, as long as the
/// counter does not go back: over a session, the total grows by as much as the counter does.
pub proof fn law_session_counts_every_request_once(
    parameters: CardParameters,
    state: StateModel,
    first: KernelStats,
    polls: Seq<Poll>,
)
    requires
        ios_never_go_back(first, polls),
        parameters.polls_have_room(state, first, polls),
    ensures
        first.write_ios <= last_reading(first, polls).write_ios,
        parameters.after_polls(state, first, polls).total_host_write_ios
            == state.total_host_write_ios + last_reading(first, polls).write_ios
            - first.write_ios,
    decreases polls.len(),
{
    if polls.len() > 0 {
        let before = polls.drop_last();
        let last = polls.len() - 1;
        assert(polls.take(last) =~= before);
        assert(last_reading(first, polls.take(last)).write_ios <= polls[last].reading.write_ios);
        assert forall|i: int| 0 <= i < before.len() implies last_reading(
            first,
            before.take(i),
        ).write_ios <= (#[trigger] before[i]).reading.write_ios by {
            assert(before.take(i) =~= polls.take(i));
            assert(before[i] == polls[i]);
        }
        law_session_counts_every_request_once(parameters, state, first, before);
    }
}

/// Whatever a session's polls find, the totals never shrink, the samples stay a history of the
/// wear, and the state holds the counters of the last reading.
pub proof fn law_session_keeps_the_record(
    parameters: CardParameters,
    state: StateModel,
    first: KernelStats,
    polls: Seq<Poll>,
)
    requires
        state.history_ok(),
        parameters.polls_have_room(state, first, polls),
    ensures
        ({
            let after = parameters.after_polls(state, first, polls);
            &&& after.history_ok()
            &&& after.total_host_sectors_written >= state.total_host_sectors_written
            &&& after.total_host_write_ios >= state.total_host_write_ios
            &&& after.estimated_flash_bytes_written >= state.estimated_flash_bytes_written
            &&& after.reboot_count == state.reboot_count
            &&& after.first_started == state.first_started
            &&& polls.len() > 0 ==> {
                &&& after.last_kernel_write_sectors == polls.last().reading.write_sectors
                &&& after.last_kernel_write_ios == polls.last().reading.write_ios
            }
        }),
    decreases polls.len(),
{
    if polls.len() > 0 {
        let before = polls.drop_last();
        let poll = polls.last();
        law_session_keeps_the_record(parameters, state, first, before);
        let read = parameters.after_polls(state, first, before).polled(poll.reading);
        let delta = poll.reading.delta_since(last_reading(first, before));
        if delta.active() {
            wear::law_sampling_keeps_the_history(
                parameters.recorded(read, delta, poll.usage, poll.reading, poll.stamp),
                poll.sampled_at,
            );
        }
    }
}

/// The bytes that a session's polls write to flash: the sum over those with activity, each with
/// the amplification of its own activity and of the file systems at that time.
pub open spec fn session_flash_bytes(
    parameters: CardParameters,
    first: KernelStats,
    polls: Seq<Poll>,
) -> nat
    decreases polls.len(),
{
    if polls.len() == 0 {
        0
    } else {
        let before = polls.drop_last();
        let poll = polls.last();
        let delta = poll.reading.delta_since(last_reading(first, before));
        session_flash_bytes(parameters, first, before) + if delta.ios > 0 || delta.sectors > 0 {
            waf::flash_bytes(
                delta,
                waf::amplification(
                    delta,
                    parameters.flash_page_size,
                    fullness::fullest(poll.usage),
                    parameters.over_provision,
                ),
            ) as nat
        } else {
            0
        }
    }
}

/// The estimate of what was written to flash is the sum over all polls: over a session, the
/// total grows by what its polls with activity wrote.
pub proof fn law_session_adds_up_the_flash_bytes(
    parameters: CardParameters,
    state: StateModel,
    first: KernelStats,
    polls: Seq<Poll>,
)
    requires
        parameters.polls_have_room(state, first, polls),
    ensures
        parameters.after_polls(state, first, polls).estimated_flash_bytes_written
            == state.estimated_flash_bytes_written + session_flash_bytes(parameters, first, polls),
    decreases polls.len(),
{
    if polls.len() > 0 {
        law_session_adds_up_the_flash_bytes(parameters, state, first, polls.drop_last());
    }
}

/// A poll changes nothing but the counters where nothing was written, and otherwise leaves a
/// state that tells of just this poll: its reading, its time stamp and, if a day has passed, its
/// sample.
pub proof fn law_poll_is_recorded_if_active(
    parameters: CardParameters,
    state: StateModel,
    prev: KernelStats,
    poll: Poll,
)
    requires
        parameters.poll_has_room(state, prev, poll),
    ensures
        ({
            let after = parameters.after_poll(state, prev, poll);
            let quiet = poll.reading.write_ios <= prev.write_ios && poll.reading.write_sectors
                <= prev.write_sectors;
            &&& after.last_kernel_write_sectors == poll.reading.write_sectors
            &&& after.last_kernel_write_ios == poll.reading.write_ios
            &&& quiet ==> after == StateModel {
                last_kernel_write_sectors: poll.reading.write_sectors,
                last_kernel_write_ios: poll.reading.write_ios,
                ..state
            }
            &&& !quiet ==> {
                &&& after.last_updated == poll.stamp
                &&& poll.sampled_at >= state.last_sample_timestamp + 86400
                    ==> after.last_sample_timestamp == poll.sampled_at
                    && after.wear_samples.last().flash_bytes_written
                    == after.estimated_flash_bytes_written
                &&& poll.sampled_at < state.last_sample_timestamp + 86400 ==> after.wear_samples
                    == state.wear_samples
            }
        }),
{
}

/// A report tells of the activity it is made for and of the state it is made from.
pub proof fn law_report_tells_of_its_poll(
    parameters: CardParameters,
    state: StateModel,
    delta: WriteDelta,
    usage: Seq<FsUsage>,
    now: u64,
)
    requires
        delta.fits(),
    ensures
        ({
            let report = parameters.report(state, delta, usage, now);
            &&& report.ios == delta.ios
            &&& 2 * report.kb <= delta.sectors <= 2 * report.kb + 1
            &&& report.avg_io_kb == waf::average_request_kb(delta)
            &&& report.waf == waf::amplification(
                delta,
                parameters.flash_page_size,
                fullness::fullest(usage),
                parameters.over_provision,
            )
            &&& report.sequential_ratio == waf::sequential_share(delta)
            &&& report.fullness == fullness::fullest(usage)
            &&& report.avg_pe_cycles == state.estimated_avg_pe_cycles
            &&& report.life_remaining_pct == state.estimated_life_remaining_pct
            &&& report.years_left == state.years_left(
                parameters.card_bytes,
                parameters.pe_cycles,
                now,
            )
        }),
{
}

/// What a card's parameters make of activity is the estimate for its page size, its share held
/// back and its fullest file system, recorded against its size and its rated cycles.
pub proof fn law_parameters_are_those_of_the_card(
    parameters: CardParameters,
    state: StateModel,
    delta: WriteDelta,
    usage: Seq<FsUsage>,
    now: KernelStats,
    stamp: Seq<char>,
)
    ensures
        ({
            let waf = waf::amplification(
                delta,
                parameters.flash_page_size,
                fullness::fullest(usage),
                parameters.over_provision,
            );
            &&& parameters.amplification(delta, usage) == waf
            &&& parameters.flash_bytes(delta, usage) == waf::flash_bytes(delta, waf)
            &&& parameters.recorded(state, delta, usage, now, stamp) == state.recorded(
                delta,
                now,
                fullness::fullest(usage),
                waf::flash_bytes(delta, waf),
                parameters.card_bytes,
                parameters.pe_cycles,
                stamp,
            )
        }),
{
}

/// Activity can be recorded exactly if its bytes and its requests, and the totals once they are
/// added, can be counted in 64 bits.
pub proof fn law_room_of_a_monitor(monitor: Monitor, delta: WriteDelta, usage: Seq<FsUsage>)
    ensures
        monitor.has_room(delta, usage) <==> {
            let waf = waf::amplification(
                delta,
                monitor.parameters.flash_page_size,
                fullness::fullest(usage),
                monitor.parameters.over_provision,
            );
            &&& 512 * delta.sectors <= u64::MAX
            &&& delta.ios + delta.merges <= u64::MAX
            &&& monitor.state.total_host_sectors_written + delta.sectors <= u64::MAX
            &&& monitor.state.total_host_write_ios + delta.ios <= u64::MAX
            &&& monitor.state.estimated_flash_bytes_written + waf::flash_bytes(delta, waf)
                <= u64::MAX
        },
{
}

} // verus!
