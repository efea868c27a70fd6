//! The state that survives restarts: what the card is, and how worn it is.

use vstd::prelude::*;
use crate::arithmetic;
use crate::binary64;
use crate::binary64::Binary64;
use crate::clock;
use crate::fullness;
use crate::fullness::FsUsage;
use crate::kernel::KernelStats;
use crate::kernel::WriteDelta;
use crate::order;
use crate::rounding;
use crate::text;

verus! {

/// How much had been written to flash at some time.
#[derive(Debug, Clone, Copy, PartialEq, Eq, Structural)]
pub struct WearSample {
    /// When the sample was taken, in seconds since the epoch.
    pub timestamp_secs: u64,
    /// The bytes that had been written to flash by then, as estimated.
    pub flash_bytes_written: u64,
}

/// The persistent state of a card.
#[derive(Debug)]
pub struct State {
    /// The name of the block device, such as `mmcblk0`.
    pub device: String,
    /// The capacity of the card in gigabytes.
    pub card_size_gb: Binary64,
    /// The capacity of the card in bytes.
    pub card_size_bytes: u64,
    /// The erase block size in kilobytes.
    pub erase_block_kb: u64,
    /// The program/erase cycles that the card is rated for.
    pub pe_cycles_rated: u64,
    /// Where the file systems of the device are mounted.
    pub mount_points: Vec<String>,
    /// How full the fullest file system is, in percent.
    pub filesystem_fullness_pct: Binary64,
    /// The sectors that the host has written.
    pub total_host_sectors_written: u64,
    /// The write requests that the host has made.
    pub total_host_write_ios: u64,
    /// The bytes that were written to flash, as estimated.
    pub estimated_flash_bytes_written: u64,
    /// The program/erase cycles that an erase block has gone through on average.
    pub estimated_avg_pe_cycles: Binary64,
    /// The life that remains, in percent of the rated endurance.
    pub estimated_life_remaining_pct: Binary64,
    /// The life that remained when monitoring started, in percent.
    pub initial_health_pct: Binary64,
    /// The kernel's sector counter at the last reading.
    pub last_kernel_write_sectors: u64,
    /// The kernel's request counter at the last reading.
    pub last_kernel_write_ios: u64,
    /// When monitoring started, as a time stamp.
    pub first_started: String,
    /// When the state was last saved, as a time stamp; between two saves, when activity was
    /// last recorded.
    pub last_updated: String,
    /// The reboots that were detected.
    pub reboot_count: u64,
    /// Samples of the wear, the oldest first.
    pub wear_samples: Vec<WearSample>,
    /// When the last sample was taken, in seconds since the epoch.
    pub last_sample_timestamp: u64,
}

/// What a state holds, as contracts see it.
#[verifier::ext_equal]
pub struct StateModel {
    pub device: Seq<char>,
    pub card_size_gb: Binary64,
    pub card_size_bytes: u64,
    pub erase_block_kb: u64,
    pub pe_cycles_rated: u64,
    pub mount_points: Seq<Seq<char>>,
    pub filesystem_fullness_pct: Binary64,
    pub total_host_sectors_written: u64,
    pub total_host_write_ios: u64,
    pub estimated_flash_bytes_written: u64,
    pub estimated_avg_pe_cycles: Binary64,
    pub estimated_life_remaining_pct: Binary64,
    pub initial_health_pct: Binary64,
    pub last_kernel_write_sectors: u64,
    pub last_kernel_write_ios: u64,
    pub first_started: Seq<char>,
    pub last_updated: Seq<char>,
    pub reboot_count: u64,
    pub wear_samples: Seq<WearSample>,
    pub last_sample_timestamp: u64,
}

impl View for State {
    type V = StateModel;

    open spec fn view(&self) -> StateModel {
        StateModel {
            device: self.device@,
            card_size_gb: self.card_size_gb,
            card_size_bytes: self.card_size_bytes,
            erase_block_kb: self.erase_block_kb,
            pe_cycles_rated: self.pe_cycles_rated,
            mount_points: text::strings(self.mount_points@),
            filesystem_fullness_pct: self.filesystem_fullness_pct,
            total_host_sectors_written: self.total_host_sectors_written,
            total_host_write_ios: self.total_host_write_ios,
            estimated_flash_bytes_written: self.estimated_flash_bytes_written,
            estimated_avg_pe_cycles: self.estimated_avg_pe_cycles,
            estimated_life_remaining_pct: self.estimated_life_remaining_pct,
            initial_health_pct: self.initial_health_pct,
            last_kernel_write_sectors: self.last_kernel_write_sectors,
            last_kernel_write_ios: self.last_kernel_write_ios,
            first_started: self.first_started@,
            last_updated: self.last_updated@,
            reboot_count: self.reboot_count,
            wear_samples: self.wear_samples@,
            last_sample_timestamp: self.last_sample_timestamp,
        }
    }
}

/// What is known of a card from the system and the settings.
#[derive(Debug)]
pub struct CardDescription {
    pub device: String,
    pub card_size_gb: Binary64,
    pub card_size_bytes: u64,
    pub erase_block_kb: u64,
    pub pe_cycles_rated: u64,
    pub mount_points: Vec<String>,
}

/// What became of a health that the user gives.
#[derive(Debug, Clone, Copy, PartialEq, Eq, Structural)]
pub enum PresetOutcome {
    /// The user gave none.
    NotRequested,
    /// It was applied to a new state.
    Applied,
    /// It was ignored, as there was a state file already.
    Ignored,
}

/// A life that remains, or a health, of which nothing has been recorded: 100 percent.
pub open spec fn full_life() -> Binary64 {
    Binary64 { bits: binary64::ONE_HUNDRED }
}

/// The life that remains where a state file does not say: a new card's.
pub fn default_life_remaining() -> (r: Binary64)
    ensures
        r == full_life(),
{
    Binary64 { bits: binary64::ONE_HUNDRED }
}

/// The health at the start where a state file does not say: a new card's.
pub fn default_initial_health() -> (r: Binary64)
    ensures
        r == full_life(),
{
    Binary64 { bits: binary64::ONE_HUNDRED }
}

/// The average cycles at which a card of so many rated ones has the given health, in
/// percent: `(1 - health / 100) * pe_cycles`.
pub open spec fn implied_cycles(health: Binary64, pe_cycles: u64) -> Binary64 {
    let one = Binary64 { bits: binary64::ONE };
    let hundred = Binary64 { bits: binary64::ONE_HUNDRED };
    one.difference(health.quotient(hundred)).product(Binary64::of(pe_cycles))
}

/// The average cycles of a card of so many bytes to which so many were written:
/// `flash_bytes / card_bytes`.
pub open spec fn average_cycles(flash_bytes: u64, card_bytes: u64) -> Binary64 {
    Binary64::of(flash_bytes).quotient(Binary64::of(card_bytes))
}

/// The life that remains after so many average cycles, in percent of the rated ones:
/// `(1 - cycles / pe_cycles) * 100`, cut off at 0 and at 100.
pub open spec fn remaining_life(cycles: Binary64, pe_cycles: u64) -> Binary64 {
    let zero = Binary64 { bits: binary64::ZERO };
    let one = Binary64 { bits: binary64::ONE };
    let hundred = Binary64 { bits: binary64::ONE_HUNDRED };
    one.difference(cycles.quotient(Binary64::of(pe_cycles))).product(hundred).clamped(
        zero,
        hundred,
    )
}

/// A fraction as a percentage with one decimal.
pub open spec fn percent_to_one_decimal(fraction: Binary64) -> Binary64 {
    fraction.product(Binary64::of(1000)).rounded_to_integer().quotient(Binary64::of(10))
}

fn cycles_at_health(health: Binary64, pe_cycles: u64) -> (r: Binary64)
    ensures
        r == implied_cycles(health, pe_cycles),
{
    let one = Binary64 { bits: binary64::ONE };
    let hundred = Binary64 { bits: binary64::ONE_HUNDRED };
    one.minus(health.over(hundred)).times(Binary64::from_integer(pe_cycles))
}

fn percent_of(fraction: Binary64) -> (r: Binary64)
    ensures
        r == percent_to_one_decimal(fraction),
{
    fraction.times(Binary64::from_integer(1000)).round().over(Binary64::from_integer(10))
}

fn life_after(cycles: Binary64, pe_cycles: u64) -> (r: Binary64)
    ensures
        r == remaining_life(cycles, pe_cycles),
{
    let zero = Binary64 { bits: binary64::ZERO };
    let one = Binary64 { bits: binary64::ONE };
    let hundred = Binary64 { bits: binary64::ONE_HUNDRED };
    one.minus(cycles.over(Binary64::from_integer(pe_cycles))).times(hundred).clamp_to(
        zero,
        hundred,
    )
}

impl StateModel {
    /// The state of a card on which monitoring starts at the given time.
    pub open spec fn fresh(stamp: Seq<char>) -> StateModel {
        StateModel {
            device: seq![],
            card_size_gb: Binary64 { bits: binary64::ZERO },
            card_size_bytes: 0,
            erase_block_kb: 0,
            pe_cycles_rated: 0,
            mount_points: seq![],
            filesystem_fullness_pct: Binary64 { bits: binary64::ZERO },
            total_host_sectors_written: 0,
            total_host_write_ios: 0,
            estimated_flash_bytes_written: 0,
            estimated_avg_pe_cycles: Binary64 { bits: binary64::ZERO },
            estimated_life_remaining_pct: full_life(),
            initial_health_pct: full_life(),
            last_kernel_write_sectors: 0,
            last_kernel_write_ios: 0,
            first_started: stamp,
            last_updated: stamp,
            reboot_count: 0,
            wear_samples: seq![],
            last_sample_timestamp: 0,
        }
    }

    /// The state with a health, in percent, in place of the recorded one, and with the
    /// wear that it implies for a card of so many rated cycles and so many bytes.
    pub open spec fn with_health(
        self,
        health: Binary64,
        pe_cycles: u64,
        card_bytes: u64,
    ) -> StateModel {
        StateModel {
            estimated_life_remaining_pct: health,
            estimated_avg_pe_cycles: implied_cycles(health, pe_cycles),
            initial_health_pct: health,
            estimated_flash_bytes_written: implied_cycles(health, pe_cycles).product(
                Binary64::of(card_bytes),
            ).integer_part(),
            ..self
        }
    }

    /// The state with the health that the user gives, if there is one and no state file
    /// stands against it.
    pub open spec fn with_initial_health(
        self,
        initial_health: Option<Binary64>,
        state_file_existed: bool,
        pe_cycles: u64,
        card_bytes: u64,
    ) -> StateModel {
        match initial_health {
            Some(h) => if state_file_existed {
                self
            } else {
                self.with_health(h, pe_cycles, card_bytes)
            },
            None => self,
        }
    }

    /// The state with the description of the card brought up to date.
    pub open spec fn described(self, card: CardDescription) -> StateModel {
        StateModel {
            device: card.device@,
            card_size_gb: card.card_size_gb,
            card_size_bytes: card.card_size_bytes,
            erase_block_kb: card.erase_block_kb,
            pe_cycles_rated: card.pe_cycles_rated,
            mount_points: text::strings(card.mount_points@),
            ..self
        }
    }

    /// The kernel's counters went back since the last reading.
    pub open spec fn rebooted(self, current: KernelStats) -> bool {
        current.write_sectors < self.last_kernel_write_sectors
    }

    /// The state with the counters of the given reading.
    pub open spec fn polled(self, now: KernelStats) -> StateModel {
        StateModel {
            last_kernel_write_sectors: now.write_sectors,
            last_kernel_write_ios: now.write_ios,
            ..self
        }
    }

    /// The state once a session has started from the given reading.
    pub open spec fn session_started(self, current: KernelStats) -> StateModel {
        StateModel {
            reboot_count: if self.rebooted(current) {
                (self.reboot_count + 1) as u64
            } else {
                self.reboot_count
            },
            ..self.polled(current)
        }
    }

    /// The totals stay within 64 bits when the activity is added to them.
    pub open spec fn has_room(self, delta: WriteDelta, flash_bytes: u64) -> bool {
        &&& self.total_host_sectors_written + delta.sectors <= u64::MAX
        &&& self.total_host_write_ios + delta.ios <= u64::MAX
        &&& self.estimated_flash_bytes_written + flash_bytes <= u64::MAX
    }

    /// The bytes written to flash once so many more are.
    pub open spec fn flash_total(self, flash_bytes: u64) -> u64 {
        (self.estimated_flash_bytes_written + flash_bytes) as u64
    }

    /// The state once write activity has been recorded, which wrote so many bytes to
    /// flash while the fullest file system was so full.
    pub open spec fn recorded(
        self,
        delta: WriteDelta,
        now: KernelStats,
        fullness: Binary64,
        flash_bytes: u64,
        card_bytes: u64,
        pe_cycles: u64,
        stamp: Seq<char>,
    ) -> StateModel {
        let cycles = average_cycles(self.flash_total(flash_bytes), card_bytes);
        StateModel {
            filesystem_fullness_pct: percent_to_one_decimal(fullness),
            total_host_sectors_written: (self.total_host_sectors_written + delta.sectors) as u64,
            total_host_write_ios: (self.total_host_write_ios + delta.ios) as u64,
            estimated_flash_bytes_written: self.flash_total(flash_bytes),
            last_updated: stamp,
            estimated_avg_pe_cycles: cycles,
            estimated_life_remaining_pct: remaining_life(cycles, pe_cycles),
            ..self.polled(now)
        }
    }

    /// The state as it is saved: described anew, with the fullness at that time, and
    /// stamped.
    pub open spec fn prepared(
        self,
        card: CardDescription,
        usage: Seq<FsUsage>,
        stamp: Seq<char>,
    ) -> StateModel {
        StateModel {
            filesystem_fullness_pct: percent_to_one_decimal(fullness::fullest(usage)),
            last_updated: stamp,
            ..self.described(card)
        }
    }

    /// The life that remains is a number from 0 to 100, or none was computed.
    pub open spec fn life_in_range(self) -> bool {
        ||| self.estimated_life_remaining_pct.is_nan()
        ||| (Binary64 { bits: binary64::ZERO }).le(self.estimated_life_remaining_pct)
            && self.estimated_life_remaining_pct.le(Binary64 { bits: binary64::ONE_HUNDRED })
    }
}

impl State {
    /// A state for a card that has never been monitored, stamped with the given time.
    pub fn started_at(stamp: String) -> (s: State)
        ensures
            s@ == StateModel::fresh(stamp@),
    {
        let s = State {
            device: String::new(),
            card_size_gb: Binary64 { bits: binary64::ZERO },
            card_size_bytes: 0,
            erase_block_kb: 0,
            pe_cycles_rated: 0,
            mount_points: Vec::new(),
            filesystem_fullness_pct: Binary64 { bits: binary64::ZERO },
            total_host_sectors_written: 0,
            total_host_write_ios: 0,
            estimated_flash_bytes_written: 0,
            estimated_avg_pe_cycles: Binary64 { bits: binary64::ZERO },
            estimated_life_remaining_pct: default_life_remaining(),
            initial_health_pct: default_initial_health(),
            last_kernel_write_sectors: 0,
            last_kernel_write_ios: 0,
            first_started: stamp.clone(),
            last_updated: stamp,
            reboot_count: 0,
            wear_samples: Vec::new(),
            last_sample_timestamp: 0,
        };
        assert(s@ =~= StateModel::fresh(stamp@));
        s
    }

    /// A state for a card that has never been monitored, stamped with the current time.
    pub fn new() -> (s: State)
        ensures
            clock::is_stamp(s@.first_started),
            s@ == StateModel::fresh(s@.first_started),
    {
        State::started_at(clock::now_string())
    }

    /// The state from the state file; a new one, where there is no state file or it
    /// does not hold a state.
    pub fn restored(from_file: Option<State>) -> (s: State)
        ensures
            from_file matches Some(f) ==> s == f,
            from_file is None ==> clock::is_stamp(s@.first_started) && s@ == StateModel::fresh(
                s@.first_started,
            ),
    {
        match from_file {
            Some(s) => s,
            None => State::new(),
        }
    }

    /// Applies a health that the user gives, in percent, unless there was a state file:
    /// what that has recorded is not overwritten.
    pub fn apply_initial_health(
        &mut self,
        initial_health: Option<Binary64>,
        state_file_existed: bool,
        pe_cycles: u64,
        card_bytes: u64,
    ) -> (outcome: PresetOutcome)
        ensures
            final(self)@ == old(self)@.with_initial_health(
                initial_health,
                state_file_existed,
                pe_cycles,
                card_bytes,
            ),
            outcome == match initial_health {
                Some(_) => if state_file_existed {
                    PresetOutcome::Ignored
                } else {
                    PresetOutcome::Applied
                },
                None => PresetOutcome::NotRequested,
            },
    {
        match initial_health {
            Some(health) => if state_file_existed {
                PresetOutcome::Ignored
            } else {
                let cycles = cycles_at_health(health, pe_cycles);
                self.estimated_life_remaining_pct = health;
                self.estimated_avg_pe_cycles = cycles;
                self.initial_health_pct = health;
                self.estimated_flash_bytes_written = cycles.times(
                    Binary64::from_integer(card_bytes),
                ).to_integer();
                PresetOutcome::Applied
            },
            None => PresetOutcome::NotRequested,
        }
    }

    /// Brings the description of the card up to date.
    pub fn refresh_description(&mut self, card: CardDescription)
        ensures
            final(self)@ == old(self)@.described(card),
    {
        self.device = card.device;
        self.card_size_gb = card.card_size_gb;
        self.card_size_bytes = card.card_size_bytes;
        self.erase_block_kb = card.erase_block_kb;
        self.pe_cycles_rated = card.pe_cycles_rated;
        self.mount_points = card.mount_points;
    }

    /// Takes the counters of a reading into the state.
    pub fn take_reading(&mut self, now: &KernelStats)
        ensures
            final(self)@ == old(self)@.polled(*now),
    {
        self.last_kernel_write_sectors = now.write_sectors;
        self.last_kernel_write_ios = now.write_ios;
    }

    /// Starts a session from a reading of the kernel's counters, and says whether there
    /// was a reboot since the last one: the counters start anew at a reboot.
    pub fn start_session(&mut self, current: KernelStats) -> (rebooted: bool)
        requires
            old(self)@.rebooted(current) ==> old(self)@.reboot_count < u64::MAX,
        ensures
            final(self)@ == old(self)@.session_started(current),
            rebooted == old(self)@.rebooted(current),
    {
        let rebooted = current.write_sectors < self.last_kernel_write_sectors;
        if rebooted {
            self.reboot_count = self.reboot_count + 1;
        }
        self.take_reading(&current);
        rebooted
    }

    /// Whether the totals stay within 64 bits when the activity is added to them.
    pub fn can_record(&self, delta: &WriteDelta, flash_bytes: u64) -> (b: bool)
        ensures
            b == self@.has_room(*delta, flash_bytes),
    {
        delta.sectors <= u64::MAX - self.total_host_sectors_written && delta.ios <= u64::MAX
            - self.total_host_write_ios && flash_bytes <= u64::MAX
            - self.estimated_flash_bytes_written
    }

    /// Records write activity under the given time stamp: `delta` up to the reading `now`,
    /// which wrote `flash_bytes` to flash while the fullest file system was filled to the
    /// fraction `fullness`.
    pub fn record_at(
        &mut self,
        delta: &WriteDelta,
        now: &KernelStats,
        fullness: Binary64,
        flash_bytes: u64,
        card_bytes: u64,
        pe_cycles: u64,
        stamp: String,
    )
        requires
            old(self)@.has_room(*delta, flash_bytes),
        ensures
            final(self)@ == old(self)@.recorded(
                *delta,
                *now,
                fullness,
                flash_bytes,
                card_bytes,
                pe_cycles,
                stamp@,
            ),
    {
        self.filesystem_fullness_pct = percent_of(fullness);
        self.total_host_sectors_written = self.total_host_sectors_written + delta.sectors;
        self.total_host_write_ios = self.total_host_write_ios + delta.ios;
        self.estimated_flash_bytes_written = self.estimated_flash_bytes_written + flash_bytes;
        self.take_reading(now);
        self.last_updated = stamp;
        let cycles = Binary64::from_integer(self.estimated_flash_bytes_written).over(
            Binary64::from_integer(card_bytes),
        );
        self.estimated_avg_pe_cycles = cycles;
        self.estimated_life_remaining_pct = life_after(cycles, pe_cycles);
    }

    /// Prepares the state for being saved: brings the description of the card and the
    /// fullness up to date and stamps the state with the current time.
    pub fn prepare_save(&mut self, card: CardDescription, usage: &Vec<FsUsage>)
        ensures
            clock::is_stamp(final(self)@.last_updated),
            final(self)@ == old(self)@.prepared(card, usage@, final(self)@.last_updated),
    {
        self.refresh_description(card);
        self.filesystem_fullness_pct = percent_of(fullness::max_filesystem_fullness(usage));
        self.last_updated = clock::now_string();
    }
}

// ---------------------------------------------------------------------------
// Laws
// ---------------------------------------------------------------------------
/// The health that the user gives never overwrites what a state file has recorded.
pub proof fn law_state_file_is_not_overwritten(
    state: StateModel,
    initial_health: Option<Binary64>,
    pe_cycles: u64,
    card_bytes: u64,
)
    ensures
        state.with_initial_health(initial_health, true, pe_cycles, card_bytes) == state,
{
}

/// Tracking goes on across restarts and reboots: starting a session leaves every figure of
/// the wear as it was, and counts a reboot exactly if the sector counter went back.
pub proof fn law_sessions_keep_the_wear(state: StateModel, current: KernelStats)
    requires
        state.rebooted(current) ==> state.reboot_count < u64::MAX,
    ensures
        ({
            let started = state.session_started(current);
            &&& started.total_host_sectors_written == state.total_host_sectors_written
            &&& started.total_host_write_ios == state.total_host_write_ios
            &&& started.estimated_flash_bytes_written == state.estimated_flash_bytes_written
            &&& started.estimated_avg_pe_cycles == state.estimated_avg_pe_cycles
            &&& started.estimated_life_remaining_pct == state.estimated_life_remaining_pct
            &&& started.wear_samples == state.wear_samples
            &&& started.last_sample_timestamp == state.last_sample_timestamp
            &&& started.first_started == state.first_started
            &&& started.reboot_count == state.reboot_count + if current.write_sectors
                < state.last_kernel_write_sectors {
                1int
            } else {
                0int
            }
            &&& !started.rebooted(current)
        }),
{
}

/// The totals only ever grow.
pub proof fn law_totals_never_shrink(
    state: StateModel,
    delta: WriteDelta,
    now: KernelStats,
    fullness: Binary64,
    flash_bytes: u64,
    card_bytes: u64,
    pe_cycles: u64,
    stamp: Seq<char>,
)
    requires
        state.has_room(delta, flash_bytes),
    ensures
        ({
            let after = state.recorded(
                delta,
                now,
                fullness,
                flash_bytes,
                card_bytes,
                pe_cycles,
                stamp,
            );
            &&& after.total_host_sectors_written >= state.total_host_sectors_written
            &&& after.total_host_write_ios >= state.total_host_write_ios
            &&& after.estimated_flash_bytes_written >= state.estimated_flash_bytes_written
            &&& after.reboot_count == state.reboot_count
            &&& after.first_started == state.first_started
        }),
{
}

/// Preparing a state for being saved leaves everything but its description, the fullness and
/// its time stamp as it was.
pub proof fn law_saving_keeps_the_wear(
    state: StateModel,
    card: CardDescription,
    usage: Seq<FsUsage>,
    stamp: Seq<char>,
)
    ensures
        ({
            let saved = state.prepared(card, usage, stamp);
            saved == StateModel {
                device: saved.device,
                card_size_gb: saved.card_size_gb,
                card_size_bytes: saved.card_size_bytes,
                erase_block_kb: saved.erase_block_kb,
                pe_cycles_rated: saved.pe_cycles_rated,
                mount_points: saved.mount_points,
                filesystem_fullness_pct: saved.filesystem_fullness_pct,
                last_updated: saved.last_updated,
                ..state
            }
        }),
{
}

/// The life that remains is always between 0 and 100 percent, unless it is no number at all,
/// which takes a card without a size or without rated cycles.
pub proof fn law_life_lies_between_0_and_100(
    state: StateModel,
    delta: WriteDelta,
    now: KernelStats,
    fullness: Binary64,
    flash_bytes: u64,
    card_bytes: u64,
    pe_cycles: u64,
    stamp: Seq<char>,
)
    ensures
        ({
            let after = state.recorded(
                delta,
                now,
                fullness,
                flash_bytes,
                card_bytes,
                pe_cycles,
                stamp,
            );
            &&& after.life_in_range()
            &&& card_bytes > 0 && pe_cycles > 0
                ==> !after.estimated_life_remaining_pct.is_nan()
        }),
{
    let hundred = Binary64 { bits: binary64::ONE_HUNDRED };
    binary64::law_named_numbers();
    if card_bytes > 0 && pe_cycles > 0 {
        let cycles = average_cycles(state.flash_total(flash_bytes), card_bytes);
        lemma_average(state.flash_total(flash_bytes), card_bytes);
        lemma_unclamped_life(cycles, pe_cycles);
    }
}

/// The average cycles are a finite number.
proof fn lemma_average(flash_bytes: u64, card_bytes: u64)
    requires
        card_bytes > 0,
    ensures
        order::finite(average_cycles(flash_bytes, card_bytes)),
        order::non_negative(average_cycles(flash_bytes, card_bytes)),
{
    order::lemma_of(flash_bytes);
    order::lemma_of(card_bytes);
    order::lemma_quotient_not_above(Binary64::of(flash_bytes), Binary64::of(card_bytes));
}

/// The life that remains, before it is cut off, is a number, and so is each step to it.
proof fn lemma_unclamped_life(cycles: Binary64, pe_cycles: u64)
    requires
        order::finite(cycles),
        order::non_negative(cycles),
        pe_cycles > 0,
    ensures
        ({
            let one = Binary64 { bits: binary64::ONE };
            let hundred = Binary64 { bits: binary64::ONE_HUNDRED };
            let used = cycles.quotient(Binary64::of(pe_cycles));
            &&& order::finite(used)
            &&& order::non_negative(used)
            &&& order::finite(one.difference(used))
            &&& !one.difference(used).product(hundred).is_nan()
        }),
{
    let one = Binary64 { bits: binary64::ONE };
    let zero = Binary64 { bits: binary64::ZERO };
    let hundred = Binary64 { bits: binary64::ONE_HUNDRED };
    let used = cycles.quotient(Binary64::of(pe_cycles));
    binary64::law_named_numbers();
    order::lemma_one_positive();
    order::lemma_of(pe_cycles);
    order::lemma_quotient_not_above(cycles, Binary64::of(pe_cycles));
    order::lemma_one_less_is_finite(used);
    order::lemma_scaled_monotone(one.difference(used), one.difference(used), hundred);
}

/// More wear never leaves more life.
pub proof fn law_wear_shortens_life(
    flash_bytes: u64,
    more_flash_bytes: u64,
    card_bytes: u64,
    pe_cycles: u64,
)
    requires
        flash_bytes <= more_flash_bytes,
        card_bytes > 0,
        pe_cycles > 0,
    ensures
        average_cycles(flash_bytes, card_bytes).le(average_cycles(more_flash_bytes, card_bytes)),
        remaining_life(average_cycles(more_flash_bytes, card_bytes), pe_cycles).le(
            remaining_life(average_cycles(flash_bytes, card_bytes), pe_cycles),
        ),
{
    let one = Binary64 { bits: binary64::ONE };
    let hundred = Binary64 { bits: binary64::ONE_HUNDRED };
    let (c1, c2) = (
        average_cycles(flash_bytes, card_bytes),
        average_cycles(more_flash_bytes, card_bytes),
    );
    let rated = Binary64::of(pe_cycles);
    binary64::law_named_numbers();
    order::lemma_one_positive();
    order::lemma_of(flash_bytes);
    order::lemma_of(more_flash_bytes);
    order::lemma_of(card_bytes);
    order::lemma_of(pe_cycles);
    order::lemma_of_monotone(flash_bytes, more_flash_bytes);
    order::lemma_quotient_monotone(
        Binary64::of(flash_bytes),
        Binary64::of(more_flash_bytes),
        Binary64::of(card_bytes),
    );
    lemma_average(flash_bytes, card_bytes);
    lemma_average(more_flash_bytes, card_bytes);
    order::lemma_quotient_monotone(c1, c2, rated);
    lemma_unclamped_life(c1, pe_cycles);
    lemma_unclamped_life(c2, pe_cycles);
    let (u1, u2) = (c1.quotient(rated), c2.quotient(rated));
    order::lemma_difference_antitone(one, u1, u2);
    order::lemma_scaled_monotone(one.difference(u2), one.difference(u1), hundred);
}

/// A number divided by itself is one.
proof fn lemma_self_quotient(a: Binary64)
    requires
        order::finite(a),
        !a.is_negative(),
        !a.is_zero(),
    ensures
        a.quotient(a) == (Binary64 { bits: binary64::ONE }),
{
    let u = arithmetic::size(a);
    let one = arithmetic::one();
    binary64::law_named_numbers();
    binary64::lemma_units_order(0, a.magnitude());
    assert(u * one == one * u) by (nonlinear_arith);
    order::lemma_rounded_bounds(u * one, u, binary64::ONE as nat);
}

/// One less one is 0, and so is 0 times a finite number that is not negative.
proof fn lemma_nothing_left(c: Binary64)
    requires
        order::finite(c),
        !c.is_negative(),
    ensures
        ({
            let one = Binary64 { bits: binary64::ONE };
            let zero = Binary64 { bits: binary64::ZERO };
            &&& one.difference(one) == zero
            &&& zero.product(c) == zero
        }),
{
    let zero = Binary64 { bits: binary64::ZERO };
    binary64::lemma_units_order(0, 0);
    order::lemma_one_positive();
    arithmetic::lemma_rounded_zero(arithmetic::one());
    assert(0 * arithmetic::size(c) == 0) by (nonlinear_arith);
}

/// A card without wear has all of its life, and the average cycles of a card to which
/// nothing was written are 0.
pub proof fn law_new_card_has_full_life(card_bytes: u64, pe_cycles: u64)
    requires
        card_bytes > 0,
        pe_cycles > 0,
    ensures
        average_cycles(0, card_bytes) == (Binary64 { bits: binary64::ZERO }),
        remaining_life(Binary64 { bits: binary64::ZERO }, pe_cycles) == full_life(),
{
    let zero = Binary64 { bits: binary64::ZERO };
    let one = Binary64 { bits: binary64::ONE };
    let hundred = Binary64 { bits: binary64::ONE_HUNDRED };
    binary64::law_named_numbers();
    order::lemma_one_positive();
    binary64::lemma_units_order(0, 0);
    order::lemma_of(0);
    lemma_zero_quotient(card_bytes);
    lemma_zero_quotient(pe_cycles);
    order::lemma_plus_zero(one);
    order::lemma_times_one(hundred);
}

/// Nothing divided by a positive integer is nothing.
proof fn lemma_zero_quotient(n: u64)
    requires
        n > 0,
    ensures
        (Binary64 { bits: binary64::ZERO }).quotient(Binary64::of(n)) == (Binary64 {
            bits: binary64::ZERO,
        }),
{
    order::lemma_of(n);
    binary64::lemma_units_order(0, Binary64::of(n).magnitude());
    binary64::lemma_units_order(0, 0);
    arithmetic::lemma_rounded_zero(arithmetic::size(Binary64::of(n)));
    assert(0 * arithmetic::one() == 0) by (nonlinear_arith);
}

/// A card that has gone through its rated cycles or more has no life left.
pub proof fn law_rated_cycles_end_the_life(cycles: Binary64, pe_cycles: u64)
    requires
        pe_cycles > 0,
        order::finite(cycles),
        Binary64::of(pe_cycles).le(cycles),
    ensures
        remaining_life(cycles, pe_cycles) == (Binary64 { bits: binary64::ZERO }),
{
    let zero = Binary64 { bits: binary64::ZERO };
    let one = Binary64 { bits: binary64::ONE };
    let hundred = Binary64 { bits: binary64::ONE_HUNDRED };
    let rated = Binary64::of(pe_cycles);
    let used = cycles.quotient(rated);
    binary64::law_named_numbers();
    order::lemma_one_positive();
    order::lemma_of(pe_cycles);
    lemma_unclamped_life(cycles, pe_cycles);
    order::lemma_quotient_at_least_one(cycles, rated);
    lemma_nothing_left(hundred);
    order::lemma_difference_antitone(one, one, used);
    let left = one.difference(used);
    order::lemma_scaled_monotone(left, zero, hundred);
    if left.number() == 0 {
        binary64::law_order_is_total(used, one);
        lemma_difference_zero(used);
    } else {
        lemma_negative_product(left, hundred);
    }
}

/// Only one less one is nothing.
proof fn lemma_difference_zero(x: Binary64)
    requires
        order::finite(x),
        order::non_negative(x),
        (Binary64 { bits: binary64::ONE }).difference(x).number() == 0,
    ensures
        x == (Binary64 { bits: binary64::ONE }),
{
    let one = Binary64 { bits: binary64::ONE };
    binary64::law_named_numbers();
    order::lemma_one_positive();
    order::lemma_negated(x);
    order::lemma_sum_number(one, x.negated());
    let exact = one.number() - x.number();
    binary64::lemma_units_order(0, 1);
    assert(binary64::units(1) <= 1) by {
        reveal(binary64::units);
    }
    if exact > 0 {
        order::lemma_rounded_bounds(exact as nat, 1, 1);
        order::lemma_units_monotone(1, rounding::rounded(exact as nat, 1));
    } else if exact < 0 {
        order::lemma_rounded_bounds((-exact) as nat, 1, 1);
        order::lemma_units_monotone(1, rounding::rounded((-exact) as nat, 1));
    }
    binary64::law_order_is_total(x, one);
}

/// A negative number times one from one on is negative.
proof fn lemma_negative_product(a: Binary64, c: Binary64)
    requires
        order::finite(a),
        a.number() < 0,
        order::finite(c),
        (Binary64 { bits: binary64::ONE }).le(c),
    ensures
        a.product(c).number() < 0,
        !a.product(c).is_nan(),
{
    order::lemma_negated(a);
    binary64::law_named_numbers();
    order::lemma_one_positive();
    binary64::lemma_units_order(a.magnitude(), 0);
    binary64::lemma_units_order(c.magnitude(), 0);
    order::lemma_product_not_below(a.negated(), c);
    order::lemma_product_number(a.negated(), c);
    let (n, d) = (arithmetic::size(a) * arithmetic::size(c), arithmetic::one());
    order::lemma_rounded_is_nearest(n, d);
}

/// A health of 100 percent is that of a new card: applied to a new state, it changes nothing.
pub proof fn law_full_health_is_that_of_a_new_card(
    stamp: Seq<char>,
    pe_cycles: u64,
    card_bytes: u64,
)
    ensures
        StateModel::fresh(stamp).with_health(full_life(), pe_cycles, card_bytes)
            == StateModel::fresh(stamp),
{
    let one = Binary64 { bits: binary64::ONE };
    let zero = Binary64 { bits: binary64::ZERO };
    lemma_self_quotient(full_life());
    order::lemma_of(pe_cycles);
    order::lemma_of(card_bytes);
    order::lemma_rounded_bounds(pe_cycles as nat * arithmetic::one(), 1, 0);
    order::lemma_rounded_bounds(card_bytes as nat * arithmetic::one(), 1, 0);
    lemma_nothing_left(Binary64::of(pe_cycles));
    lemma_nothing_left(Binary64::of(card_bytes));
    assert(zero.integer_part() == 0) by {
        binary64::lemma_units_order(0, 0);
        order::lemma_one_positive();
        vstd::arithmetic::div_mod::lemma_div_of0(arithmetic::one() as int);
    }
}

/// Recording adds: each total grows by just what the poll brought, the flash total by just the
/// bytes that were written to flash, and the counters become those of the reading. Everything
/// that is not a figure of the wear stays as it was.
pub proof fn law_recording_adds_exactly(
    state: StateModel,
    delta: WriteDelta,
    now: KernelStats,
    fullness: Binary64,
    flash_bytes: u64,
    card_bytes: u64,
    pe_cycles: u64,
    stamp: Seq<char>,
)
    requires
        state.has_room(delta, flash_bytes),
    ensures
        ({
            let after = state.recorded(
                delta,
                now,
                fullness,
                flash_bytes,
                card_bytes,
                pe_cycles,
                stamp,
            );
            &&& after.total_host_sectors_written == state.total_host_sectors_written
                + delta.sectors
            &&& after.total_host_write_ios == state.total_host_write_ios + delta.ios
            &&& after.estimated_flash_bytes_written == state.estimated_flash_bytes_written
                + flash_bytes
            &&& after.last_kernel_write_sectors == now.write_sectors
            &&& after.last_kernel_write_ios == now.write_ios
            &&& after.last_updated == stamp
            &&& after.first_started == state.first_started
            &&& after.initial_health_pct == state.initial_health_pct
            &&& after.reboot_count == state.reboot_count
            &&& after.wear_samples == state.wear_samples
            &&& after.last_sample_timestamp == state.last_sample_timestamp
            &&& after.device == state.device
            &&& after.mount_points == state.mount_points
            &&& after.card_size_gb == state.card_size_gb
            &&& after.card_size_bytes == state.card_size_bytes
            &&& after.erase_block_kb == state.erase_block_kb
            &&& after.pe_cycles_rated == state.pe_cycles_rated
        }),
{
}

/// There is room exactly if no total goes beyond 64 bits.
pub proof fn law_room_is_within_64_bits(state: StateModel, delta: WriteDelta, flash_bytes: u64)
    ensures
        state.has_room(delta, flash_bytes) <==> {
            &&& delta.sectors <= u64::MAX - state.total_host_sectors_written
            &&& delta.ios <= u64::MAX - state.total_host_write_ios
            &&& flash_bytes <= u64::MAX - state.estimated_flash_bytes_written
        },
{
}

/// Taking a reading sets the two counters, and nothing else.
pub proof fn law_reading_sets_the_counters(state: StateModel, now: KernelStats)
    ensures
        ({
            let after = state.polled(now);
            &&& after.last_kernel_write_sectors == now.write_sectors
            &&& after.last_kernel_write_ios == now.write_ios
            &&& after == StateModel {
                last_kernel_write_sectors: after.last_kernel_write_sectors,
                last_kernel_write_ios: after.last_kernel_write_ios,
                ..state
            }
        }),
{
}

/// A session starts from the counters of its first reading, and changes nothing else but the
/// reboots, of which there is one more exactly if the sector counter went back.
pub proof fn law_session_starts_from_its_reading(state: StateModel, current: KernelStats)
    requires
        state.reboot_count < u64::MAX,
    ensures
        ({
            let after = state.session_started(current);
            &&& after.last_kernel_write_sectors == current.write_sectors
            &&& after.last_kernel_write_ios == current.write_ios
            &&& after.reboot_count > state.reboot_count <==> current.write_sectors
                < state.last_kernel_write_sectors
            &&& state.reboot_count <= after.reboot_count <= state.reboot_count + 1
            &&& state.rebooted(current) <==> after.reboot_count == state.reboot_count + 1
            &&& after == StateModel {
                last_kernel_write_sectors: after.last_kernel_write_sectors,
                last_kernel_write_ios: after.last_kernel_write_ios,
                reboot_count: after.reboot_count,
                ..state
            }
        }),
{
}

/// A description is taken over field by field, at the start and at every save, and a save
/// stamps the state; nothing else changes but the fullness.
pub proof fn law_description_is_taken_over(
    state: StateModel,
    card: CardDescription,
    usage: Seq<FsUsage>,
    stamp: Seq<char>,
)
    ensures
        ({
            let (described, saved) = (state.described(card), state.prepared(card, usage, stamp));
            &&& described.device == card.device@ && saved.device == card.device@
            &&& described.card_size_gb == card.card_size_gb && saved.card_size_gb
                == card.card_size_gb
            &&& described.card_size_bytes == card.card_size_bytes && saved.card_size_bytes
                == card.card_size_bytes
            &&& described.erase_block_kb == card.erase_block_kb && saved.erase_block_kb
                == card.erase_block_kb
            &&& described.pe_cycles_rated == card.pe_cycles_rated && saved.pe_cycles_rated
                == card.pe_cycles_rated
            &&& described.mount_points.len() == card.mount_points@.len()
            &&& saved.mount_points == described.mount_points
            &&& forall|i: int|
                0 <= i < card.mount_points@.len() ==> #[trigger] described.mount_points[i]
                    == card.mount_points@[i]@
            &&& saved.last_updated == stamp
            &&& described == StateModel {
                device: described.device,
                card_size_gb: described.card_size_gb,
                card_size_bytes: described.card_size_bytes,
                erase_block_kb: described.erase_block_kb,
                pe_cycles_rated: described.pe_cycles_rated,
                mount_points: described.mount_points,
                ..state
            }
        }),
{
}

/// A health that the user gives for a new card becomes its life and its health at the start,
/// and changes nothing else but the wear that it implies.
pub proof fn law_preset_sets_the_life(
    state: StateModel,
    health: Binary64,
    pe_cycles: u64,
    card_bytes: u64,
)
    ensures
        ({
            let after = state.with_initial_health(Some(health), false, pe_cycles, card_bytes);
            &&& after.estimated_life_remaining_pct == health
            &&& after.initial_health_pct == health
            &&& after.estimated_avg_pe_cycles == implied_cycles(health, pe_cycles)
            &&& after == StateModel {
                estimated_life_remaining_pct: after.estimated_life_remaining_pct,
                initial_health_pct: after.initial_health_pct,
                estimated_avg_pe_cycles: after.estimated_avg_pe_cycles,
                estimated_flash_bytes_written: after.estimated_flash_bytes_written,
                ..state
            }
        }),
        state.with_initial_health(None, false, pe_cycles, card_bytes) == state,
{
}

/// A card on which monitoring starts has no wear and no record, all of its life, and the time
/// at which monitoring started as both of its stamps.
pub proof fn law_fresh_state_has_no_wear(stamp: Seq<char>)
    ensures
        ({
            let s = StateModel::fresh(stamp);
            let one = binary64::one_in_units();
            &&& s.total_host_sectors_written + s.total_host_write_ios
                + s.estimated_flash_bytes_written + s.reboot_count + s.last_sample_timestamp == 0
            &&& s.last_kernel_write_sectors + s.last_kernel_write_ios == 0
            &&& s.wear_samples.len() == 0
            &&& !s.estimated_avg_pe_cycles.is_nan() && s.estimated_avg_pe_cycles.number() == 0
            &&& s.estimated_life_remaining_pct.number() == 100 * one
            &&& s.initial_health_pct.number() == 100 * one
            &&& s.filesystem_fullness_pct.number() == 0
            &&& s.first_started == stamp && s.last_updated == stamp
        }),
{
    binary64::law_named_numbers();
}

/// From one recorded poll to the next, the average cycles never go down and the life never goes
/// up.
pub proof fn law_wear_goes_on(
    state: StateModel,
    delta: WriteDelta,
    now: KernelStats,
    fullness: Binary64,
    flash_bytes: u64,
    next_delta: WriteDelta,
    next_now: KernelStats,
    next_fullness: Binary64,
    next_flash_bytes: u64,
    card_bytes: u64,
    pe_cycles: u64,
    stamp: Seq<char>,
    next_stamp: Seq<char>,
)
    requires
        card_bytes > 0,
        pe_cycles > 0,
        state.has_room(delta, flash_bytes),
        state.recorded(
            delta,
            now,
            fullness,
            flash_bytes,
            card_bytes,
            pe_cycles,
            stamp,
        ).has_room(next_delta, next_flash_bytes),
    ensures
        ({
            let after = state.recorded(
                delta,
                now,
                fullness,
                flash_bytes,
                card_bytes,
                pe_cycles,
                stamp,
            );
            let later = after.recorded(
                next_delta,
                next_now,
                next_fullness,
                next_flash_bytes,
                card_bytes,
                pe_cycles,
                next_stamp,
            );
            &&& after.estimated_avg_pe_cycles.le(later.estimated_avg_pe_cycles)
            &&& later.estimated_life_remaining_pct.le(after.estimated_life_remaining_pct)
        }),
{
    let total = (state.estimated_flash_bytes_written + flash_bytes) as u64;
    let later = (total + next_flash_bytes) as u64;
    law_wear_shortens_life(total, later, card_bytes, pe_cycles);
}

/// The model of a state has every field of the state.
pub proof fn law_model_has_every_field(s: State)
    ensures
        s@.device == s.device@,
        s@.card_size_gb == s.card_size_gb,
        s@.card_size_bytes == s.card_size_bytes,
        s@.erase_block_kb == s.erase_block_kb,
        s@.pe_cycles_rated == s.pe_cycles_rated,
        s@.mount_points.len() == s.mount_points@.len(),
        forall|i: int|
            0 <= i < s.mount_points@.len() ==> #[trigger] s@.mount_points[i]
                == s.mount_points@[i]@,
        s@.filesystem_fullness_pct == s.filesystem_fullness_pct,
        s@.total_host_sectors_written == s.total_host_sectors_written,
        s@.total_host_write_ios == s.total_host_write_ios,
        s@.estimated_flash_bytes_written == s.estimated_flash_bytes_written,
        s@.estimated_avg_pe_cycles == s.estimated_avg_pe_cycles,
        s@.estimated_life_remaining_pct == s.estimated_life_remaining_pct,
        s@.initial_health_pct == s.initial_health_pct,
        s@.last_kernel_write_sectors == s.last_kernel_write_sectors,
        s@.last_kernel_write_ios == s.last_kernel_write_ios,
        s@.first_started == s.first_started@,
        s@.last_updated == s.last_updated@,
        s@.reboot_count == s.reboot_count,
        s@.wear_samples == s.wear_samples@,
        s@.last_sample_timestamp == s.last_sample_timestamp,
{
}

} // verus!
