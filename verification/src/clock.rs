//! The wall clock, in whole seconds since the Unix epoch.

use vstd::prelude::*;
use crate::text;

verus! {

/// Reads the clock with `SystemTime::elapsed` on the Unix epoch. A reading is the whole
/// seconds that have passed since the epoch and the nanoseconds beyond them, which are
/// less than a second; there is none where the clock stands before the epoch. Which
/// reading comes back rests on the clock alone, so nothing is said of the seconds.
#[verifier::external_body]
fn read_clock() -> (reading: Option<(u64, u32)>)
    ensures
        reading matches Some((secs, nanos)) ==> nanos < 1_000_000_000,
{
    match std::time::SystemTime::UNIX_EPOCH.elapsed() {
        Ok(d) => Some((d.as_secs(), d.subsec_nanos())),
        Err(_) => None,
    }
}

/// The whole seconds of a reading of the clock; 0 where the clock stands before the
/// epoch.
pub open spec fn whole_seconds(reading: Option<(u64, u32)>) -> u64 {
    match reading {
        Some((secs, nanos)) => secs,
        None => 0,
    }
}

/// The whole seconds of a reading of the clock.
pub fn secs_of(reading: Option<(u64, u32)>) -> (secs: u64)
    ensures
        secs == whole_seconds(reading),
{
    match reading {
        Some((secs, _)) => secs,
        None => 0,
    }
}

/// The clock was read, and the reading gave these whole seconds.
pub closed spec fn clock_gave(secs: u64) -> bool {
    exists|reading: Option<(u64, u32)>| #[trigger]
        call_ensures(crate::clock::read_clock, (), reading) && secs == whole_seconds(reading)
}

/// The seconds since the epoch: those that a reading of the clock gives. Which reading that
/// is, the clock decides.
pub fn now_secs() -> (secs: u64)
    ensures
        clock_gave(secs),
{
    secs_of(read_clock())
}

/// The text is a time stamp: the decimal digits of the seconds that the clock gave.
pub open spec fn is_stamp(s: Seq<char>) -> bool {
    exists|secs: u64| clock_gave(secs) && s == #[trigger] text::decimal(secs as nat)
}

/// The seconds since the epoch, as a time stamp.
pub fn now_string() -> (s: String)
    ensures
        is_stamp(s@),
{
    text::decimal_string(now_secs())
}

/// A reading gives its whole seconds, whatever the nanoseconds are, and 0 if there is none.
pub proof fn law_reading_gives_its_seconds(secs: u64, nanos: u32)
    ensures
        whole_seconds(Some((secs, nanos))) == secs,
        whole_seconds(None) == 0,
{
}

/// A time stamp, read as a number, is the seconds that the clock gave.
pub proof fn law_stamp_is_read_back(s: Seq<char>)
    requires
        is_stamp(s),
    ensures
        text::number(s) matches Ok(secs) && clock_gave(secs),
{
    let secs = choose|secs: u64| clock_gave(secs) && s == #[trigger] text::decimal(secs as nat);
    text::law_decimal_is_read_back(secs);
}

} // verus!
