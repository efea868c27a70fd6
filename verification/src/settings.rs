//! The ranges of the settings that the user gives.

use vstd::prelude::*;
use crate::binary64;
use crate::binary64::Binary64;

verus! {

/// Which setting is out of range.
#[derive(Debug, Clone, Copy, PartialEq, Eq, Structural)]
pub enum SettingsError {
    /// The health at the start is not between 0 and 100 percent.
    InitialHealth,
    /// The share that the card holds back is not between 0 and 0.5.
    OverProvision,
}

/// The number lies between 0 and the given end, both included.
pub open spec fn up_to(x: Binary64, end: Binary64) -> bool {
    (Binary64 { bits: binary64::ZERO }).le(x) && x.le(end)
}

/// What is wrong with the settings; the health at the start is looked at first.
pub open spec fn fault(initial_health: Option<Binary64>, over_provision: Binary64) -> Option<
    SettingsError,
> {
    if initial_health matches Some(h) && !up_to(h, Binary64 { bits: binary64::ONE_HUNDRED }) {
        Some(SettingsError::InitialHealth)
    } else if !up_to(over_provision, Binary64 { bits: binary64::ONE_HALF }) {
        Some(SettingsError::OverProvision)
    } else {
        None
    }
}

/// Checks the settings against their ranges.
pub fn check_settings(initial_health: Option<Binary64>, over_provision: Binary64) -> (r: Result<
    (),
    SettingsError,
>)
    ensures
        r == match fault(initial_health, over_provision) {
            Some(e) => Err::<(), SettingsError>(e),
            None => Ok(()),
        },
{
    let zero = Binary64 { bits: binary64::ZERO };
    if let Some(health) = initial_health {
        if !health.within(zero, Binary64 { bits: binary64::ONE_HUNDRED }) {
            return Err(SettingsError::InitialHealth);
        }
    }
    if !over_provision.within(zero, Binary64 { bits: binary64::ONE_HALF }) {
        return Err(SettingsError::OverProvision);
    }
    Ok(())
}

/// Whether the state is to be saved: so many whole seconds have passed since the last time,
/// and at least the interval must have.
pub fn save_due(elapsed_secs: u64, save_interval: u64) -> (b: bool)
    ensures
        b == (elapsed_secs >= save_interval),
{
    elapsed_secs >= save_interval
}

/// The settings pass exactly if the health at the start, where one is given, is a number from
/// 0 to 100 and the share that is held back is one from 0 to a half; and the error names the
/// health exactly if that is out of range.
pub proof fn law_settings_are_checked_against_their_ranges(
    initial_health: Option<Binary64>,
    over_provision: Binary64,
)
    ensures
        ({
            let one = binary64::one_in_units();
            let health_ok = initial_health matches Some(h) ==> !h.is_nan() && 0 <= h.number()
                <= 100 * one;
            let share_ok = !over_provision.is_nan() && 0 <= 2 * over_provision.number() <= one;
            &&& fault(initial_health, over_provision) is None <==> health_ok && share_ok
            &&& fault(initial_health, over_provision) == Some(SettingsError::InitialHealth)
                <==> !health_ok
            &&& fault(initial_health, over_provision) == Some(SettingsError::OverProvision)
                <==> health_ok && !share_ok
        }),
{
    binary64::law_named_numbers();
}

} // verus!
