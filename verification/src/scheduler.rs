//! The scheduler's per-tick decision.
//!
//! A recurring task samples the user's current settings and the clock, and
//! commands the backlight actuator on every tick: level zero while the
//! feature is off or the clock is outside the night window, the configured
//! level while it is on and inside.

use vstd::prelude::*;
use crate::daytime::{Time, in_window};

verus! {

/// The level the actuator is commanded to on a tick: zero when disabled,
/// the configured level inside the window, zero outside it.
pub open spec fn tick_level(enabled: bool, level: i32, now: Time, start: Time, end: Time) -> i32 {
    if !enabled {
        0
    } else if in_window(now.hours as int, now.minutes as int, start, end) {
        level
    } else {
        0
    }
}

/// Decides the actuator command for one tick from the live settings
/// (`enabled`, `backlighting_level`, window bounds) and the clock reading.
pub fn scheduler_tick(
    enabled: bool,
    backlighting_level: i32,
    now: &Time,
    start: &Time,
    end: &Time,
) -> (level: i32)
    ensures
        level == tick_level(enabled, backlighting_level, *now, *start, *end),
        !enabled ==> level == 0,
        enabled && in_window(now.hours as int, now.minutes as int, *start, *end) ==> level
            == backlighting_level,
        enabled && !in_window(now.hours as int, now.minutes as int, *start, *end) ==> level == 0,
{
    if !enabled {
        0
    } else if crate::daytime::is_night_time(now, start, end) {
        backlighting_level
    } else {
        0
    }
}

} // verus!
