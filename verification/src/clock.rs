//! The two clocks of the machine: the time of day, and the time that has
//! passed since a moment.

use std::time::{Instant, SystemTime, UNIX_EPOCH};
use vstd::prelude::*;

verus! {

/// A moment on the machine's clock.
#[verifier::external_type_specification]
#[verifier::external_body]
pub struct ExSystemTime(std::time::SystemTime);

/// A moment on the machine's monotonic clock.
#[verifier::external_type_specification]
#[verifier::external_body]
pub struct ExInstant(std::time::Instant);

/// `SystemTime::now` reads the machine's clock. Nothing is claimed of what it
/// shows.
pub assume_specification[ std::time::SystemTime::now ]() -> SystemTime
;

/// `Instant::now` reads the machine's monotonic clock. Nothing is claimed of
/// what it shows.
pub assume_specification[ std::time::Instant::now ]() -> Instant
;

/// `SystemTime::duration_since`, in whole seconds from the Unix epoch on, or
/// `None` for a moment before it. Nothing is claimed of how many there are:
/// that is up to the machine's clock.
#[verifier::external_body]
fn seconds_since_epoch(moment: &SystemTime) -> Option<u64> {
    match moment.duration_since(UNIX_EPOCH) {
        Ok(passed) => Some(passed.as_secs()),
        Err(_) => None,
    }
}

/// `Instant::elapsed`, in whole milliseconds. Nothing is claimed of how many
/// there are: that is up to the machine's clock.
#[verifier::external_body]
fn millis_since(start: &Instant) -> u128 {
    start.elapsed().as_millis()
}

/// `start` is a reading of the machine's monotonic clock: what [`Instant::now`]
/// gives.
pub closed spec fn moment_read(start: Instant) -> bool {
    call_ensures(Instant::now, (), start)
}

/// `tick` comes from a reading of the machine's monotonic clock: it is the
/// number of milliseconds that [`Instant::elapsed`] gives for `start`, or the
/// largest `u64` where it does not fit.
pub closed spec fn passed_since(start: Instant, tick: u64) -> bool {
    exists|millis: u128| #[trigger]
        call_ensures(millis_since, (&start,), millis) && tick == if millis <= u64::MAX {
            millis as int
        } else {
            u64::MAX as int
        }
}

/// A moment on the machine's monotonic clock.
pub(crate) fn moment_now() -> (start: Instant)
    ensures
        moment_read(start),
{
    Instant::now()
}

/// The milliseconds that have passed since `start`, or the largest `u64` where
/// they do not fit. Which number comes back is up to the machine's clock.
pub(crate) fn ticks_since(start: &Instant) -> (tick: u64)
    ensures
        passed_since(*start, tick),
{
    let millis = millis_since(start);
    saturated_millis(millis)
}

/// The seconds that the clock shows, or zero where it stands before the Unix
/// epoch.
pub fn seconds_or_zero(shown: Option<u64>) -> (secs: u64)
    ensures
        secs == match shown {
            Some(passed) => passed,
            None => 0,
        },
{
    match shown {
        Some(passed) => passed,
        None => 0,
    }
}

/// `secs` comes from a reading of the machine's clock: from what
/// [`SystemTime::now`] gives, in seconds since the Unix epoch, or zero on a clock
/// that stands before it.
pub closed spec fn clock_shows(secs: u64) -> bool {
    exists|now: SystemTime, shown: Option<u64>| #[trigger]
        call_ensures(SystemTime::now, (), now) && #[trigger] call_ensures(
            seconds_since_epoch,
            (&now,),
            shown,
        ) && secs == match shown {
            Some(passed) => passed,
            None => 0,
        }
}

/// The seconds that have passed since the Unix epoch, or zero on a clock that
/// stands before it. Which number comes back is up to the machine's clock.
pub(crate) fn unix_seconds_now() -> (secs: u64)
    ensures
        clock_shows(secs),
{
    let now = SystemTime::now();
    let shown = seconds_since_epoch(&now);
    seconds_or_zero(shown)
}

/// A number of milliseconds as a `u64`, or the largest `u64` where it does not
/// fit.
pub fn saturated_millis(millis: u128) -> (tick: u64)
    ensures
        tick == if millis <= u64::MAX {
            millis as int
        } else {
            u64::MAX as int
        },
{
    if millis <= u64::MAX as u128 {
        millis as u64
    } else {
        u64::MAX
    }
}

} // verus!
