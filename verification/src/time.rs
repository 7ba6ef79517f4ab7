//! The clock, as the routing table reads it.

use vstd::prelude::*;
use std::time::{Duration, Instant};

verus! {

/// A point in time of the monotonic clock. Verus sees nothing inside it.
#[verifier::external_type_specification]
#[verifier::external_body]
pub struct ExInstant(std::time::Instant);

/// Reads the clock with `std::time::Instant::now`.
///
/// Nothing is stated of the result: it depends on when the call is made.
#[verifier::external_body]
pub fn instant_now() -> (r: Instant) {
    Instant::now()
}

/// The point in time `d` after `t`, as `std::time::Instant::checked_add`
/// gives it: `None` where it cannot be represented.
pub uninterp spec fn instant_plus(t: Instant, d: Duration) -> Option<Instant>;

/// Adds a duration to a point in time with `std::time::Instant::checked_add`.
///
/// The result is the sum of the two given values, `None` where it cannot be
/// represented: the same arguments always give the same result. Which
/// instant comes out is not stated: Verus does not see the values inside
/// `Instant` and `Duration`.
#[verifier::external_body]
pub fn instant_checked_add(t: Instant, d: Duration) -> (r: Option<Instant>)
    ensures
        r == instant_plus(t, d),
{
    t.checked_add(d)
}

/// Whether the point in time `a` is not before `b`, as std's `>=` on
/// `Instant` says.
pub uninterp spec fn instant_ge(a: Instant, b: Instant) -> bool;

/// Compares two points in time with `>=` (std's `PartialOrd` for `Instant`).
///
/// The result is the comparison of the two given instants: the same
/// instants always compare the same. What the comparison gives is not
/// stated: Verus does not see the values inside `Instant`.
#[verifier::external_body]
pub fn instant_not_before(a: &Instant, b: &Instant) -> (r: bool)
    ensures
        r == instant_ge(*a, *b),
{
    *a >= *b
}

/// `std::time::Duration` is `Copy`: its `clone` gives back the same
/// duration.
pub assume_specification [<std::time::Duration as std::clone::Clone>::clone] (d: &std::time::Duration) -> (r: std::time::Duration)
    ensures
        r == *d,
;

/// The duration of `s` whole seconds, as `std::time::Duration::from_secs`
/// makes it.
pub uninterp spec fn secs_duration(s: u64) -> Duration;

/// Makes a duration of `s` seconds with `std::time::Duration::from_secs`.
///
/// The result is the duration of the given number of seconds: the same
/// number always gives the same duration. Verus does not see the value
/// inside a `Duration`.
#[verifier::external_body]
pub fn duration_from_secs(s: u64) -> (r: Duration)
    ensures
        r == secs_duration(s),
{
    Duration::from_secs(s)
}

/// The number of whole seconds in `d`, as `std::time::Duration::as_secs`
/// gives it.
pub uninterp spec fn duration_secs(d: Duration) -> u64;

/// The number of whole seconds in `d`, with
/// `std::time::Duration::as_secs`.
///
/// The result is that of the given duration: the same duration always
/// gives the same number. Verus does not see the value inside a
/// `Duration`.
#[verifier::external_body]
pub fn duration_as_secs(d: Duration) -> (r: u64)
    ensures
        r == duration_secs(d),
{
    d.as_secs()
}

/// The time from `b` to `a`, as `std::time::Instant`'s subtraction gives
/// it (zero where `a` is earlier).
pub uninterp spec fn instant_elapsed(a: Instant, b: Instant) -> Duration;

/// The time from `started` to `now`, by `std::time::Instant`'s
/// subtraction, which gives zero where `now` is earlier.
///
/// The result is that of the given instants: the same instants always give
/// the same duration. Verus does not see the values inside `Instant` and
/// `Duration`.
#[verifier::external_body]
pub fn elapsed_between(now: Instant, started: Instant) -> (r: Duration)
    ensures
        r == instant_elapsed(now, started),
{
    now - started
}

/// Whether the duration `a` is at least `b`, as `Duration`'s `>=` says.
pub uninterp spec fn duration_ge(a: Duration, b: Duration) -> bool;

/// Whether the duration `a` is at least `b`, by `Duration`'s `>=`.
///
/// The result is that of the given durations: the same durations always
/// compare the same. Verus does not see the values inside a `Duration`.
#[verifier::external_body]
pub fn duration_at_least(a: Duration, b: Duration) -> (r: bool)
    ensures
        r == duration_ge(a, b),
{
    a >= b
}

} // verus!
