//! The clocks the pool reads: the time for reservation expiry, the monotonic
//! clock for coin locks, and the local date for the daily gas usage cap.

use vstd::prelude::*;

verus! {

/// Calls `chrono::Utc::now()` and reads it as milliseconds since the Unix
/// epoch (`timestamp_millis`). It is the current time, so only this is stated:
/// `Utc::now` measures from the epoch (it panics on a system clock set earlier),
/// so the result is not negative.
#[verifier::external_body]
pub(crate) fn utc_now_millis() -> (r: i64)
    ensures
        r >= 0,
{
    chrono::Utc::now().timestamp_millis()
}

/// Calls `chrono::Local::now()`, takes its date in the machine's time zone
/// (`date_naive`) and reads it as days since the first day of the common era
/// (`Datelike::num_days_from_ce`). It is today's date, so nothing is stated of it.
#[verifier::external_body]
pub(crate) fn local_today() -> i32 {
    chrono::Datelike::num_days_from_ce(&chrono::Local::now().date_naive())
}

/// A point of the machine's monotonic clock.
#[verifier::external_type_specification]
#[verifier::external_body]
pub struct ExInstant(std::time::Instant);

/// Calls `std::time::Instant::now()`. It is the current time, so nothing is
/// stated of it.
#[verifier::external_body]
pub(crate) fn instant_now() -> std::time::Instant {
    std::time::Instant::now()
}

/// Calls `std::time::Instant::elapsed` on `origin`: the time gone by since it.
/// It depends on the current time, so nothing is stated of it.
#[verifier::external_body]
pub(crate) fn instant_elapsed(origin: &std::time::Instant) -> std::time::Duration {
    origin.elapsed()
}

/// Calls `std::time::Duration::as_millis`: the whole milliseconds of `d`.
/// A `Duration` is opaque here, so nothing is stated of the result.
#[verifier::external_body]
pub(crate) fn duration_as_millis(d: &std::time::Duration) -> u128 {
    d.as_millis()
}

} // verus!
