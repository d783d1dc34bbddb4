//! Readings of the two clocks that the registry consults: the wall clock
//! (for timestamps exchanged with peers) and the monotonic clock (for the
//! circuit breaker's cool-down).
use vstd::prelude::*;

verus! {

#[verifier::external_type_specification]
#[verifier::external_body]
pub struct ExInstant(std::time::Instant);

#[verifier::external_type_specification]
#[verifier::external_body]
pub struct ExSystemTime(std::time::SystemTime);

/// One reading of both clocks.
#[derive(Clone, Copy, Debug)]
pub struct Moment {
    /// Nanoseconds since the Unix epoch, negative before it.
    pub wall_nanos: i128,
    /// Nanoseconds on the monotonic clock since the registry was created.
    pub monotonic_nanos: u128,
}

/// The current reading of the system clock, from `std::time::SystemTime::now`.
/// Nothing is promised of it.
#[verifier::external_body]
fn system_now() -> std::time::SystemTime {
    std::time::SystemTime::now()
}

/// How far `t` lies from the Unix epoch, from `SystemTime::duration_since`
/// with `UNIX_EPOCH`: `Ok` with the time since the epoch, or, for a time
/// before the epoch, `Err` with the time by which it falls short (the
/// error's `duration`). Which of the two comes back depends on the clock, so
/// nothing is promised of it.
#[verifier::external_body]
fn since_epoch(t: &std::time::SystemTime) -> Result<std::time::Duration, std::time::Duration> {
    match t.duration_since(std::time::UNIX_EPOCH) {
        Ok(d) => Ok(d),
        Err(e) => Err(e.duration()),
    }
}

/// The whole nanoseconds in `d`, from `Duration::as_nanos`. A `Duration` is
/// opaque here, so nothing is promised of the number.
#[verifier::external_body]
fn duration_nanos(d: &std::time::Duration) -> u128 {
    d.as_nanos()
}

/// `n` as a signed number, or the largest one when it does not fit.
fn saturating_signed(n: u128) -> (r: i128)
    ensures
        r == (if n <= i128::MAX as u128 { n as int } else { i128::MAX as int }),
{
    if n <= i128::MAX as u128 {
        n as i128
    } else {
        i128::MAX
    }
}

/// The current wall-clock time in nanoseconds since the Unix epoch; a
/// clock set before the epoch gives a negative number. It never panics.
pub(crate) fn wall_clock_nanos() -> (r: i128)
    ensures
        r > i128::MIN,
{
    let now = system_now();
    match since_epoch(&now) {
        Ok(d) => saturating_signed(duration_nanos(&d)),
        Err(d) => -saturating_signed(duration_nanos(&d)),
    }
}

/// The current instant of the monotonic clock, from `std::time::Instant::now`.
/// Nothing is promised of it.
#[verifier::external_body]
pub(crate) fn monotonic_now() -> std::time::Instant {
    std::time::Instant::now()
}

/// The time that has passed since `origin` on the monotonic clock, from
/// `Instant::elapsed`, which gives zero rather than panic when `origin` lies
/// ahead. The value depends on when it is read, so nothing is promised of it.
#[verifier::external_body]
fn elapsed_since(origin: &std::time::Instant) -> std::time::Duration {
    origin.elapsed()
}

/// The nanoseconds that have passed since `origin` on the monotonic clock.
pub(crate) fn monotonic_nanos_since(origin: &std::time::Instant) -> u128 {
    let d = elapsed_since(origin);
    duration_nanos(&d)
}

} // verus!
