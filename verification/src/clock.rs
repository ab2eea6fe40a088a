//! Readings of the system clocks. Which time a reading shows is not claimed;
//! only that it is the whole nanoseconds of the duration the clock gave.
use vstd::prelude::*;
use std::time::{Duration, Instant, SystemTime, UNIX_EPOCH};

verus! {

#[verifier::external_type_specification]
#[verifier::external_body]
pub struct ExInstant(Instant);

/// Calls `std::time::Instant::now`; the reading depends on the time.
#[verifier::external_body]
pub(crate) fn instant_now() -> Instant {
    Instant::now()
}

/// Calls `Instant::elapsed` on `origin`, in whole nanoseconds. Trusted: the
/// reading is `duration_as_nanos` of the duration that `elapsed` returned.
/// Which duration that is depends on the time, so no value, bound or order
/// of readings is claimed (the callers keep readings in order themselves).
#[verifier::external_body]
pub(crate) fn nanos_since(origin: &Instant) -> (r: u128)
    ensures
        exists|d: Duration| r == #[trigger] duration_as_nanos(d),
{
    origin.elapsed().as_nanos()
}

/// What `Duration::as_nanos` returns for `d`: its whole nanoseconds.
pub uninterp spec fn duration_as_nanos(d: Duration) -> u128;

/// Calls `Duration::as_nanos`. Trusted: the result is
/// `duration_as_nanos(d)`, a function of the duration alone.
#[verifier::external_body]
pub(crate) fn duration_nanos(d: &Duration) -> (r: u128)
    ensures
        r == duration_as_nanos(*d),
{
    d.as_nanos()
}

/// Calls `SystemTime::now` and reads the nanoseconds since the Unix epoch,
/// 0 for a clock set before it, truncated to 64 bits. Trusted: the reading is
/// `duration_as_nanos` of the duration since the epoch (the zero duration for
/// a clock set before it), truncated to 64 bits. Which duration that is
/// depends on the time, so no value is claimed.
#[verifier::external_body]
pub(crate) fn unix_time_nanos() -> (r: u64)
    ensures
        exists|d: Duration| r == #[trigger] duration_as_nanos(d) as u64,
{
    SystemTime::now().duration_since(UNIX_EPOCH).unwrap_or_default().as_nanos() as u64
}

} // verus!
