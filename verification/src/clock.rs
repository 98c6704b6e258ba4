use vstd::prelude::*;

verus! {

/// `std::time::Instant`, a reading of the monotonic clock; nothing of what it
/// holds is visible to the verifier.
#[verifier::external_type_specification]
#[verifier::external_body]
pub struct ExInstant(std::time::Instant);

/// `Instant::now` reads the clock: the reading is whatever the clock says.
pub assume_specification[ std::time::Instant::now ]() -> (now: std::time::Instant);

/// `Instant::elapsed` measures the time since the reading: any duration may
/// come back.
pub assume_specification[ std::time::Instant::elapsed ](instant: &std::time::Instant) -> (elapsed:
    core::time::Duration);

/// `Duration::as_millis` gives the whole milliseconds of a duration.
pub assume_specification[ core::time::Duration::as_millis ](duration: &core::time::Duration) -> (millis:
    u128);

/// `std::time::SystemTime`, a reading of the wall clock.
#[verifier::external_type_specification]
#[verifier::external_body]
pub struct ExSystemTime(std::time::SystemTime);

/// `std::time::SystemTimeError`, what `duration_since` fails with when the
/// clock reads earlier than the time it is compared with.
#[verifier::external_type_specification]
#[verifier::external_body]
pub struct ExSystemTimeError(std::time::SystemTimeError);

/// `SystemTime::now` reads the wall clock: the reading is whatever the clock
/// says.
pub assume_specification[ std::time::SystemTime::now ]() -> (now: std::time::SystemTime);

/// `Duration::as_nanos` gives the whole nanoseconds of a duration.
pub assume_specification[ core::time::Duration::as_nanos ](duration: &core::time::Duration) -> (nanos:
    u128);

/// `SystemTime::duration_since`, asked for the time that has passed since
/// `UNIX_EPOCH`. Nothing is claimed of the answer.
#[verifier::external_body]
pub(crate) fn since_epoch(now: &std::time::SystemTime) -> (since: Result<
    core::time::Duration,
    std::time::SystemTimeError,
>) {
    now.duration_since(std::time::UNIX_EPOCH)
}

} // verus!
