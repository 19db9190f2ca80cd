//! The wall clock, in whole seconds since the Unix epoch.

use vstd::prelude::*;

verus! {

#[verifier::external_type_specification]
#[verifier::external_body]
pub struct ExSystemTime(std::time::SystemTime);

#[verifier::external_type_specification]
#[verifier::external_body]
pub struct ExSystemTimeError(std::time::SystemTimeError);

/// `SystemTime::now`: nothing is claimed of the time it reads.
pub assume_specification[ std::time::SystemTime::now ]() -> std::time::SystemTime;

/// `SystemTime::duration_since`: nothing is claimed of its outcome.
pub assume_specification[ std::time::SystemTime::duration_since ](
    this: &std::time::SystemTime,
    earlier: std::time::SystemTime,
) -> Result<std::time::Duration, std::time::SystemTimeError>;

/// `Duration::as_secs`: nothing is claimed of its result.
pub assume_specification[ std::time::Duration::as_secs ](d: &std::time::Duration) -> u64;

/// The Unix epoch, `std::time::UNIX_EPOCH`.
#[verifier::external_body]
fn unix_epoch() -> std::time::SystemTime {
    std::time::UNIX_EPOCH
}

/// Whole seconds since the Unix epoch, or 0 when the clock reads earlier.
pub fn now_secs() -> u64 {
    match std::time::SystemTime::now().duration_since(unix_epoch()) {
        Ok(duration) => duration.as_secs(),
        Err(_) => 0,
    }
}

} // verus!
