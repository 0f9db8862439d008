use vstd::prelude::*;
use std::time::Duration;
use std::time::SystemTime;
use std::time::SystemTimeError;

verus! {

#[verifier::external_type_specification]
#[verifier::external_body]
pub struct ExSystemTime(SystemTime);

#[verifier::external_type_specification]
#[verifier::external_body]
pub struct ExSystemTimeError(SystemTimeError);

/// Calls `std::time::SystemTime::now`. Nothing is claimed of the time it reads.
#[verifier::external_body]
fn system_time_now() -> SystemTime {
    SystemTime::now()
}

/// Calls `std::time::SystemTime::duration_since` with `std::time::UNIX_EPOCH`. Nothing
/// is claimed of its result: it rests on the time read before.
#[verifier::external_body]
fn since_unix_epoch(t: &SystemTime) -> Result<Duration, SystemTimeError> {
    t.duration_since(std::time::UNIX_EPOCH)
}

/// Calls `std::time::Duration::as_micros`. A `Duration` is opaque here, so nothing is
/// claimed of the number.
#[verifier::external_body]
fn duration_as_micros(d: &Duration) -> u128 {
    d.as_micros()
}

/// A count of microseconds as a 64-bit number: `None` (a clock reading earlier than
/// the epoch) gives zero, and a count past what 64 bits hold gives `u64::MAX`.
pub open spec fn usec_value(m: Option<u128>) -> u64 {
    match m {
        Some(x) => if x <= u64::MAX as u128 {
            x as u64
        } else {
            u64::MAX
        },
        None => 0,
    }
}

/// Turns a count of microseconds since the epoch, or `None` for a clock reading
/// earlier than the epoch, into the 64-bit number the clock reports.
pub fn usec_from_micros(m: Option<u128>) -> (us: u64)
    ensures
        us == usec_value(m),
{
    match m {
        Some(x) => {
            if x <= 0xffff_ffff_ffff_ffffu128 {
                x as u64
            } else {
                u64::MAX
            }
        },
        None => 0,
    }
}

/// The wall-clock time in microseconds since the Unix epoch; zero when the clock
/// reads earlier than the epoch, and `u64::MAX` past what 64 bits hold (see
/// [`usec_from_micros`]). Which time it reads rests on the clock alone.
pub fn get_current_usec() -> u64 {
    let now = system_time_now();
    let m: Option<u128> = match since_unix_epoch(&now) {
        Ok(d) => Some(duration_as_micros(&d)),
        Err(_) => None,
    };
    usec_from_micros(m)
}

} // verus!
