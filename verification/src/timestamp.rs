//! The name of a new session: the time now, in milliseconds since the Unix
//! epoch, written in decimal digits.

use vstd::prelude::*;
use crate::decimal::{decimal_digits, timestamp_name, timestamp_of, lemma_name_denotes_timestamp};

verus! {

/// `std::time::SystemTime`, a point in time as the system clock measures
/// it. Nothing is known of what a value holds.
#[verifier::external_type_specification]
#[verifier::external_body]
pub struct ExSystemTime(std::time::SystemTime);

/// `std::time::SystemTimeError`, the error with which the distance between
/// two points in time is refused. Nothing is known of what a value holds.
#[verifier::external_type_specification]
#[verifier::external_body]
pub struct ExSystemTimeError(std::time::SystemTimeError);

/// `SystemTime::now` reads the system clock. Nothing is claimed of the time
/// it returns.
pub assume_specification[ std::time::SystemTime::now ]() -> (now: std::time::SystemTime)
;

/// `Duration::as_millis` gives a span of time in whole milliseconds.
/// Nothing is claimed of the number it returns.
pub assume_specification[ core::time::Duration::as_millis ](span: &core::time::Duration) -> (millis:
    u128)
;

/// Calls `SystemTime::duration_since` with the Unix epoch as the earlier
/// time: the span from the epoch to `time`, or an error if `time` lies
/// before the epoch. Nothing is claimed of either.
#[verifier::external_body]
fn since_epoch(time: &std::time::SystemTime) -> (span: Result<
    core::time::Duration,
    std::time::SystemTimeError,
>) {
    time.duration_since(std::time::UNIX_EPOCH)
}

/// The name for a session saved now, or nothing if the system clock stands
/// before the Unix epoch. Whatever the clock says, the name is a timestamp
/// written by [`timestamp_name`].
pub fn generate_timestamp_string() -> (name: Option<String>)
    ensures
        name matches Some(text) ==> timestamp_of(text@) is Some && text@ == decimal_digits(
            timestamp_of(text@)->Some_0 as nat,
        ),
{
    let now = std::time::SystemTime::now();
    let elapsed = match since_epoch(&now) {
        Ok(span) => Some(span.as_millis()),
        Err(_) => None,
    };
    proof {
        if let Some(millis) = elapsed {
            lemma_name_denotes_timestamp(millis);
        }
    }
    name_since_epoch(elapsed)
}

/// The name for a session saved `elapsed` milliseconds after the Unix
/// epoch: that number in decimal digits. Where the clock gave no such span,
/// because it stands before the epoch, there is no name.
pub fn name_since_epoch(elapsed: Option<u128>) -> (name: Option<String>)
    ensures
        match elapsed {
            Some(millis) => name is Some && name->Some_0@ == decimal_digits(millis as nat),
            None => name is None,
        },
{
    match elapsed {
        Some(millis) => Some(timestamp_name(millis)),
        None => None,
    }
}

} // verus!
