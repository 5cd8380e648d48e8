//! The system clock.

use crate::error::{Error, ErrorView, Failure};
use std::time::{SystemTime, UNIX_EPOCH};
use vstd::prelude::*;

verus! {

/// `std::time::SystemTime`, a reading of the system clock.
#[verifier::external_type_specification]
#[verifier::external_body]
pub struct ExSystemTime(SystemTime);

/// `SystemTime::now`: the time now, of which nothing is promised.
pub assume_specification[ SystemTime::now ]() -> SystemTime
;

/// `SystemTime::duration_since` the Unix epoch: the nanoseconds that have passed
/// since then, or the text of the error of a clock that stands before it. What the
/// clock shows is left open.
#[verifier::external_body]
fn nanos_since_epoch(t: SystemTime) -> (r: Result<u128, String>) {
    t.duration_since(UNIX_EPOCH).map(|d| d.as_nanos()).map_err(|e| e.to_string())
}

/// The view of a reading of the clock, in seconds, or of an error.
pub open spec fn reading(r: Result<u64, Error>) -> Result<u64, ErrorView> {
    match r {
        Ok(now) => Ok(now),
        Err(e) => Err(e@),
    }
}

/// Whether the clock can give a reading: a time, or the error of a clock that is
/// wrong.
pub open spec fn possible(r: Result<u64, ErrorView>) -> bool {
    r matches Err(e) ==> e is Clock
}

/// The whole seconds in a time given in nanoseconds, cut to 64 bits, or the error that
/// stands in its place.
pub open spec fn seconds_of(nanos: Result<u128, String>) -> Result<u64, ErrorView> {
    match nanos {
        Ok(n) => Ok((n / 1_000_000_000) as u64),
        Err(t) => Err(Failure::Clock(t@)),
    }
}

/// The whole seconds in a time given in nanoseconds, or the error that stands in
/// its place.
pub fn seconds(nanos: Result<u128, String>) -> (r: Result<u64, Error>)
    ensures
        reading(r) == seconds_of(nanos),
{
    match nanos {
        Ok(n) => Ok((n / 1_000_000_000) as u64),
        Err(t) => Err(Failure::Clock(t)),
    }
}

/// The whole milliseconds in a time given in nanoseconds, cut to 64 bits; zero for
/// an error.
pub open spec fn millis_of(nanos: Result<u128, String>) -> i64 {
    match nanos {
        Ok(n) => (n / 1_000_000) as i64,
        Err(_) => 0,
    }
}

/// The whole milliseconds in a time given in nanoseconds, in 64 bits; zero if an
/// error stands in its place.
pub fn millis(nanos: Result<u128, String>) -> (r: i64)
    ensures
        r == millis_of(nanos),
{
    match nanos {
        Ok(n) => (n / 1_000_000) as i64,
        Err(_) => 0,
    }
}

/// The seconds since 1970.
pub fn now_secs() -> (r: Result<u64, Error>)
    ensures
        possible(reading(r)),
{
    seconds(nanos_since_epoch(SystemTime::now()))
}

/// The milliseconds since 1970; zero if the clock stands before that. That they are
/// those of some reading promises nothing of the number: what a reading comes to is
/// said by `millis`.
pub fn now_ms() -> (r: i64)
    ensures
        exists|nanos: Result<u128, String>| r == #[trigger] millis_of(nanos),
{
    let nanos: Result<u128, String> = nanos_since_epoch(SystemTime::now());
    let ghost seen = nanos;
    let r: i64 = millis(nanos);
    assert(r == millis_of(seen));
    r
}

/// From the first to the last nanosecond of a second, the clock shows that second. An
/// error of the clock is passed on.
pub proof fn lemma_seconds(nanos: u128, s: u64, error: String)
    requires
        s * 1_000_000_000 <= nanos < s * 1_000_000_000 + 1_000_000_000,
    ensures
        seconds_of(Ok(nanos)) == Ok::<u64, ErrorView>(s),
        seconds_of(Err(error)) == Err::<u64, ErrorView>(Failure::Clock(error@)),
{
    assert(nanos / 1_000_000_000 == s);
}

/// From the first to the last nanosecond of a millisecond, the clock shows that
/// millisecond.
pub proof fn lemma_millis(nanos: u128, ms: i64, error: String)
    requires
        ms * 1_000_000 <= nanos < ms * 1_000_000 + 1_000_000,
    ensures
        millis_of(Ok(nanos)) == ms,
        millis_of(Err(error)) == 0,
{
    assert(nanos / 1_000_000 == ms);
}

} // verus!
