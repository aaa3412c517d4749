//! The wall clock, in milliseconds since the Unix epoch.
use vstd::prelude::*;
use std::time::{SystemTime, UNIX_EPOCH};

verus! {

/// `std::time::SystemTime`: a reading of the system clock, carried from the function
/// that takes it to the one that measures it.
#[verifier::external_type_specification]
#[verifier::external_body]
pub struct ExSystemTime(SystemTime);

/// `std::time::SystemTime::now`. Nothing is claimed of the reading.
#[verifier::external_body]
fn system_now() -> (r: SystemTime) {
    SystemTime::now()
}

/// What `std::time::SystemTime::duration_since` gives for a reading and the Unix epoch: the
/// whole seconds between them and the nanoseconds left over, or nothing for a reading before
/// the epoch.
pub uninterp spec fn elapsed(reading: SystemTime) -> Option<(u64, u32)>;

/// `std::time::SystemTime::duration_since` with the Unix epoch. Claimed is that the result is
/// a function of the reading, and that the nanoseconds are a fraction of a second.
#[verifier::external_body]
fn since_epoch(reading: SystemTime) -> (r: Option<(u64, u32)>)
    ensures
        r == elapsed(reading),
        r is Some ==> (r->0).1 < 1_000_000_000,
{
    match reading.duration_since(UNIX_EPOCH) {
        Ok(length) => Some((length.as_secs(), length.subsec_nanos())),
        Err(_) => None,
    }
}

/// Whole milliseconds in a length of time, modulo two to the power 64.
pub open spec fn whole_milliseconds(seconds: u64, nanoseconds: u32) -> u64 {
    ((seconds * 1000 + nanoseconds / 1_000_000) % 0x1_0000_0000_0000_0000) as u64
}

/// The whole milliseconds of a length of time are no longer than it, and with one more they
/// are longer.
pub proof fn law_milliseconds_fill_the_time(seconds: u64, nanoseconds: u32)
    requires
        seconds < 0x40_0000_0000_0000,
        nanoseconds < 1_000_000_000,
    ensures
        ({
            let time = seconds * 1_000_000_000 + nanoseconds;
            let count = whole_milliseconds(seconds, nanoseconds);
            count * 1_000_000 <= time < (count + 1) * 1_000_000
        }),
{
}

/// A time since the epoch as a timestamp; zero for a time before it.
pub open spec fn timestamp_of(since: Option<(u64, u32)>) -> u64 {
    match since {
        Some((seconds, nanoseconds)) => whole_milliseconds(seconds, nanoseconds),
        None => 0,
    }
}

/// Whole milliseconds in a length of time, modulo two to the power 64.
pub fn milliseconds(seconds: u64, nanoseconds: u32) -> (r: u64)
    ensures
        r == whole_milliseconds(seconds, nanoseconds),
{
    let total: u128 = seconds as u128 * 1000 + (nanoseconds / 1_000_000) as u128;
    (total % 0x1_0000_0000_0000_0000) as u64
}

/// A time since the epoch, in seconds and nanoseconds, as a timestamp.
pub fn timestamp(since: Option<(u64, u32)>) -> (r: u64)
    ensures
        r == timestamp_of(since),
{
    match since {
        Some((seconds, nanoseconds)) => milliseconds(seconds, nanoseconds),
        None => 0,
    }
}

/// Milliseconds since the Unix epoch, by a reading of the system clock; zero while the clock
/// stands before the epoch.
pub(crate) fn now_ms() -> (r: u64)
    ensures
        exists|reading: SystemTime| r == timestamp_of(#[trigger] elapsed(reading)),
{
    let reading: SystemTime = system_now();
    timestamp(since_epoch(reading))
}

} // verus!
