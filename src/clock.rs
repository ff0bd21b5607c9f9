//! Wall-clock milliseconds, which time the handshake burst and the
//! channel's silences.

use vstd::prelude::*;

verus! {

/// Relies on `SystemTime::elapsed` of `std::time::UNIX_EPOCH`: the time
/// since the epoch, in whole milliseconds, or none if the clock reads
/// before the epoch. Nothing is promised of the reading.
#[verifier::external_body]
fn read_clock() -> (r: Option<u128>) {
    std::time::UNIX_EPOCH.elapsed().ok().map(|d| d.as_millis())
}

/// A clock reading in milliseconds, cut to 64 bits.
pub fn clock_millis(ms: u128) -> (r: u64)
    ensures
        r == ms as u64,
        ms <= u64::MAX ==> r == ms,
{
    ms as u64
}

/// Milliseconds since the Unix epoch, by the wall clock; none if the clock
/// reads before the epoch.
pub fn unix_millis() -> (r: Option<u64>) {
    match read_clock() {
        Some(ms) => Some(clock_millis(ms)),
        None => None,
    }
}

} // verus!
