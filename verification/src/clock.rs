//! The server's clock.

use vstd::prelude::*;
use crate::attr::Timestamp;

verus! {

/// The number of nanoseconds in a second.
pub const NANOS_PER_SECOND: u32 = 1_000_000_000;

/// Asks `std::time::SystemTime::elapsed` how long ago `std::time::UNIX_EPOCH` was: the
/// whole seconds and the nanoseconds within the second, or `None` where the system clock
/// stands before the epoch. Nothing is claimed of the time itself, only that the
/// nanoseconds are less than a second, as `Duration::subsec_nanos` documents.
#[verifier::external_body]
fn unix_time() -> (t: Option<(u64, u32)>)
    ensures
        t matches Some((_, nanos)) ==> nanos < NANOS_PER_SECOND,
{
    match std::time::UNIX_EPOCH.elapsed() {
        Ok(d) => Some((d.as_secs(), d.subsec_nanos())),
        Err(_) => None,
    }
}

/// The current server time: the timestamp of a reading of the system clock. Which
/// reading the clock gives is not known; what is made of it, `timestamp_of` says.
pub fn server_time() -> (now: Timestamp)
    ensures
        exists|reading: Option<(u64, u32)>|
            is_clock_reading(reading) && now == #[trigger] timestamp_of(reading),
        now.nseconds < NANOS_PER_SECOND,
{
    let reading = unix_time();
    let now = to_timestamp(reading);
    assert(is_clock_reading(reading) && now == timestamp_of(reading));
    now
}

/// Whether `reading` is something that the clock can give: no reading at all, where the
/// clock stands before the epoch, or whole seconds since the epoch and the nanoseconds
/// within the second.
pub open spec fn is_clock_reading(reading: Option<(u64, u32)>) -> bool {
    reading matches Some((_, nanos)) ==> nanos < NANOS_PER_SECOND
}

/// The timestamp that a reading of the clock stands for. The seconds wrap round at 2^32
/// and the nanoseconds are kept; a clock that stands before the epoch reads as the epoch.
pub open spec fn timestamp_of(reading: Option<(u64, u32)>) -> Timestamp {
    match reading {
        Some((secs, nanos)) => Timestamp { seconds: (secs % 0x1_0000_0000) as u32, nseconds: nanos },
        None => Timestamp::zero(),
    }
}

/// Makes the timestamp that a reading of the clock stands for.
pub fn to_timestamp(reading: Option<(u64, u32)>) -> (t: Timestamp)
    ensures
        t == timestamp_of(reading),
{
    match reading {
        Some((secs, nanos)) => Timestamp { seconds: (secs % 0x1_0000_0000) as u32, nseconds: nanos },
        None => Timestamp { seconds: 0, nseconds: 0 },
    }
}

} // verus!
