use chrono::DateTime;
use datafusion::physical_plan::metrics::Time;
use vstd::prelude::*;

verus! {

pub open spec fn nanos_per_second() -> int {
    1_000_000_000
}

/// An instant: seconds since the Unix epoch and nanoseconds since the last second boundary. In a
/// leap second, which is the last of a minute, the nanoseconds go on past one second.
#[derive(Debug, Clone, Copy, PartialEq, Eq, Structural)]
pub struct UtcTimestamp {
    pub secs: i64,
    pub nanos: u32,
}

impl UtcTimestamp {
    /// Nanoseconds since the epoch.
    pub open spec fn epoch_nanos(self) -> int {
        self.secs * nanos_per_second() + self.nanos
    }

    /// The nanoseconds are within the second, or the second is a leap second.
    pub open spec fn in_second(self) -> bool {
        self.nanos < nanos_per_second() || (self.nanos < 2 * nanos_per_second() && self.secs % 60
            == 59)
    }

    /// The number of nanoseconds since the epoch, if the instant exists and the number fits.
    pub open spec fn representable_nanos(self) -> Option<i64> {
        if self.in_second() && i64::MIN <= self.epoch_nanos() <= i64::MAX {
            Some(self.epoch_nanos() as i64)
        } else {
            None
        }
    }
}

/// The instant that lies the given number of nanoseconds after the epoch.
pub open spec fn timestamp_at(nanos: i64) -> UtcTimestamp {
    UtcTimestamp {
        secs: (nanos as int / nanos_per_second()) as i64,
        nanos: (nanos as int % nanos_per_second()) as u32,
    }
}

/// Calls `chrono::DateTime::timestamp_nanos_opt` on the instant that
/// `chrono::DateTime::from_timestamp` makes of the seconds and nanoseconds. The result is the
/// number of nanoseconds since the epoch, and `None` if there is no such instant or the number
/// does not fit.
#[verifier::external_body]
pub(crate) fn timestamp_nanos(timestamp: UtcTimestamp) -> (nanos: Option<i64>)
    ensures
        nanos == timestamp.representable_nanos(),
{
    DateTime::from_timestamp(timestamp.secs, timestamp.nanos)?.timestamp_nanos_opt()
}

/// Calls `chrono::DateTime::from_timestamp_nanos` and takes the instant apart again: the
/// seconds are those of the last second boundary, and the nanoseconds are within one second.
#[verifier::external_body]
pub(crate) fn timestamp_from_nanos(nanos: i64) -> (timestamp: UtcTimestamp)
    ensures
        timestamp == timestamp_at(nanos),
{
    let instant = DateTime::from_timestamp_nanos(nanos);
    UtcTimestamp { secs: instant.timestamp(), nanos: instant.timestamp_subsec_nanos() }
}

/// The nanoseconds that a timer shows after the given duration was added to it: a timer counts at
/// least one nanosecond for everything that it has timed.
pub open spec fn timed_nanos(nanos: u64) -> usize {
    if nanos as usize == 0 { 1 } else { nanos as usize }
}

/// Calls `Time::add_duration` of DataFusion's metrics on a fresh `Time` and reads it: the timer
/// shows the duration, or one nanosecond if that is zero.
#[verifier::external_body]
pub(crate) fn time_duration(nanos: u64) -> (shown: usize)
    ensures
        shown == timed_nanos(nanos),
{
    let time = Time::new();
    time.add_duration(std::time::Duration::from_nanos(nanos));
    time.value()
}

/// An instant that can be counted in nanoseconds is counted back to itself, a leap second to the
/// instant that many nanoseconds after the epoch.
pub proof fn timestamps_survive_nanos(timestamp: UtcTimestamp)
    requires
        timestamp.representable_nanos() is Some,
    ensures
        timestamp_at(timestamp.representable_nanos()->0).representable_nanos()
            == timestamp.representable_nanos(),
        timestamp.nanos < nanos_per_second() ==> timestamp_at(timestamp.representable_nanos()->0)
            == timestamp,
{
    let n = timestamp.representable_nanos()->0 as int;
    let at = timestamp_at(n as i64);
    assert(at.epoch_nanos() == n);
}

} // verus!
