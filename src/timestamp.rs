use vstd::prelude::*;

verus! {

/// Nanoseconds in one second.
pub const NANOS_PER_SEC: i128 = 1_000_000_000;

/// Seconds after which a tracked task counts as stale (twelve hours).
pub const MAX_RECORD_AGE_SECS: i64 = 43_200;

/// A UTC instant: whole seconds since the Unix epoch and the nanoseconds
/// within that second.
#[derive(Clone, Copy, Debug, PartialEq, Eq, Structural)]
pub struct Timestamp {
    pub secs: i64,
    pub nanos: u32,
}

impl Timestamp {
    /// The instant as a count of nanoseconds since the epoch.
    pub open spec fn total_nanos(self) -> int {
        self.secs * 1_000_000_000 + self.nanos
    }

    pub fn new(secs: i64, nanos: u32) -> (r: Timestamp)
        ensures
            r.secs == secs,
            r.nanos == nanos,
    {
        Timestamp { secs, nanos }
    }

    /// Signed nanoseconds from `earlier` to `self`.
    pub fn nanos_since(&self, earlier: &Timestamp) -> (r: i128)
        ensures
            r == self.total_nanos() - earlier.total_nanos(),
    {
        let secs: i128 = self.secs as i128 - earlier.secs as i128;
        let nanos: i128 = self.nanos as i128 - earlier.nanos as i128;
        secs * NANOS_PER_SEC + nanos
    }
}

/// Whether the time from `started` to `now` is strictly longer than the
/// maximum record age.
pub open spec fn age_exceeds_spec(started: Timestamp, now: Timestamp) -> bool {
    now.total_nanos() - started.total_nanos() > MAX_RECORD_AGE_SECS * 1_000_000_000
}

/// Decides whether a task started at `started` has outlived the maximum
/// record age at `now`.
pub fn age_exceeds(started: &Timestamp, now: &Timestamp) -> (r: bool)
    ensures
        r == age_exceeds_spec(*started, *now),
{
    let age = now.nanos_since(started);
    age > MAX_RECORD_AGE_SECS as i128 * NANOS_PER_SEC
}

} // verus!
