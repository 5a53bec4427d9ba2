//! Reception times. The library reckons in whole milliseconds since the
//! Unix epoch; the wall clock is read in one place.

use vstd::prelude::*;

verus! {

/// The longest gap, in milliseconds, between the two reports of a pair that
/// may still be solved together.
pub const PAIR_WINDOW_MS: i64 = 10_000;

/// The age in seconds beyond which the reference policy drops an aircraft.
pub const STALE_AFTER_SECONDS: i64 = 30;

/// A point in time, in milliseconds since the Unix epoch.
#[derive(Debug, Clone, Copy, PartialEq, Eq, Structural)]
pub struct Timestamp {
    pub millis: i64,
}

/// The time between two points in time, in milliseconds, whichever came
/// first.
pub open spec fn gap_ms(a: Timestamp, b: Timestamp) -> int {
    if a.millis >= b.millis {
        a.millis - b.millis
    } else {
        b.millis - a.millis
    }
}

/// The whole seconds from `earlier` to `later`, rounded toward zero; it is
/// negative when `later` came first.
pub open spec fn seconds_between(earlier: Timestamp, later: Timestamp) -> int {
    if later.millis >= earlier.millis {
        (later.millis - earlier.millis) / 1000
    } else {
        -((earlier.millis - later.millis) / 1000)
    }
}

impl Timestamp {
    /// The point in time `millis` milliseconds after the Unix epoch.
    pub fn from_millis(millis: i64) -> (t: Timestamp)
        ensures
            t.millis == millis,
    {
        Timestamp { millis }
    }

    /// Whether `self` and `other` lie no more than `window_ms` milliseconds
    /// apart.
    pub fn within(&self, other: &Timestamp, window_ms: i64) -> (close: bool)
        ensures
            close == (gap_ms(*self, *other) <= window_ms),
    {
        let a: i128 = self.millis as i128;
        let b: i128 = other.millis as i128;
        let gap: i128 = if a >= b { a - b } else { b - a };
        gap <= window_ms as i128
    }

    /// The whole seconds that have passed at `self` since `earlier`, rounded
    /// toward zero.
    pub fn seconds_since(&self, earlier: &Timestamp) -> (seconds: i64)
        ensures
            seconds == seconds_between(*earlier, *self),
    {
        let later: i128 = self.millis as i128;
        let start: i128 = earlier.millis as i128;
        if later >= start {
            ((later - start) / 1000) as i64
        } else {
            (-((start - later) / 1000)) as i64
        }
    }
}

/// Reads the wall clock: `chrono::Local::now()`, as the number of
/// milliseconds since the Unix epoch that `timestamp_millis` gives for it.
/// Nothing is claimed of the value.
#[verifier::external_body]
pub(crate) fn now() -> Timestamp {
    Timestamp { millis: chrono::Local::now().timestamp_millis() }
}

} // verus!
