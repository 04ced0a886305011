//! Timing of native calls against the raw monotonic clock.
use nix::time::{clock_gettime, ClockId};
use vstd::prelude::*;

verus! {

/// The number of nanoseconds in a second.
pub const NANOS_PER_SECOND: i128 = 1_000_000_000;

/// Reads the raw monotonic clock: whole seconds and nanoseconds since an
/// arbitrary start, or nothing where the clock cannot be read.
///
/// Trusted: wraps `nix::time::clock_gettime` with
/// `ClockId::CLOCK_MONOTONIC_RAW` and hands out the two fields of the
/// `TimeSpec` it returns. What the clock shows depends on when it is read,
/// so nothing is claimed about the result.
#[verifier::external_body]
fn high_precision_time() -> (t: Option<(i64, i64)>) {
    match clock_gettime(ClockId::CLOCK_MONOTONIC_RAW) {
        Ok(ts) => Some((ts.tv_sec() as i64, ts.tv_nsec() as i64)),
        Err(_) => None,
    }
}

/// A reading of the clock in nanoseconds.
pub open spec fn nanos_of(reading: (i64, i64)) -> int {
    reading.0 * NANOS_PER_SECOND + reading.1
}

/// Whether `now` is what a look at the clock can give: nothing, where the
/// clock could not be read, or a reading of seconds and nanoseconds as one
/// number of nanoseconds.
pub open spec fn is_reading(now: Option<i128>) -> bool {
    now matches Some(n) ==> exists|t: (i64, i64)| n == #[trigger] nanos_of(t)
}

/// The time from `start` to `now`, in nanoseconds: nothing where either
/// reading is missing or the clock went backwards.
pub open spec fn elapsed(start: Option<i128>, now: Option<i128>) -> nat {
    match (start, now) {
        (Some(s), Some(n)) => if n >= s {
            (n - s) as nat
        } else {
            0
        },
        _ => 0,
    }
}

/// A stopwatch: when it was started, and how long it ran when it was last
/// read, both in nanoseconds.
#[derive(Debug, Clone, Copy, PartialEq, Eq)]
pub struct Perf {
    pub start: Option<i128>,
    pub duration: u128,
}

/// A reading of the clock as one number of nanoseconds.
fn to_nanos(reading: Option<(i64, i64)>) -> (r: Option<i128>)
    ensures
        r == match reading {
            Some(t) => Some(nanos_of(t) as i128),
            None => None,
        },
        reading matches Some(t) ==> i128::MIN <= nanos_of(t) <= i128::MAX,
{
    match reading {
        Some((secs, nanos)) => {
            assert(-0x8000_0000_0000_0000 * 1_000_000_000 <= secs * 1_000_000_000
                <= 0x8000_0000_0000_0000 * 1_000_000_000) by (nonlinear_arith)
                requires
                    -0x8000_0000_0000_0000 <= secs <= 0x8000_0000_0000_0000,
            ;
            Some(secs as i128 * NANOS_PER_SECOND + nanos as i128)
        },
        None => None,
    }
}

impl Perf {
    /// A stopwatch started at the given reading of the clock.
    pub fn started_at(start: Option<i128>) -> (p: Perf)
        ensures
            p.start == start,
            p.duration == 0,
    {
        Perf { start, duration: 0 }
    }

    /// A stopwatch started now: it has not run yet, and its start is what
    /// the clock gave when it was read.
    pub fn new() -> (p: Perf)
        ensures
            p.duration == 0,
            is_reading(p.start),
    {
        let reading = high_precision_time();
        let start = to_nanos(reading);
        proof {
            if let Some(t) = reading {
                assert(start == Some(nanos_of(t) as i128));
            }
        }
        Perf::started_at(start)
    }

    /// Reads the stopwatch at the given reading of the clock.
    pub fn record_at(&mut self, now: Option<i128>)
        ensures
            final(self).start == old(self).start,
            final(self).duration == elapsed(old(self).start, now),
    {
        self.duration = match (self.start, now) {
            (Some(s), Some(n)) => if n < s {
                0
            } else if s >= 0 || n < 0 {
                (n - s) as u128
            } else {
                n as u128 + (-(s + 1)) as u128 + 1
            },
            _ => 0,
        };
    }

    /// Reads the stopwatch now: the start stays, and the duration becomes
    /// the time from the start to what the clock gave when it was read.
    pub fn record(&mut self)
        ensures
            final(self).start == old(self).start,
            exists|now: Option<i128>|
                is_reading(now) && final(self).duration == #[trigger] elapsed(
                    old(self).start,
                    now,
                ),
    {
        let reading = high_precision_time();
        let now = to_nanos(reading);
        proof {
            if let Some(t) = reading {
                assert(now == Some(nanos_of(t) as i128));
            }
            assert(is_reading(now));
        }
        self.record_at(now);
    }

    /// How long the stopwatch ran when it was last read, in nanoseconds.
    pub fn nanos(&self) -> (n: u128)
        ensures
            n == self.duration,
    {
        self.duration
    }
}

} // verus!
