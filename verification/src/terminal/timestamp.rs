//! Points in time and elapsed times, counted in nanoseconds. A `Timestamp`
//! stands for a `SystemTime` (nanoseconds since the Unix epoch, negative
//! before it); an `ElapsedTime` stands for a `Duration`.

use vstd::prelude::*;

verus! {

/// A point in time, in nanoseconds since the Unix epoch.
#[derive(Debug, Clone, Copy, PartialEq, Eq, Structural)]
pub struct Timestamp {
    unix_nanos: i128,
}

/// A non-negative span of time, in nanoseconds.
#[derive(Debug, Clone, Copy, PartialEq, Eq, Structural)]
pub struct ElapsedTime {
    nanos: u128,
}

impl View for Timestamp {
    type V = int;

    closed spec fn view(&self) -> int {
        self.unix_nanos as int
    }
}

impl View for ElapsedTime {
    type V = nat;

    closed spec fn view(&self) -> nat {
        self.nanos as nat
    }
}

impl Timestamp {
    /// The point `nanos` nanoseconds after (or, if negative, before) the epoch.
    pub fn from_unix_nanos(nanos: i128) -> (t: Self)
        ensures
            t@ == nanos,
    {
        Timestamp { unix_nanos: nanos }
    }

    /// The point `secs` seconds after the epoch.
    pub fn from_unix_secs(secs: u64) -> (t: Self)
        ensures
            t@ == secs * 1_000_000_000,
    {
        Timestamp { unix_nanos: secs as i128 * 1_000_000_000 }
    }

    /// The point `millis` milliseconds after the epoch.
    pub fn from_unix_millis(millis: u64) -> (t: Self)
        ensures
            t@ == millis * 1_000_000,
    {
        Timestamp { unix_nanos: millis as i128 * 1_000_000 }
    }

    /// Nanoseconds since the epoch.
    pub fn unix_nanos(&self) -> (nanos: i128)
        ensures
            nanos == self@,
    {
        self.unix_nanos
    }

    /// The time from `earlier` to `self`, if `earlier` is not later
    /// (`SystemTime::duration_since(..).ok()`).
    pub fn duration_since(&self, earlier: Timestamp) -> (elapsed: Option<ElapsedTime>)
        ensures
            match elapsed {
                Some(e) => earlier@ <= self@ && e@ == self@ - earlier@,
                None => self@ < earlier@,
            },
    {
        if self.unix_nanos >= earlier.unix_nanos {
            let later = self.unix_nanos;
            let before = earlier.unix_nanos;
            let diff: u128 = if before >= 0 || later < 0 {
                (later - before) as u128
            } else {
                later as u128 + (-(before + 1)) as u128 + 1
            };
            Some(ElapsedTime { nanos: diff })
        } else {
            None
        }
    }
}

impl ElapsedTime {
    /// A span of `nanos` nanoseconds.
    pub fn from_nanos(nanos: u128) -> (e: Self)
        ensures
            e@ == nanos,
    {
        ElapsedTime { nanos }
    }

    /// A span of `millis` milliseconds.
    pub fn from_millis(millis: u64) -> (e: Self)
        ensures
            e@ == millis * 1_000_000,
    {
        ElapsedTime { nanos: millis as u128 * 1_000_000 }
    }

    /// A span of `secs` seconds.
    pub fn from_secs(secs: u64) -> (e: Self)
        ensures
            e@ == secs * 1_000_000_000,
    {
        ElapsedTime { nanos: secs as u128 * 1_000_000_000 }
    }

    /// Whole nanoseconds.
    pub fn as_nanos(&self) -> (nanos: u128)
        ensures
            nanos == self@,
    {
        self.nanos
    }

    /// Whole milliseconds, rounded down.
    pub fn as_millis(&self) -> (millis: u128)
        ensures
            millis == self@ / 1_000_000,
    {
        self.nanos / 1_000_000
    }

    /// Whole seconds, rounded down.
    pub fn as_secs(&self) -> (secs: u128)
        ensures
            secs == self@ / 1_000_000_000,
    {
        self.nanos / 1_000_000_000
    }
}

} // verus!
