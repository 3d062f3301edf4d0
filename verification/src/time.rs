//! Points in time and spans of time, counted in nanoseconds.

use vstd::prelude::*;

verus! {

/// Nanoseconds in one second.
pub const NANOS_PER_SEC: u128 = 1_000_000_000;

/// A span of time.
#[derive(Clone, Copy, Debug, PartialEq, Eq, Structural)]
pub struct Duration {
    /// Length of the span in nanoseconds.
    pub nanos: u128,
}

/// A point in time, relative to the Unix epoch.
#[derive(Clone, Copy, Debug, PartialEq, Eq, Structural)]
pub struct Timestamp {
    /// Nanoseconds since the epoch; negative before it.
    pub nanos: i128,
}

impl Duration {
    /// The empty span.
    pub fn zero() -> (d: Duration)
        ensures
            d.nanos == 0,
    {
        Duration { nanos: 0 }
    }

    /// A span of `secs` whole seconds.
    pub fn from_secs(secs: u64) -> (d: Duration)
        ensures
            d.nanos == secs * NANOS_PER_SEC,
    {
        let wide: u128 = secs as u128;
        Duration { nanos: wide * NANOS_PER_SEC }
    }

    /// Whole seconds of the span, and `u64::MAX` where there are more.
    pub open spec fn spec_as_secs(&self) -> u64 {
        if self.nanos / NANOS_PER_SEC <= u64::MAX {
            (self.nanos / NANOS_PER_SEC) as u64
        } else {
            u64::MAX
        }
    }

    /// The part of the span below one second, in nanoseconds.
    pub open spec fn spec_subsec_nanos(&self) -> u32 {
        (self.nanos % NANOS_PER_SEC) as u32
    }

    /// Whole seconds of the span, and `u64::MAX` where there are more.
    #[verifier::when_used_as_spec(spec_as_secs)]
    pub fn as_secs(&self) -> (secs: u64)
        ensures
            secs == self.spec_as_secs(),
    {
        let whole: u128 = self.nanos / NANOS_PER_SEC;
        if whole <= u64::MAX as u128 {
            whole as u64
        } else {
            u64::MAX
        }
    }

    /// The part of the span below one second, in nanoseconds.
    #[verifier::when_used_as_spec(spec_subsec_nanos)]
    pub fn subsec_nanos(&self) -> (nanos: u32)
        ensures
            nanos == self.spec_subsec_nanos(),
            nanos < NANOS_PER_SEC,
    {
        let part: u128 = self.nanos % NANOS_PER_SEC;
        part as u32
    }
}

impl Timestamp {
    /// Time elapsed from `earlier` to `self`; zero when `earlier` is the later
    /// of the two.
    pub open spec fn spec_elapsed_since(self, earlier: Timestamp) -> int {
        if self.nanos >= earlier.nanos {
            self.nanos - earlier.nanos
        } else {
            0
        }
    }

    /// Time elapsed from `earlier` to `self`, clamped at zero when the clock
    /// disagrees.
    pub fn elapsed_since(&self, earlier: &Timestamp) -> (d: Duration)
        ensures
            d.nanos == self.spec_elapsed_since(*earlier),
    {
        if self.nanos < earlier.nanos {
            Duration { nanos: 0 }
        } else if earlier.nanos >= 0 || self.nanos < 0 {
            let diff: i128 = self.nanos - earlier.nanos;
            Duration { nanos: diff as u128 }
        } else {
            let ahead: u128 = self.nanos as u128;
            let behind: u128 = (-(earlier.nanos + 1)) as u128;
            Duration { nanos: ahead + behind + 1 }
        }
    }
}

} // verus!
