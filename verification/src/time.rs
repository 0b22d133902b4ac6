//! Points in time and spans between them, as plain numbers.

use vstd::prelude::*;

verus! {

/// Nanoseconds in a second.
pub const SECOND: u128 = 1_000_000_000;

/// Nanoseconds in a millisecond.
pub const MILLISECOND: u128 = 1_000_000;

/// A span of time.
#[derive(Debug, Clone, Copy, PartialEq, Eq, Structural)]
pub struct Duration {
    pub nanos: u128,
}

impl Duration {
    pub fn from_secs(secs: u64) -> (d: Duration)
        ensures
            d.nanos == secs * SECOND,
            d.nanos == secs * 1_000_000_000,
    {
        Duration { nanos: secs as u128 * SECOND }
    }

    pub fn from_millis(millis: u64) -> (d: Duration)
        ensures
            d.nanos == millis * MILLISECOND,
            d.nanos == millis * 1_000_000,
    {
        Duration { nanos: millis as u128 * MILLISECOND }
    }
}

/// A point in time, counted from an origin that the whole process shares.
#[derive(Debug, Clone, Copy, PartialEq, Eq, Structural)]
pub struct Instant {
    pub nanos: u128,
}

impl Instant {
    /// How long after `earlier` this is; nothing when it is not after it.
    pub open spec fn spec_since(self, earlier: Instant) -> nat {
        if self.nanos >= earlier.nanos {
            (self.nanos - earlier.nanos) as nat
        } else {
            0
        }
    }

    /// The instant `d` later; the end of time when that lies past it.
    pub open spec fn spec_plus(self, d: Duration) -> nat {
        if self.nanos + d.nanos <= u128::MAX {
            (self.nanos + d.nanos) as nat
        } else {
            u128::MAX as nat
        }
    }

    pub fn since(&self, earlier: Instant) -> (d: Duration)
        ensures
            d.nanos == self.spec_since(earlier),
            self.nanos >= earlier.nanos ==> earlier.nanos + d.nanos == self.nanos,
            self.nanos < earlier.nanos ==> d.nanos == 0,
    {
        if self.nanos >= earlier.nanos {
            Duration { nanos: self.nanos - earlier.nanos }
        } else {
            Duration { nanos: 0 }
        }
    }

    pub fn plus(&self, d: Duration) -> (later: Instant)
        ensures
            later.nanos == self.spec_plus(d),
            self.nanos + d.nanos <= u128::MAX ==> later.nanos == self.nanos + d.nanos,
            self.nanos + d.nanos > u128::MAX ==> later.nanos == u128::MAX,
    {
        match self.nanos.checked_add(d.nanos) {
            Some(nanos) => Instant { nanos },
            None => Instant { nanos: u128::MAX },
        }
    }
}

/// Law: what passes between two instants leads from the one to the other, and nothing passes
/// between an instant and an earlier one.
pub proof fn law_spans_lead_from_instant_to_instant(earlier: Instant, now: Instant, d: Duration)
    ensures
        earlier.nanos <= now.nanos ==> earlier.nanos + now.spec_since(earlier) == now.nanos,
        now.nanos <= earlier.nanos ==> now.spec_since(earlier) == 0,
        earlier.nanos + d.nanos <= u128::MAX ==> earlier.spec_plus(d) - earlier.nanos == d.nanos,
        earlier.nanos + d.nanos > u128::MAX ==> earlier.spec_plus(d) == u128::MAX,
{
}

} // verus!
