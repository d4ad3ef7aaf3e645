//! Time-bucketed containers whose entries expire after a fixed time to live.
//!
//! Time is cut into slots of a fixed width. An entry lives in the bucket of the
//! slot it was recorded in, and garbage collection drops whole buckets.

use vstd::prelude::*;

pub mod counted;
pub mod set;
mod slots;

verus! {

/// Why a duration was refused.
#[derive(Clone, Copy, Debug, PartialEq, Eq, Structural)]
pub enum DurationError {
    /// A duration of zero milliseconds was given.
    InvalidConfig,
}

/// A strictly positive number of milliseconds.
#[derive(Clone, Copy, Debug)]
pub struct Duration {
    millis: u64,
}

impl Duration {
    /// The number of milliseconds, as a mathematical integer.
    pub closed spec fn value(&self) -> nat {
        self.millis as nat
    }

    #[verifier::type_invariant]
    spec fn positive(&self) -> bool {
        self.millis > 0
    }

    /// Accepts every duration but zero.
    pub fn try_new(millis: u64) -> (r: Result<Duration, DurationError>)
        ensures
            millis == 0 <==> r is Err,
            r matches Ok(d) ==> d.value() == millis,
            r matches Err(e) ==> e == DurationError::InvalidConfig,
    {
        if millis == 0 {
            Err(DurationError::InvalidConfig)
        } else {
            Ok(Duration { millis })
        }
    }

    /// The number of milliseconds.
    pub fn get(&self) -> (r: u64)
        ensures
            r == self.value(),
            r > 0,
    {
        proof {
            use_type_invariant(self);
        }
        self.millis
    }
}

/// The slot that a time falls into when slots are `width` wide.
pub open spec fn slot_at(time_ms: u64, width: Duration) -> u64 {
    (time_ms as nat / width.value()) as u64
}

/// The newest slot that a collection at `now_ms` drops, if it is not negative:
/// the current slot moved back by the number of whole slots in the time to live.
pub open spec fn cutoff(now_ms: u64, ttl: Duration, width: Duration) -> int {
    now_ms as nat / width.value() - ttl.value() / width.value()
}

/// Whether a collection at `now_ms` drops the bucket of `slot`.
pub open spec fn expired(slot: u64, now_ms: u64, ttl: Duration, width: Duration) -> bool {
    slot <= cutoff(now_ms, ttl, width)
}

} // verus!
