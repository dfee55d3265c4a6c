//! The clock that deadlines are measured on.
//!
//! A moment is a number of nanoseconds since the clock was started. The clock
//! is the system's monotonic one.

use vstd::prelude::*;

verus! {

/// The latest moment that the clock can show: the longest time span that
/// `std::time::Duration` holds, in nanoseconds.
pub const LATEST_MOMENT: u128 = 18_446_744_073_709_551_615_999_999_999;

/// A point in time of the system's monotonic clock, opaque to the proofs.
#[verifier::external_type_specification]
#[verifier::external_body]
pub struct ExInstant(std::time::Instant);

/// A clock that shows the time since it was started, opaque to the proofs.
///
/// The proofs speak of what it showed when it was last read, and of the point
/// in time from which it counts. How much later a reading is than the one
/// before depends on when it is taken, and is not claimed.
#[verifier::external_body]
#[derive(Debug)]
pub struct Clock {
    origin: std::time::Instant,
}

/// What `clock` showed when it was last read, or 0 before the first reading.
pub uninterp spec fn last_shown(clock: Clock) -> u128;

/// The point in time from which `clock` counts.
pub uninterp spec fn counts_from(clock: Clock) -> std::time::Instant;

impl Clock {
    /// The moment that the clock showed last.
    pub open spec fn moment(&self) -> nat {
        last_shown(*self) as nat
    }

    /// The point in time from which the clock counts.
    pub open spec fn origin(&self) -> std::time::Instant {
        counts_from(*self)
    }

    /// `Instant::now`: a clock that counts from the present and has not been
    /// read. Nothing is claimed of the point in time.
    #[verifier::external_body]
    fn create() -> (clock: Clock)
        ensures
            last_shown(clock) == 0,
    {
        Clock { origin: std::time::Instant::now() }
    }

    /// `Instant::elapsed`, in nanoseconds: how long ago the origin was. The
    /// result is a time span that `std::time::Duration` holds. The system's
    /// clock is monotonic, so no reading is earlier than the one before.
    #[verifier::external_body]
    fn read(&mut self) -> (nanos: u128)
        ensures
            last_shown(*old(self)) <= nanos <= LATEST_MOMENT,
            last_shown(*final(self)) == nanos,
            counts_from(*final(self)) == counts_from(*old(self)),
    {
        self.origin.elapsed().as_nanos()
    }

    /// Starts a clock.
    pub fn start() -> (clock: Clock)
        ensures
            clock.moment() == 0,
    {
        Clock::create()
    }

    /// Reads the clock: the moment at which the call is made.
    pub fn now(&mut self) -> (now: u128)
        ensures
            now == final(self).moment(),
            old(self).moment() <= now <= LATEST_MOMENT,
            final(self).origin() == old(self).origin(),
    {
        self.read()
    }
}

} // verus!
