use vstd::prelude::*;
use std::time::{Duration, Instant};

verus! {

/// Instants of the monotonic clock, carried as opaque values.
#[verifier::external_type_specification]
#[verifier::external_body]
pub struct ExInstant(Instant);

/// Relies on `Instant::now`: reads the monotonic clock; nothing is promised of
/// the value.
pub assume_specification[ Instant::now ]() -> Instant;

/// Paces a loop (the live preview) to a target period.
pub struct UpdateRate {
    pub target_rate: Duration,
    pub prev_time: Instant,
}

impl UpdateRate {
    /// Paces to one round per `target_rate`, starting now.
    pub fn new(target_rate: Duration) -> (r: UpdateRate)
        ensures
            r.target_rate == target_rate,
    {
        UpdateRate { target_rate, prev_time: Instant::now() }
    }

    /// Records that a round ended at `now`.
    pub fn mark(&mut self, now: Instant)
        ensures
            final(self).prev_time == now,
            final(self).target_rate == old(self).target_rate,
    {
        self.prev_time = now;
    }
}

} // verus!
