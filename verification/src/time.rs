//! The time of the running application.
use std::time::{Duration, Instant};

use vstd::prelude::*;

verus! {

#[verifier::external_type_specification]
#[verifier::external_body]
pub struct ExInstant(Instant);

/// When the application started, and how long it has run since.
pub struct Time {
    start_time: Instant,
    elapsed: Duration,
}

impl Time {
    /// The instant the time was started at.
    pub closed spec fn spec_start_time(&self) -> Instant {
        self.start_time
    }

    /// The time elapsed since the start.
    pub closed spec fn spec_elapsed(&self) -> Duration {
        self.elapsed
    }

    pub fn new(start_time: Instant, elapsed: Duration) -> (t: Self)
        ensures
            t.spec_start_time() == start_time,
            t.spec_elapsed() == elapsed,
    {
        Time { start_time, elapsed }
    }

    pub fn start_time(&self) -> (r: Instant)
        ensures
            r == self.spec_start_time(),
    {
        self.start_time
    }

    pub fn elapsed(&self) -> (r: Duration)
        ensures
            r == self.spec_elapsed(),
    {
        self.elapsed
    }
}

} // verus!
