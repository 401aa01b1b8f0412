//! A labelled stopwatch: records its start instant on creation, so that the
//! caller can report how long a block of work took.

use vstd::prelude::*;

verus! {

#[verifier::external_type_specification]
#[verifier::external_body]
pub struct ExInstant(std::time::Instant);

/// Relies on std::time::Instant::now: an opaque measurement of the monotonic
/// clock. Nothing is promised of its value.
pub assume_specification[ std::time::Instant::now ]() -> (r: std::time::Instant)
;

/// A label together with the instant it was created.
pub struct Timer {
    pub title: &'static str,
    pub time: std::time::Instant,
}

impl Timer {
    /// Starts a timer with the given label.
    pub fn new(title: &'static str) -> (t: Timer)
        ensures
            t.title@ == title@,
    {
        let start: std::time::Instant = std::time::Instant::now();
        Timer { title, time: start }
    }
}

} // verus!
