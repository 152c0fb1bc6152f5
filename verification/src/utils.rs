//! A scoped timer around each outbound call: it records the moment a
//! measured call began and the label to report it under.  The caller
//! reads the elapsed time off the recorded start when the call ends.

use vstd::prelude::*;

verus! {

#[verifier::external_type_specification]
#[verifier::external_body]
pub struct ExInstant(std::time::Instant);

/// Relies on std::time::Instant::now: an opaque reading of the
/// monotonic clock.
#[verifier::external_body]
fn instant_now() -> (r: std::time::Instant) {
    std::time::Instant::now()
}

/// The start of one measured call, with its label.
pub struct Timing {
    pub start: std::time::Instant,
    pub identifier: &'static str,
}

impl Timing {
    /// Begin timing the call that `identifier` names.
    pub fn new(identifier: &'static str) -> (r: Timing)
        ensures
            r.identifier == identifier,
    {
        Timing { start: instant_now(), identifier }
    }

    pub fn start(&self) -> (r: &std::time::Instant)
        ensures
            *r == self.start,
    {
        &self.start
    }
}

} // verus!
