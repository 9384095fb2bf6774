use vstd::prelude::*;
use std::time::Instant;

verus! {

/// `std::time::Instant`, held as an opaque value.
#[verifier::external_type_specification]
#[verifier::external_body]
pub struct ExInstant(Instant);

/// The current time, as `Instant::now` reads it from the system clock. Nothing is claimed of
/// the value: it rests on the clock.
#[verifier::external_body]
fn instant_now() -> Instant {
    Instant::now()
}

/// Whether `a` comes after `b`, as `Instant`'s `>` says. Nothing is claimed of the answer:
/// `Instant` is opaque here, with no plain value for a contract to speak of.
#[verifier::external_body]
fn instant_after(a: &Instant, b: &Instant) -> bool {
    *a > *b
}

/// Decides when a sampling heuristic stops.
pub trait ExecutionManager {
    /// Whether to stop after `nb_samples` samples; unless a manager says otherwise, never.
    fn must_stop(&self, nb_samples: usize) -> (r: bool)
        default_ensures
            !r,
    {
        false
    }
}

/// Stops once the given time has passed.
pub struct ContinueUntil(pub Instant);

impl ExecutionManager for ContinueUntil {
    /// Whether the clock now reads later than the deadline; the answer rests on the clock.
    fn must_stop(&self, nb_samples: usize) -> bool {
        let now = instant_now();
        instant_after(&now, &self.0)
    }
}

/// Stops once more than the given number of samples were taken.
#[derive(Clone, Copy, Debug)]
pub struct SampleNTimes(pub usize);

impl ExecutionManager for SampleNTimes {
    /// Whether more than `self.0` samples were taken.
    fn must_stop(&self, nb_samples: usize) -> (r: bool)
        ensures
            r == (nb_samples > self.0),
    {
        nb_samples > self.0
    }
}

} // verus!
