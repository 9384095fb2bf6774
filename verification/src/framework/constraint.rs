use vstd::prelude::*;

verus! {

/// Two constraints whose fitnesses are added.
#[derive(Clone, Copy, Debug)]
pub struct FitnessAdd<A, B>(pub A, pub B);

} // verus!
