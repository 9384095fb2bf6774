pub mod constraint;

use vstd::prelude::*;

verus! {

/// The sizes that drive a run of the genetic algorithm.
#[derive(Clone, Copy, Debug)]
pub struct GaSettings {
    pub nb_generations: usize,
    pub population_size: usize,
    pub drain_size: usize,
}

} // verus!
