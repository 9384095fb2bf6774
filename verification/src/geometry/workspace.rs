use vstd::prelude::*;

verus! {

/// The Euclidean norm, `sqrt(sum x^2)`, L_2.
#[derive(Clone, Copy, Debug)]
pub struct EuclidianDistance;

/// The Manhattan norm, `sum |x|`, L_1.
#[derive(Clone, Copy, Debug)]
pub struct ManathannDistance;

/// The Chebyshev norm, `max |x|`, L_inf.
#[derive(Clone, Copy, Debug)]
pub struct TchebychevDistance;

} // verus!
