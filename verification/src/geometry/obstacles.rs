use vstd::prelude::*;

verus! {

/// A set of obstacles in a space whose points are of type `V`.
pub trait ObstaclesEnv<V> {
    /// Whether `a` lies inside the obstacles.
    fn contains(&self, a: V) -> bool;

    /// Whether `b` can be seen from `a`.
    fn visible(&self, a: V, b: V) -> bool;
}

} // verus!
