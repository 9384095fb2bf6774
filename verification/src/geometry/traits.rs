use vstd::prelude::*;

verus! {

/// A type with a zero value.
pub trait Zero {
    const ZERO: Self;
}

impl Zero for usize {
    const ZERO: usize = 0;
}

/// A marker for number types that stand for real numbers.
pub trait RealLike {
}

/// A vector space over `K`: values that can be added and subtracted, with a zero.
pub trait VectorSpace<K>: core::ops::Add<Output = Self> + core::ops::Sub<Output = Self> + Zero + Sized {
}

} // verus!
