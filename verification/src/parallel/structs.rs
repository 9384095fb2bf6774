use vstd::prelude::*;

verus! {

/// The counts handed to the visibility shaders, laid out as four `u32`.
#[derive(Clone, Copy, Debug, PartialEq, Eq)]
pub struct GpuPolyBounds {
    pub nb_segs: u32,
    pub nb_pts: u32,
    pub nb_edges_estimated: u32,
    pub _pad: u32,
}

} // verus!
