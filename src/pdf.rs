use vstd::prelude::*;

verus! {

/// The density that is uniform over all directions of the unit sphere.
///
/// It carries no state: its density is the constant `1 / (4 pi)` and its
/// samples are uniformly random unit vectors.
#[derive(Debug, Clone, Copy, PartialEq, Eq)]
pub struct SpherePDF {}

impl SpherePDF {
    pub fn new() -> (r: Self)
        ensures
            r == (SpherePDF {}),
    {
        SpherePDF {}
    }
}

} // verus!
