//! Stratified sampling of a pixel.
//!
//! A pixel is divided into an `n` by `n` grid of sub-cells with
//! `n = floor(sqrt(samples_per_pixel))`, and one jittered sample is taken in
//! each cell.

use vstd::prelude::*;

verus! {

/// The side `n` of the sub-pixel grid: the largest `n` with `n * n` not above
/// `samples_per_pixel`.
pub fn samples_per_side(samples_per_pixel: u32) -> (n: u32)
    ensures
        n * n <= samples_per_pixel,
        samples_per_pixel < (n + 1) * (n + 1),
{
    let target = samples_per_pixel as u64;
    let mut n: u64 = 0;
    loop
        invariant
            n * n <= target,
            target <= u32::MAX,
            n <= 65535,
        ensures
            n * n <= target < (n + 1) * (n + 1),
            n <= 65535,
        decreases target - n,
    {
        let next = n + 1;
        assert(next * next <= 65536 * 65536) by (nonlinear_arith)
            requires
                next <= 65536,
        ;
        if next * next > target {
            break;
        }
        assert(next <= next * next) by (nonlinear_arith)
            requires
                next >= 1,
        ;
        assert(next <= 65535) by {
            if next >= 65536 {
                assert(next * next >= 65536 * 65536) by (nonlinear_arith)
                    requires
                        next >= 65536,
                ;
            }
        }
        n = next;
    }
    n as u32
}

} // verus!
