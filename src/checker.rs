//! The pattern of a checker texture: space is cut into unit cubes (after
//! scaling), and a cube is even when the sum of its integer coordinates is.

use vstd::prelude::*;

verus! {

/// Whether the cube with integer coordinates `(x, y, z)` takes the even texture.
pub fn checker_is_even(x: i32, y: i32, z: i32) -> (r: bool)
    ensures
        r == ((x + y + z) % 2 == 0),
{
    let sum = x as i64 + y as i64 + z as i64;
    sum % 2 == 0
}

} // verus!
