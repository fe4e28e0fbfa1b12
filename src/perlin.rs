//! The random permutation tables of Perlin noise and the hash that picks a
//! gradient for a lattice point.

use vstd::prelude::*;
use crate::random::random_below;

verus! {

/// The number of entries of each table.
pub const PERLIN_LUT_LENGTH: usize = 256;

/// `p` holds every index below `PERLIN_LUT_LENGTH` exactly once.
pub open spec fn is_lut_permutation(p: Seq<usize>) -> bool {
    &&& p.len() == PERLIN_LUT_LENGTH
    &&& forall|k: int| 0 <= k < p.len() ==> #[trigger] p[k] < PERLIN_LUT_LENGTH
    &&& forall|a: int, b: int| 0 <= a < b < p.len() ==> #[trigger] p[a] != #[trigger] p[b]
}

/// Shuffles `p` in place: from the last position down to position 1, the
/// entry at `i` is swapped with one at a random position below `i`.
fn do_permute(p: &mut Vec<usize>)
    requires
        is_lut_permutation(old(p)@),
    ensures
        is_lut_permutation(final(p)@),
{
    let mut i: usize = p.len() - 1;
    while i >= 1
        invariant
            is_lut_permutation(p@),
            i < p.len(),
        decreases i,
    {
        let j = random_below(i);
        let a = p[i];
        let b = p[j];
        p.set(i, b);
        p.set(j, a);
        i = i - 1;
    }
}

/// A random permutation of `0..PERLIN_LUT_LENGTH`.
pub fn generate_permutation() -> (p: Vec<usize>)
    ensures
        is_lut_permutation(p@),
{
    let mut p: Vec<usize> = Vec::new();
    let mut i: usize = 0;
    while i < PERLIN_LUT_LENGTH
        invariant
            i <= PERLIN_LUT_LENGTH,
            p.len() == i,
            forall|k: int| 0 <= k < i ==> p[k] == k,
        decreases PERLIN_LUT_LENGTH - i,
    {
        p.push(i);
        i = i + 1;
    }
    do_permute(&mut p);
    p
}

/// The table position of a lattice coordinate: its low eight bits.
pub open spec fn wrap_index(i: i32) -> int {
    (i & 255i32) as int
}

/// The gradient index of lattice point `(i, j, k)`: the exclusive or of the
/// three tables' entries at the points' wrapped coordinates.
pub fn lattice_index(
    x_permutation: &Vec<usize>,
    y_permutation: &Vec<usize>,
    z_permutation: &Vec<usize>,
    i: i32,
    j: i32,
    k: i32,
) -> (r: usize)
    requires
        is_lut_permutation(x_permutation@),
        is_lut_permutation(y_permutation@),
        is_lut_permutation(z_permutation@),
    ensures
        0 <= wrap_index(i) < 256,
        0 <= wrap_index(j) < 256,
        0 <= wrap_index(k) < 256,
        r == x_permutation@[wrap_index(i)] ^ y_permutation@[wrap_index(j)]
            ^ z_permutation@[wrap_index(k)],
        r < PERLIN_LUT_LENGTH,
{
    assert(0 <= (i & 255i32) <= 255) by (bit_vector);
    assert(0 <= (j & 255i32) <= 255) by (bit_vector);
    assert(0 <= (k & 255i32) <= 255) by (bit_vector);
    let a = x_permutation[(i & 255) as usize];
    let b = y_permutation[(j & 255) as usize];
    let c = z_permutation[(k & 255) as usize];
    assert((a ^ b ^ c) < 256) by (bit_vector)
        requires
            a < 256,
            b < 256,
            c < 256,
    ;
    a ^ b ^ c
}

} // verus!
