//! The seeded generator behind matrix entry generation. The conversion of
//! generator words to floating-point entries, and the matrices themselves,
//! live outside the verified core.

use crate::lcg::lcg_next;
use vstd::prelude::*;

verus! {

/// Advance the generator state in place and return the new state.
pub fn linear_congruential_generator(seed: &mut u32) -> (r: u32)
    ensures
        *final(seed) == lcg_next(*old(seed)),
        r == *final(seed),
{
    *seed = (*seed).wrapping_mul(1664525).wrapping_add(1013904223);
    *seed
}

} // verus!
