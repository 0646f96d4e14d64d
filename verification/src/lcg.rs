//! Model of the linear congruential generator shared by the benchmark
//! tasks: `state * 1664525 + 1013904223 (mod 2^32)`, with the updated
//! state doubling as the drawn value.

use vstd::prelude::*;

verus! {

/// One step of the generator: the next state (and drawn value) after `s`.
pub open spec fn lcg_next(s: u32) -> u32 {
    s.wrapping_mul(1664525).wrapping_add(1013904223)
}

/// The generator state after `n` draws starting from `seed`.
pub open spec fn lcg_iter(seed: u32, n: nat) -> u32
    decreases n,
{
    if n == 0 {
        seed
    } else {
        lcg_next(lcg_iter(seed, (n - 1) as nat))
    }
}

} // verus!
