//! Parameter record and limits for the matrix multiplication task.

use vstd::prelude::*;

verus! {

/// Parameters of one matrix multiplication run: the size of the square
/// matrices and the seed for reproducible generation.
#[derive(Clone, Copy, Debug)]
pub struct MatrixMulParams {
    pub dimension: u32,
    pub seed: u32,
}

/// Largest accepted matrix dimension.
pub const MAX_MATRIX_DIMENSION: u32 = 2000;

/// Largest accepted allocation request, in bytes.
pub const MAX_ALLOCATION_SIZE: u32 = 1073741824;

} // verus!
