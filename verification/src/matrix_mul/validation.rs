//! Parameter validation for the matrix multiplication task.

use crate::matrix_mul::types::{MatrixMulParams, MAX_MATRIX_DIMENSION};
use vstd::prelude::*;

verus! {

/// Accept exactly the dimensions from 1 to `MAX_MATRIX_DIMENSION`; any
/// seed is valid. Within that range the three `dimension * dimension * 4`
/// byte matrices always fit the 256 MiB budget, so the memory checks
/// below never reject on their own.
pub fn validate_parameters(params: &MatrixMulParams) -> (ok: bool)
    ensures
        ok == (1 <= params.dimension <= MAX_MATRIX_DIMENSION),
{
    if params.dimension == 0 {
        return false;
    }
    if params.dimension > MAX_MATRIX_DIMENSION {
        return false;
    }
    assert(params.dimension * params.dimension <= 2000 * 2000) by (nonlinear_arith)
        requires
            params.dimension <= 2000,
    ;
    if let Some(elements) = params.dimension.checked_mul(params.dimension) {
        if let Some(bytes_per_matrix) = elements.checked_mul(4) {
            if let Some(total_bytes) = bytes_per_matrix.checked_mul(3) {
                if total_bytes > 256 * 1024 * 1024 {
                    return false;
                }
            } else {
                return false;
            }
        } else {
            return false;
        }
    } else {
        return false;
    }
    true
}

} // verus!
