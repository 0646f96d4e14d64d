//! Shared pieces of the matrix multiplication benchmark task: its
//! parameter record, parameter validation, and the seeded generator the
//! task draws its matrix entries from.

pub mod generation;
pub mod types;
pub mod validation;
