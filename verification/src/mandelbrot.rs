//! Shared pieces of the Mandelbrot benchmark task: the FNV-1a hash over
//! the per-pixel iteration counts.

pub mod hash;
