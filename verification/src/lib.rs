//! Deterministic benchmark tasks built around a verified JSON round-trip
//! engine: a seeded record generator, a compact serializer, a
//! recursive-descent parser, and an FNV-1a verification hash.
//!
//! Every task reduces its output to a single 32-bit hash so that
//! independently built implementations can be cross-checked by comparing
//! hashes for identical inputs.

pub mod fnv;
pub mod json_parse;
pub mod lcg;
pub mod mandelbrot;
pub mod matrix_mul;
