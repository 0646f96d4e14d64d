//! The JSON round-trip benchmark task: generate a deterministic record
//! sequence from a seed, serialize it to a compact JSON text, parse the
//! text back, and hash the parsed records.

pub mod driver;
pub mod generator;
pub mod hash;
pub mod parser;
pub mod roundtrip;
pub mod serializer;
pub mod text;
pub mod types;
