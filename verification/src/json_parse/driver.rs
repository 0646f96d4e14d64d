//! The JSON task driver: generate records from the count and seed,
//! serialize them, parse the text back, and hash the parsed records. The
//! round trip deliberately exercises the serializer and the parser
//! against each other; a parse failure collapses to the sentinel 0.

use crate::json_parse::generator::{gen_models, generate_json_records};
use crate::json_parse::hash::{fnv1a_hash_records, spec_hash_records};
use crate::json_parse::parser::parse_json_string;
use crate::json_parse::roundtrip::{lemma_gen_models_wf, lemma_serialize_parse_round_trip};
use crate::json_parse::serializer::serialize_to_json;
use vstd::prelude::*;

verus! {

/// Run the whole round trip for `record_count` records from `seed`.
/// Whenever every generated id fits the signed 32-bit range the number
/// parser accepts, the parse cannot fail and the result is exactly the
/// verification hash of the generated records.
pub fn run_round_trip_task(record_count: u32, seed: u32) -> (h: u32)
    ensures
        record_count <= 0x7FFFFFFF ==> h == spec_hash_records(
            gen_models(record_count as nat, seed),
        ),
{
    let records = generate_json_records(record_count as usize, seed);
    let json = serialize_to_json(records.as_slice());
    proof {
        if record_count <= 0x7FFFFFFF {
            lemma_gen_models_wf(record_count as nat, seed);
            lemma_serialize_parse_round_trip(gen_models(record_count as nat, seed));
        }
    }
    let parsed = match parse_json_string(json.as_str()) {
        Ok(p) => p,
        Err(_) => {
            return 0;
        },
    };
    fnv1a_hash_records(parsed.as_slice())
}

} // verus!
