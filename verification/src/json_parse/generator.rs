//! Deterministic record generation: record `i` (1-indexed) has `id == i`,
//! a `value` drawn from the seeded generator and reinterpreted as signed,
//! `flag` true exactly when `value` is even, and `name == "a" + decimal(i)`.

use crate::lcg::{lcg_iter, lcg_next};
use vstd::prelude::*;
use vstd::arithmetic::div_mod::lemma_mod_multiples_vanish;

use crate::json_parse::text::{all_ascii, bytes_to_string, dec_bytes, lemma_ascii_encode_decode,
    lemma_dec_bytes_digits, write_u32_decimal};
use crate::json_parse::types::{u32_to_i32, JsonRecord, RecordModel, seq_models, LCG_INCREMENT,
    LCG_MULTIPLIER};

verus! {

/// The raw generator word drawn for record `i` (0-indexed).
pub open spec fn gen_raw(seed: u32, i: nat) -> u32 {
    lcg_iter(seed, i + 1)
}

/// The model of generated record `i` (0-indexed): a pure function of the
/// seed and the index alone.
pub open spec fn gen_model(seed: u32, i: nat) -> RecordModel {
    let value = u32_to_i32(gen_raw(seed, i));
    RecordModel {
        id: (i + 1) as u32,
        value: value,
        flag: value % 2 == 0,
        name: seq![0x61u8] + dec_bytes(i + 1),
    }
}

/// The models of the full generated sequence.
pub open spec fn gen_models(count: nat, seed: u32) -> Seq<RecordModel> {
    Seq::new(count, |i: int| gen_model(seed, i as nat))
}

/// Generation is deterministic and field-exact: the result is pinned, field
/// by field, to `gen_models(count, seed)`, so two runs with the same count
/// and seed agree on every record. Record `k` (0-indexed) has id `k + 1`,
/// name `a` followed by the decimal of `k + 1`, and its flag set exactly
/// when its value is even.
pub fn generate_json_records(count: usize, seed: u32) -> (r: Vec<JsonRecord>)
    requires
        count <= u32::MAX,
    ensures
        r@.len() == count,
        seq_models(r@) == gen_models(count as nat, seed),
        forall|k: int| 0 <= k < count ==> (#[trigger] r@[k])@.id == k + 1,
        forall|k: int|
            0 <= k < count ==> (#[trigger] r@[k])@.name == seq![0x61u8] + dec_bytes((k + 1) as nat),
        forall|k: int| 0 <= k < count ==> (#[trigger] r@[k])@.flag == (r@[k]@.value % 2 == 0),
{
    let mut records: Vec<JsonRecord> = Vec::new();
    let mut rng_state: u32 = seed;
    let mut i: usize = 0;
    while i < count
        invariant
            i <= count,
            count <= u32::MAX,
            rng_state == lcg_iter(seed, i as nat),
            records@.len() == i,
            forall|k: int| 0 <= k < i ==> #[trigger] records@[k]@ == gen_model(seed, k as nat),
        decreases count - i,
    {
        let record = make_record(Ghost(seed), Ghost(i as nat), &mut rng_state, i);
        records.push(record);
        i = i + 1;
    }
    proof {
        assert(seq_models(records@) =~= gen_models(count as nat, seed));
    }
    records
}

/// Build generated record `i` (0-indexed), drawing one generator value.
fn make_record(seed: Ghost<u32>, n: Ghost<nat>, rng_state: &mut u32, i: usize) -> (r: JsonRecord)
    requires
        i < u32::MAX,
        i == n@,
        *old(rng_state) == lcg_iter(seed@, n@),
    ensures
        *final(rng_state) == lcg_iter(seed@, n@ + 1),
        r@ == gen_model(seed@, n@),
{
    let raw = linear_congruential_generator(rng_state);
    let random_value = reinterpret_signed(raw);
    let flag = (raw & 1) == 0;
    proof {
        lemma_flag_parity(raw);
    }

    let mut name_bytes: Vec<u8> = Vec::new();
    name_bytes.push(0x61);
    write_u32_decimal(&mut name_bytes, (i + 1) as u32);
    proof {
        lemma_dec_bytes_digits((i + 1) as nat);
        assert(name_bytes@ =~= seq![0x61u8] + dec_bytes((i + 1) as nat));
        assert(all_ascii(name_bytes@));
        lemma_ascii_encode_decode(name_bytes@);
    }
    let ghost nb = name_bytes@;
    let name = match bytes_to_string(name_bytes) {
        Some(s) => s,
        None => {
            proof {
                assert(false);
            }
            String::new()
        },
    };

    let r = JsonRecord { id: (i + 1) as u32, value: random_value, flag: flag, name: name };
    proof {
        assert(r@.name == nb);
    }
    r
}

/// Advance the generator state in place and return the new state.
pub fn linear_congruential_generator(seed: &mut u32) -> (r: u32)
    ensures
        *final(seed) == lcg_next(*old(seed)),
        r == *final(seed),
{
    *seed = (*seed).wrapping_mul(LCG_MULTIPLIER).wrapping_add(LCG_INCREMENT);
    *seed
}

/// Reinterpret the low 32 bits of a generator word as a signed value.
fn reinterpret_signed(u: u32) -> (v: i32)
    ensures
        v == u32_to_i32(u),
{
    if u < 0x80000000 {
        u as i32
    } else {
        ((u as i64) - 0x100000000) as i32
    }
}

/// The low bit of the raw word decides the parity of the signed value.
proof fn lemma_flag_parity(raw: u32)
    ensures
        ((raw & 1) == 0) == (u32_to_i32(raw) % 2 == 0),
{
    assert(((raw & 1) == 0) == (raw % 2 == 0)) by (bit_vector);
    if raw >= 0x80000000 {
        lemma_mod_multiples_vanish(-0x80000000, raw as int, 2);
        assert(2 * (-0x80000000) + raw == raw - 0x100000000);
    }
}

} // verus!
