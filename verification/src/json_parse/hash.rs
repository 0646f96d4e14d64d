//! FNV-1a verification hash over record sequences: for each record in
//! order, fold in `id` (4 little-endian bytes), `value` (4 little-endian
//! bytes), `flag` (one byte, 1 for true), then every byte of `name`.

use crate::fnv::{fnv_bytes, fnv_offset_basis, lemma_fnv_bytes_concat, lemma_fnv_bytes_one,
    u32_le_bytes};
use crate::json_parse::types::{i32_to_u32, reinterpret_unsigned, seq_models, JsonRecord,
    RecordModel};
use crate::mandelbrot::hash::{fnv_fold_exec, lemma_fnv_fold_le4};
use vstd::prelude::*;

verus! {

/// The byte stream hashed for one record.
pub open spec fn record_hash_bytes(m: RecordModel) -> Seq<u8> {
    u32_le_bytes(m.id) + u32_le_bytes(i32_to_u32(m.value)) + seq![
        if m.flag {
            1u8
        } else {
            0u8
        },
    ] + m.name
}

/// The byte stream hashed for a record sequence.
pub open spec fn records_hash_input(ms: Seq<RecordModel>) -> Seq<u8>
    decreases ms.len(),
{
    if ms.len() == 0 {
        Seq::empty()
    } else {
        records_hash_input(ms.drop_last()) + record_hash_bytes(ms.last())
    }
}

/// The verification hash of a record sequence: a pure function of the
/// records' field values alone.
pub open spec fn spec_hash_records(ms: Seq<RecordModel>) -> u32 {
    fnv_bytes(fnv_offset_basis(), records_hash_input(ms))
}

/// FNV-1a hash of the records' field values, in sequence order; an empty
/// sequence hashes to the offset basis 2166136261.
pub fn fnv1a_hash_records(records: &[JsonRecord]) -> (h: u32)
    ensures
        h == spec_hash_records(seq_models(records@)),
        records@.len() == 0 ==> h == 2166136261u32,
{
    let ghost ms = seq_models(records@);
    let mut hash: u32 = 2166136261;
    let n = records.len();
    let mut i: usize = 0;
    while i < n
        invariant
            i <= n,
            n == records@.len(),
            ms == seq_models(records@),
            hash == fnv_bytes(fnv_offset_basis(), records_hash_input(ms.take(i as int))),
        decreases n - i,
    {
        let ghost pre = ms.take(i as int);
        let h0 = hash;
        hash = hash_one_record(hash, &records[i]);
        proof {
            assert(records@[i as int]@ == ms[i as int]);
            lemma_fnv_bytes_concat(
                fnv_offset_basis(),
                records_hash_input(pre),
                record_hash_bytes(ms[i as int]),
            );
            assert(ms.take(i + 1).drop_last() =~= pre);
            assert(ms.take(i + 1).last() == ms[i as int]);
        }
        i = i + 1;
    }
    proof {
        assert(ms.take(n as int) =~= ms);
    }
    hash
}

/// Fold one record's bytes into the accumulator.
fn hash_one_record(h: u32, r: &JsonRecord) -> (h2: u32)
    ensures
        h2 == fnv_bytes(h, record_hash_bytes(r@)),
{
    let ghost m = r@;
    let ha = hash_word(h, r.id);
    let u = reinterpret_unsigned(r.value);
    let hb = hash_word(ha, u);
    let flag_byte: u8 = if r.flag {
        1
    } else {
        0
    };
    let hc = fnv_fold_exec(hb, flag_byte);
    proof {
        lemma_fnv_bytes_one(hb, flag_byte);
    }

    let nb = r.name.as_str().as_bytes();
    let nlen = nb.len();
    let mut k: usize = 0;
    let mut hd = hc;
    while k < nlen
        invariant
            k <= nlen,
            nlen == nb@.len(),
            nb@ == m.name,
            hd == fnv_bytes(hc, nb@.take(k as int)),
        decreases nlen - k,
    {
        let ghost pre = nb@.take(k as int);
        let b = nb[k];
        hd = fnv_fold_exec(hd, b);
        proof {
            lemma_fnv_bytes_concat(hc, pre, seq![b]);
            lemma_fnv_bytes_one(fnv_bytes(hc, pre), b);
            assert(nb@.take(k + 1) =~= pre + seq![b]);
        }
        k = k + 1;
    }
    proof {
        assert(nb@.take(nlen as int) =~= nb@);
        lemma_fnv_bytes_concat(h, u32_le_bytes(m.id), u32_le_bytes(i32_to_u32(m.value)));
        lemma_fnv_bytes_concat(
            h,
            u32_le_bytes(m.id) + u32_le_bytes(i32_to_u32(m.value)),
            seq![flag_byte],
        );
        lemma_fnv_bytes_concat(
            h,
            u32_le_bytes(m.id) + u32_le_bytes(i32_to_u32(m.value)) + seq![flag_byte],
            m.name,
        );
    }
    hd
}

/// Fold the four little-endian bytes of one word into the accumulator.
fn hash_word(h: u32, w: u32) -> (h2: u32)
    ensures
        h2 == fnv_bytes(h, u32_le_bytes(w)),
{
    let h1 = fnv_fold_exec(h, (w % 256) as u8);
    let h2 = fnv_fold_exec(h1, ((w / 256) % 256) as u8);
    let h3 = fnv_fold_exec(h2, ((w / 65536) % 256) as u8);
    let h4 = fnv_fold_exec(h3, ((w / 16777216) % 256) as u8);
    proof {
        lemma_fnv_fold_le4(h, w);
    }
    h4
}

} // verus!
