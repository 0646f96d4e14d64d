//! Compact JSON serialization of record sequences, and the byte-exact
//! model of the wire format: `[` then each record as
//! `{"id":<uint>,"value":<int>,"flag":<true|false>,"name":"<name>"}`
//! joined by `,` with no other separators, then `]`.

use crate::json_parse::text::{all_ascii, bytes_to_string, dec_bytes, lemma_ascii_decode,
    lemma_dec_bytes_digits, write_u32_decimal};
use crate::json_parse::types::{seq_models, JsonRecord, RecordModel};
use vstd::prelude::*;
use vstd::utf8::{decode_utf8_encode_utf8, encode_utf8, valid_utf8, valid_utf8_concat};

verus! {

/// The bytes of `{"id":`.
pub open spec fn lit_open_id() -> Seq<u8> {
    seq![0x7Bu8, 0x22, 0x69, 0x64, 0x22, 0x3A]
}

/// The bytes of `,"value":`.
pub open spec fn lit_value() -> Seq<u8> {
    seq![0x2Cu8, 0x22, 0x76, 0x61, 0x6C, 0x75, 0x65, 0x22, 0x3A]
}

/// The bytes of `,"flag":`.
pub open spec fn lit_flag() -> Seq<u8> {
    seq![0x2Cu8, 0x22, 0x66, 0x6C, 0x61, 0x67, 0x22, 0x3A]
}

/// The bytes of `,"name":"`.
pub open spec fn lit_name() -> Seq<u8> {
    seq![0x2Cu8, 0x22, 0x6E, 0x61, 0x6D, 0x65, 0x22, 0x3A, 0x22]
}

/// The bytes of `"}`.
pub open spec fn lit_close() -> Seq<u8> {
    seq![0x22u8, 0x7D]
}

/// The bytes of `true` or `false`.
pub open spec fn bool_bytes(b: bool) -> Seq<u8> {
    if b {
        seq![0x74u8, 0x72, 0x75, 0x65]
    } else {
        seq![0x66u8, 0x61, 0x6C, 0x73, 0x65]
    }
}

/// The decimal rendering of a signed value: a leading `-` for negative
/// values, plain digits otherwise.
pub open spec fn int_bytes(v: int) -> Seq<u8> {
    if v < 0 {
        seq![0x2Du8] + dec_bytes((-v) as nat)
    } else {
        dec_bytes(v as nat)
    }
}

/// The serialized bytes of one record.
pub open spec fn record_bytes(m: RecordModel) -> Seq<u8> {
    lit_open_id() + dec_bytes(m.id as nat) + lit_value() + int_bytes(m.value as int) + lit_flag()
        + bool_bytes(m.flag) + lit_name() + m.name + lit_close()
}

/// The serialized records joined by commas.
pub open spec fn joined(ms: Seq<RecordModel>) -> Seq<u8>
    decreases ms.len(),
{
    if ms.len() == 0 {
        Seq::empty()
    } else if ms.len() == 1 {
        record_bytes(ms[0])
    } else {
        record_bytes(ms[0]) + seq![0x2Cu8] + joined(ms.drop_first())
    }
}

/// The full serialized form: `[`, the joined records, `]`. An empty
/// sequence yields exactly the two bytes `[]`.
pub open spec fn records_bytes(ms: Seq<RecordModel>) -> Seq<u8> {
    seq![0x5Bu8] + joined(ms) + seq![0x5Du8]
}

/// Appending one record to a joined rendering appends a comma (when the
/// rendering is not empty) and the record's bytes.
pub proof fn lemma_joined_push(ms: Seq<RecordModel>, m: RecordModel)
    ensures
        ms.len() == 0 ==> joined(ms.push(m)) == record_bytes(m),
        ms.len() > 0 ==> joined(ms.push(m)) == joined(ms) + seq![0x2Cu8] + record_bytes(m),
    decreases ms.len(),
{
    if ms.len() == 0 {
        assert(ms.push(m)[0] == m);
    } else {
        lemma_joined_push(ms.drop_first(), m);
        assert(ms.push(m).drop_first() =~= ms.drop_first().push(m));
        assert(joined(ms.push(m)) =~= joined(ms) + seq![0x2Cu8] + record_bytes(m));
    }
}

/// The serialized bytes of a record are valid UTF-8 when its name is.
pub proof fn lemma_record_bytes_valid(m: RecordModel)
    requires
        valid_utf8(m.name),
    ensures
        valid_utf8(record_bytes(m)),
{
    lemma_dec_bytes_digits(m.id as nat);
    lemma_dec_bytes_digits((-(m.value as int)) as nat);
    lemma_dec_bytes_digits((m.value as int) as nat);
    assert(all_ascii(lit_open_id() + dec_bytes(m.id as nat) + lit_value() + int_bytes(
        m.value as int,
    ) + lit_flag() + bool_bytes(m.flag) + lit_name()));
    let prefix = lit_open_id() + dec_bytes(m.id as nat) + lit_value() + int_bytes(m.value as int)
        + lit_flag() + bool_bytes(m.flag) + lit_name();
    lemma_ascii_decode(prefix);
    lemma_ascii_decode(lit_close());
    valid_utf8_concat(m.name, lit_close());
    valid_utf8_concat(prefix, m.name + lit_close());
    assert(record_bytes(m) =~= prefix + (m.name + lit_close()));
}

/// The full serialized form is valid UTF-8 when every name is.
pub proof fn lemma_records_bytes_valid(ms: Seq<RecordModel>)
    requires
        forall|i: int| 0 <= i < ms.len() ==> valid_utf8(#[trigger] ms[i].name),
    ensures
        valid_utf8(records_bytes(ms)),
{
    lemma_joined_valid(ms);
    lemma_ascii_decode(seq![0x5Bu8]);
    lemma_ascii_decode(seq![0x5Du8]);
    valid_utf8_concat(joined(ms), seq![0x5Du8]);
    valid_utf8_concat(seq![0x5Bu8], joined(ms) + seq![0x5Du8]);
    assert(records_bytes(ms) =~= seq![0x5Bu8] + (joined(ms) + seq![0x5Du8]));
}

proof fn lemma_joined_valid(ms: Seq<RecordModel>)
    requires
        forall|i: int| 0 <= i < ms.len() ==> valid_utf8(#[trigger] ms[i].name),
    ensures
        valid_utf8(joined(ms)),
    decreases ms.len(),
{
    if ms.len() == 0 {
    } else if ms.len() == 1 {
        lemma_record_bytes_valid(ms[0]);
    } else {
        lemma_record_bytes_valid(ms[0]);
        lemma_joined_valid(ms.drop_first());
        lemma_ascii_decode(seq![0x2Cu8]);
        valid_utf8_concat(seq![0x2Cu8], joined(ms.drop_first()));
        valid_utf8_concat(record_bytes(ms[0]), seq![0x2Cu8] + joined(ms.drop_first()));
        assert(joined(ms) =~= record_bytes(ms[0]) + (seq![0x2Cu8] + joined(ms.drop_first())));
    }
}

/// Serialize the records to their exact wire form: the text's UTF-8 bytes
/// are `records_bytes` of the records' models, so empty input yields
/// exactly `[]` and any two runs on equal records yield identical text.
pub fn serialize_to_json(records: &[JsonRecord]) -> (s: String)
    ensures
        encode_utf8(s@) == records_bytes(seq_models(records@)),
{
    let ghost ms = seq_models(records@);
    let mut out: Vec<u8> = Vec::new();
    out.push(0x5B);
    let n = records.len();
    let mut i: usize = 0;
    while i < n
        invariant
            i <= n,
            n == records@.len(),
            ms == seq_models(records@),
            out@ == seq![0x5Bu8] + joined(ms.take(i as int)),
        decreases n - i,
    {
        let ghost pre = out@;
        if i > 0 {
            out.push(0x2C);
        }
        push_record(&mut out, &records[i]);
        proof {
            assert(records@[i as int]@ == ms[i as int]);
            lemma_joined_push(ms.take(i as int), ms[i as int]);
            assert(ms.take(i as int).push(ms[i as int]) =~= ms.take(i + 1));
            assert(out@ =~= seq![0x5Bu8] + joined(ms.take(i + 1)));
        }
        i = i + 1;
    }
    out.push(0x5D);
    proof {
        assert(ms.take(n as int) =~= ms);
        assert(out@ =~= records_bytes(ms));
        assert forall|k: int| 0 <= k < ms.len() implies valid_utf8(#[trigger] ms[k].name) by {
            assert(ms[k] == records@[k]@);
            vstd::utf8::encode_utf8_valid_utf8(records@[k].name@);
        }
        lemma_records_bytes_valid(ms);
    }
    let ghost ob = out@;
    let s = match bytes_to_string(out) {
        Some(s) => s,
        None => {
            proof {
                assert(false);
            }
            String::new()
        },
    };
    proof {
        decode_utf8_encode_utf8(ob);
    }
    s
}

/// Append one record's serialized bytes.
fn push_record(out: &mut Vec<u8>, r: &JsonRecord)
    ensures
        final(out)@ == old(out)@ + record_bytes(r@),
{
    let ghost s0 = old(out)@;
    push_lit_open_id(out);
    write_u32_decimal(out, r.id);
    let ghost s2 = s0 + lit_open_id() + dec_bytes(r.id as nat);
    assert(out@ =~= s2);
    push_lit_value(out);
    write_i32_decimal(out, r.value);
    let ghost s4 = s2 + lit_value() + int_bytes(r.value as int);
    assert(out@ =~= s4);
    push_lit_flag(out);
    push_bool(out, r.flag);
    let ghost s6 = s4 + lit_flag() + bool_bytes(r.flag);
    assert(out@ =~= s6);
    push_lit_name(out);
    push_name_bytes(out, r);
    let ghost s8 = s6 + lit_name() + r@.name;
    assert(out@ =~= s8);
    out.push(0x22);
    out.push(0x7D);
    assert(out@ =~= s8 + lit_close());
    assert(out@ =~= old(out)@ + record_bytes(r@));
}

fn push_lit_open_id(out: &mut Vec<u8>)
    ensures
        final(out)@ == old(out)@ + lit_open_id(),
{
    out.push(0x7B);
    out.push(0x22);
    out.push(0x69);
    out.push(0x64);
    out.push(0x22);
    out.push(0x3A);
    assert(out@ =~= old(out)@ + lit_open_id());
}

fn push_lit_value(out: &mut Vec<u8>)
    ensures
        final(out)@ == old(out)@ + lit_value(),
{
    out.push(0x2C);
    out.push(0x22);
    out.push(0x76);
    out.push(0x61);
    out.push(0x6C);
    out.push(0x75);
    out.push(0x65);
    out.push(0x22);
    out.push(0x3A);
    assert(out@ =~= old(out)@ + lit_value());
}

fn push_lit_flag(out: &mut Vec<u8>)
    ensures
        final(out)@ == old(out)@ + lit_flag(),
{
    out.push(0x2C);
    out.push(0x22);
    out.push(0x66);
    out.push(0x6C);
    out.push(0x61);
    out.push(0x67);
    out.push(0x22);
    out.push(0x3A);
    assert(out@ =~= old(out)@ + lit_flag());
}

fn push_lit_name(out: &mut Vec<u8>)
    ensures
        final(out)@ == old(out)@ + lit_name(),
{
    out.push(0x2C);
    out.push(0x22);
    out.push(0x6E);
    out.push(0x61);
    out.push(0x6D);
    out.push(0x65);
    out.push(0x22);
    out.push(0x3A);
    out.push(0x22);
    assert(out@ =~= old(out)@ + lit_name());
}

fn push_bool(out: &mut Vec<u8>, b: bool)
    ensures
        final(out)@ == old(out)@ + bool_bytes(b),
{
    if b {
        out.push(0x74);
        out.push(0x72);
        out.push(0x75);
        out.push(0x65);
    } else {
        out.push(0x66);
        out.push(0x61);
        out.push(0x6C);
        out.push(0x73);
        out.push(0x65);
    }
    assert(out@ =~= old(out)@ + bool_bytes(b));
}

fn push_name_bytes(out: &mut Vec<u8>, r: &JsonRecord)
    ensures
        final(out)@ == old(out)@ + r@.name,
{
    let ghost s0 = old(out)@;
    let nb = r.name.as_str().as_bytes();
    let nlen = nb.len();
    let mut k: usize = 0;
    assert(out@ =~= s0 + nb@.take(0));
    while k < nlen
        invariant
            k <= nlen,
            nlen == nb@.len(),
            nb@ == r@.name,
            out@ == s0 + nb@.take(k as int),
        decreases nlen - k,
    {
        out.push(nb[k]);
        proof {
            assert(nb@.take(k + 1) =~= nb@.take(k as int).push(nb@[k as int]));
            assert(out@ =~= s0 + nb@.take(k + 1));
        }
        k = k + 1;
    }
    proof {
        assert(nb@.take(nlen as int) =~= nb@);
    }
}

/// Append the decimal rendering of a signed value.
pub(crate) fn write_i32_decimal(out: &mut Vec<u8>, v: i32)
    ensures
        final(out)@ == old(out)@ + int_bytes(v as int),
{
    if v < 0 {
        out.push(0x2D);
        let mag = (-(v as i64)) as u32;
        write_u32_decimal(out, mag);
        assert(out@ =~= old(out)@ + int_bytes(v as int));
    } else {
        write_u32_decimal(out, v as u32);
    }
}

} // verus!
