//! The round-trip law: parsing a serialized record sequence yields the
//! records back, for every well-formed sequence — in particular for every
//! generated one — including the empty sequence.

use crate::json_parse::generator::{gen_model, gen_models};
use crate::json_parse::parser::{digits_end, digits_val, skip_ws, spec_parse,
    spec_parse_boolean, spec_parse_elems, spec_parse_members, spec_parse_number,
    spec_parse_object, spec_parse_string_value, str_scan_end, empty_acc, key_flag, key_id,
    key_name, key_value, FieldsAcc, is_digit, is_ws, lemma_unescape_no_escapes};
use crate::json_parse::serializer::{bool_bytes, int_bytes, joined, record_bytes, records_bytes};
use crate::json_parse::text::{dec_bytes, lemma_ascii_decode, lemma_dec_bytes_digits};
use crate::json_parse::types::{i32_to_u32, ErrKind, RecordModel};
use vstd::prelude::*;
use vstd::utf8::valid_utf8;

verus! {

/// A name the serializer can write verbatim: valid UTF-8 with no quote
/// and no backslash, so no escaping is ever needed.
pub open spec fn name_ok(bs: Seq<u8>) -> bool {
    valid_utf8(bs) && forall|k: int|
        0 <= k < bs.len() ==> #[trigger] bs[k] != 0x22 && bs[k] != 0x5C
}

/// A record the wire format round-trips: the id fits the signed 32-bit
/// range the number parser accepts, and the name needs no escaping.
pub open spec fn wf_record(m: RecordModel) -> bool {
    m.id <= 0x7FFFFFFF && name_ok(m.name)
}

/// Every record of the sequence is well formed.
pub open spec fn wf_records(ms: Seq<RecordModel>) -> bool {
    forall|k: int| 0 <= k < ms.len() ==> wf_record(#[trigger] ms[k])
}

/// The bytes of `s[a..b)`, element by element, when that subrange equals
/// `q`.
proof fn lemma_subrange_index(s: Seq<u8>, a: int, b: int, q: Seq<u8>)
    requires
        0 <= a <= b <= s.len(),
        s.subrange(a, b) == q,
    ensures
        q.len() == b - a,
        forall|t: int|
            #![trigger q[t]]
            #![trigger s[a + t]]
            0 <= t < b - a ==> s[a + t] == q[t],
{
    assert forall|t: int| 0 <= t < b - a implies s[a + t] == q[t] by {
        assert(s.subrange(a, b)[t] == s[a + t]);
    }
}

/// A run of digits with a non-digit boundary ends exactly at the boundary.
proof fn lemma_digits_end_of_run(s: Seq<u8>, a: int, b: int)
    requires
        0 <= a <= b <= s.len(),
        forall|k: int| a <= k < b ==> is_digit(#[trigger] s[k]),
        b == s.len() || !is_digit(s[b]),
    ensures
        digits_end(s, a) == b,
    decreases b - a,
{
    if a < b {
        assert(is_digit(s[a]));
        lemma_digits_end_of_run(s, a + 1, b);
    }
}

/// The value of a rendered decimal is the number it renders.
proof fn lemma_digits_val_of_dec(s: Seq<u8>, a: int, b: int, n: nat)
    requires
        0 <= a <= b <= s.len(),
        s.subrange(a, b) == dec_bytes(n),
    ensures
        digits_val(s, a, b) == n,
    decreases n,
{
    lemma_dec_bytes_digits(n);
    lemma_subrange_index(s, a, b, dec_bytes(n));
    if n < 10 {
        assert(b == a + 1);
        assert(s[a + 0] == dec_bytes(n)[0]);
        assert(digits_val(s, a, a) == 0);
        assert(digits_val(s, a, b) == digits_val(s, a, a) * 10 + (s[a] - 0x30));
    } else {
        let head = dec_bytes(n / 10);
        let hl = head.len();
        assert(s.subrange(a, b - 1) =~= head) by {
            assert forall|t: int| 0 <= t < hl implies s.subrange(a, b - 1)[t] == head[t] by {
                assert(s.subrange(a, b - 1)[t] == s[a + t]);
                assert(s[a + t] == dec_bytes(n)[t]);
            }
        }
        lemma_digits_val_of_dec(s, a, b - 1, n / 10);
        assert(s[a + (b - 1 - a)] == dec_bytes(n)[b - 1 - a]);
        assert(s[b - 1] == 0x30 + (n % 10));
    }
}

/// A rendered integer at a non-digit boundary parses back to its value.
proof fn lemma_parse_number_at(s: Seq<u8>, i: int, v: i32, j: int)
    requires
        0 <= i <= j <= s.len(),
        s.subrange(i, j) == int_bytes(v as int),
        j == s.len() || !is_digit(s[j]),
    ensures
        spec_parse_number(s, i) == Ok::<(i32, int), ErrKind>((v, j)),
{
    let ib = int_bytes(v as int);
    lemma_subrange_index(s, i, j, ib);
    if v < 0 {
        let mag = (-(v as int)) as nat;
        lemma_dec_bytes_digits(mag);
        assert(s[i + 0] == ib[0]);
        assert(s[i] == 0x2D);
        assert(!is_ws(s[i]));
        assert(skip_ws(s, i) == i);
        assert(s.subrange(i + 1, j) =~= dec_bytes(mag)) by {
            assert forall|t: int| 0 <= t < j - i - 1 implies s.subrange(i + 1, j)[t] == dec_bytes(
                mag,
            )[t] by {
                assert(s.subrange(i + 1, j)[t] == s[i + 1 + t]);
                assert(s[i + (t + 1)] == ib[t + 1]);
                assert(ib[t + 1] == dec_bytes(mag)[t]);
            }
        }
        lemma_subrange_index(s, i + 1, j, dec_bytes(mag));
        assert forall|k: int| i + 1 <= k < j implies is_digit(#[trigger] s[k]) by {
            assert(s[i + 1 + (k - i - 1)] == dec_bytes(mag)[k - i - 1]);
        }
        lemma_digits_end_of_run(s, i + 1, j);
        lemma_digits_val_of_dec(s, i + 1, j, mag);
        assert(is_digit(s[i + 1]));
    } else {
        let mag = (v as int) as nat;
        lemma_dec_bytes_digits(mag);
        assert forall|k: int| i <= k < j implies is_digit(#[trigger] s[k]) by {
            assert(s[i + (k - i)] == ib[k - i]);
        }
        assert(is_digit(s[i]));
        assert(!is_ws(s[i]) && s[i] != 0x2D);
        assert(skip_ws(s, i) == i);
        lemma_digits_end_of_run(s, i, j);
        lemma_digits_val_of_dec(s, i, j, mag);
    }
}

/// The scan for a closing quote finds the first quote when the body holds
/// no quote and no backslash.
proof fn lemma_scan_finds(s: Seq<u8>, a: int, e: int)
    requires
        0 <= a <= e < s.len(),
        s[e] == 0x22,
        forall|k: int| a <= k < e ==> #[trigger] s[k] != 0x22 && s[k] != 0x5C,
    ensures
        str_scan_end(s, a) == e,
    decreases e - a,
{
    if a < e {
        assert(s[a] != 0x22 && s[a] != 0x5C);
        lemma_scan_finds(s, a + 1, e);
    }
}

/// A quoted body with no escapes parses back to exactly its bytes.
proof fn lemma_parse_string_at(s: Seq<u8>, i: int, bs: Seq<u8>, j: int)
    requires
        0 <= i <= j <= s.len(),
        s.subrange(i, j) == seq![0x22u8] + bs + seq![0x22u8],
        name_ok(bs),
    ensures
        spec_parse_string_value(s, i) == Ok::<(Seq<u8>, int), ErrKind>((bs, j)),
{
    let q = seq![0x22u8] + bs + seq![0x22u8];
    lemma_subrange_index(s, i, j, q);
    assert(s[i + 0] == q[0]);
    assert(s[i] == 0x22);
    assert(!is_ws(s[i]));
    assert(skip_ws(s, i) == i);
    assert(s[i + (j - 1 - i)] == q[j - 1 - i]);
    assert(s[j - 1] == 0x22);
    assert forall|k: int| i + 1 <= k < j - 1 implies #[trigger] s[k] == bs[k - i - 1] by {
        assert(s[i + (k - i)] == q[k - i]);
    }
    assert forall|k: int| i + 1 <= k < j - 1 implies #[trigger] s[k] != 0x22 && s[k] != 0x5C by {
        assert(s[k] == bs[k - i - 1]);
        assert(bs[k - i - 1] != 0x22 && bs[k - i - 1] != 0x5C);
    }
    lemma_scan_finds(s, i + 1, j - 1);
    lemma_unescape_no_escapes(s, i + 1, j - 1, Seq::empty());
    assert(Seq::<u8>::empty() + s.subrange(i + 1, j - 1) =~= s.subrange(i + 1, j - 1));
    assert(s.subrange(i + 1, j - 1) =~= bs) by {
        assert forall|t: int| 0 <= t < j - i - 2 implies s.subrange(i + 1, j - 1)[t] == bs[t] by {
            assert(s.subrange(i + 1, j - 1)[t] == s[i + 1 + t]);
            assert(s[i + 1 + t] == bs[t]);
        }
    }
}

/// A subrange of a subrange, re-based.
proof fn lemma_sub_sub(s: Seq<u8>, i: int, j: int, x: int, y: int)
    requires
        0 <= i <= x <= y <= j <= s.len(),
    ensures
        s.subrange(x, y) == s.subrange(i, j).subrange(x - i, y - i),
{
    assert(s.subrange(x, y) =~= s.subrange(i, j).subrange(x - i, y - i));
}

/// The four member keys are quote-free, backslash-free ASCII.
proof fn lemma_keys_ok()
    ensures
        name_ok(key_id()),
        name_ok(key_value()),
        name_ok(key_flag()),
        name_ok(key_name()),
{
    lemma_ascii_decode(key_id());
    lemma_ascii_decode(key_value());
    lemma_ascii_decode(key_flag());
    lemma_ascii_decode(key_name());
}

/// A rendered boolean parses back to its value.
proof fn lemma_parse_bool_at(s: Seq<u8>, i: int, b: bool, j: int)
    requires
        0 <= i <= j <= s.len(),
        s.subrange(i, j) == bool_bytes(b),
    ensures
        spec_parse_boolean(s, i) == Ok::<(bool, int), ErrKind>((b, j)),
{
    let bb = bool_bytes(b);
    lemma_subrange_index(s, i, j, bb);
    assert(s[i + 0] == bb[0]);
    assert(!is_ws(s[i]));
    assert(skip_ws(s, i) == i);
    if b {
        assert(s[i + 1] == bb[1] && s[i + 2] == bb[2] && s[i + 3] == bb[3]);
    } else {
        assert(s[i + 1] == bb[1] && s[i + 2] == bb[2] && s[i + 3] == bb[3] && s[i + 4] == bb[4]);
    }
}

/// One member `"id":<digits>,` advances the member run and records the id.
proof fn lemma_member_id_step(s: Seq<u8>, a: int, acc: FieldsAcc, idv: u32, e: int)
    requires
        0 <= a <= a + 5 <= e < s.len(),
        s.subrange(a, a + 4) == seq![0x22u8] + key_id() + seq![0x22u8],
        s[a + 4] == 0x3A,
        s.subrange(a + 5, e) == dec_bytes(idv as nat),
        idv <= 0x7FFFFFFF,
        s[e] == 0x2C,
    ensures
        spec_parse_members(s, a, acc) == spec_parse_members(
            s,
            e + 1,
            FieldsAcc { id: Some(idv), ..acc },
        ),
{
    lemma_keys_ok();
    lemma_subrange_index(s, a, a + 4, seq![0x22u8] + key_id() + seq![0x22u8]);
    assert(s[a + 0] == 0x22);
    assert(!is_ws(s[a]));
    assert(skip_ws(s, a) == a);
    lemma_parse_string_at(s, a, key_id(), a + 4);
    assert(!is_ws(s[a + 4]));
    assert(skip_ws(s, a + 4) == a + 4);
    let v = idv as i32;
    assert(int_bytes(v as int) == dec_bytes(idv as nat));
    lemma_parse_number_at(s, a + 5, v, e);
    assert(i32_to_u32(v) == idv);
    assert(!is_ws(s[e]));
    assert(skip_ws(s, e) == e);
}

/// One member `"value":<int>,` advances the member run and records the
/// value.
proof fn lemma_member_value_step(s: Seq<u8>, a: int, acc: FieldsAcc, v: i32, e: int)
    requires
        0 <= a <= a + 8 <= e < s.len(),
        s.subrange(a, a + 7) == seq![0x22u8] + key_value() + seq![0x22u8],
        s[a + 7] == 0x3A,
        s.subrange(a + 8, e) == int_bytes(v as int),
        s[e] == 0x2C,
    ensures
        spec_parse_members(s, a, acc) == spec_parse_members(
            s,
            e + 1,
            FieldsAcc { value: Some(v), ..acc },
        ),
{
    lemma_keys_ok();
    lemma_subrange_index(s, a, a + 7, seq![0x22u8] + key_value() + seq![0x22u8]);
    assert(s[a + 0] == 0x22);
    assert(!is_ws(s[a]));
    assert(skip_ws(s, a) == a);
    lemma_parse_string_at(s, a, key_value(), a + 7);
    assert(key_value() != key_id());
    assert(!is_ws(s[a + 7]));
    assert(skip_ws(s, a + 7) == a + 7);
    lemma_parse_number_at(s, a + 8, v, e);
    assert(!is_ws(s[e]));
    assert(skip_ws(s, e) == e);
}

/// One member `"flag":<bool>,` advances the member run and records the
/// flag.
proof fn lemma_member_flag_step(s: Seq<u8>, a: int, acc: FieldsAcc, b: bool, e: int)
    requires
        0 <= a <= a + 7 <= e < s.len(),
        s.subrange(a, a + 6) == seq![0x22u8] + key_flag() + seq![0x22u8],
        s[a + 6] == 0x3A,
        s.subrange(a + 7, e) == bool_bytes(b),
        s[e] == 0x2C,
    ensures
        spec_parse_members(s, a, acc) == spec_parse_members(
            s,
            e + 1,
            FieldsAcc { flag: Some(b), ..acc },
        ),
{
    lemma_keys_ok();
    lemma_subrange_index(s, a, a + 6, seq![0x22u8] + key_flag() + seq![0x22u8]);
    assert(s[a + 0] == 0x22);
    assert(!is_ws(s[a]));
    assert(skip_ws(s, a) == a);
    lemma_parse_string_at(s, a, key_flag(), a + 6);
    assert(key_flag() != key_id());
    assert(key_flag() != key_value());
    assert(!is_ws(s[a + 6]));
    assert(skip_ws(s, a + 6) == a + 6);
    lemma_parse_bool_at(s, a + 7, b, e);
    assert(!is_ws(s[e]));
    assert(skip_ws(s, e) == e);
}

/// The final member `"name":"<name>"}` closes the object with all fields
/// collected.
proof fn lemma_member_name_step(s: Seq<u8>, a: int, acc: FieldsAcc, nm: Seq<u8>, e: int)
    requires
        0 <= a <= a + 7 <= e < s.len(),
        s.subrange(a, a + 6) == seq![0x22u8] + key_name() + seq![0x22u8],
        s[a + 6] == 0x3A,
        s.subrange(a + 7, e) == seq![0x22u8] + nm + seq![0x22u8],
        name_ok(nm),
        s[e] == 0x7D,
    ensures
        spec_parse_members(s, a, acc) == Ok::<(FieldsAcc, int), ErrKind>(
            (FieldsAcc { name: Some(nm), ..acc }, e + 1),
        ),
{
    lemma_keys_ok();
    lemma_subrange_index(s, a, a + 6, seq![0x22u8] + key_name() + seq![0x22u8]);
    assert(s[a + 0] == 0x22);
    assert(!is_ws(s[a]));
    assert(skip_ws(s, a) == a);
    lemma_parse_string_at(s, a, key_name(), a + 6);
    assert(key_name() != key_id());
    assert(key_name() != key_value());
    assert(key_name() != key_flag()) by {
        assert(key_name()[0] == 0x6E);
        assert(key_flag()[0] == 0x66);
    }
    assert(!is_ws(s[a + 6]));
    assert(skip_ws(s, a + 6) == a + 6);
    lemma_parse_string_at(s, a + 7, nm, e);
    assert(!is_ws(s[e]));
    assert(skip_ws(s, e) == e);
}

/// A serialized record parses back to exactly that record.
#[verifier::rlimit(100)]
proof fn lemma_parse_object_at(s: Seq<u8>, i: int, m: RecordModel, j: int)
    requires
        0 <= i <= j <= s.len(),
        s.subrange(i, j) == record_bytes(m),
        wf_record(m),
    ensures
        spec_parse_object(s, i) == Ok::<(RecordModel, int), ErrKind>((m, j)),
{
    let rb = record_bytes(m);
    let dl = dec_bytes(m.id as nat).len() as int;
    let il = int_bytes(m.value as int).len() as int;
    let bl = bool_bytes(m.flag).len() as int;
    let nl = m.name.len() as int;
    lemma_subrange_index(s, i, j, rb);
    assert(j - i == 34 + dl + il + bl + nl);

    let a1 = i + 1;
    let e1 = i + 6 + dl;
    let a2 = e1 + 1;
    let e2 = i + 15 + dl + il;
    let a3 = e2 + 1;
    let e3 = i + 23 + dl + il + bl;
    let a4 = e3 + 1;

    assert(s[i + 0] == rb[0]);
    assert(s[i] == 0x7B);
    assert(s[i + 1] == rb[1]);
    assert(s[i + 1] == 0x22);
    assert(s[i + 5] == rb[5] && rb[5] == 0x3A);
    assert(s[i + (6 + dl)] == rb[6 + dl] && rb[6 + dl] == 0x2C);
    assert(s[i + (14 + dl)] == rb[14 + dl] && rb[14 + dl] == 0x3A);
    assert(s[i + (15 + dl + il)] == rb[15 + dl + il] && rb[15 + dl + il] == 0x2C);
    assert(s[i + (22 + dl + il)] == rb[22 + dl + il] && rb[22 + dl + il] == 0x3A);
    assert(s[i + (23 + dl + il + bl)] == rb[23 + dl + il + bl] && rb[23 + dl + il + bl] == 0x2C);
    assert(s[i + (30 + dl + il + bl)] == rb[30 + dl + il + bl] && rb[30 + dl + il + bl] == 0x3A);
    assert(s[i + (33 + dl + il + bl + nl)] == rb[33 + dl + il + bl + nl] && rb[33 + dl + il + bl
        + nl] == 0x7D);

    lemma_sub_sub(s, i, j, a1, a1 + 4);
    assert(rb.subrange(1, 5) =~= seq![0x22u8] + key_id() + seq![0x22u8]);
    lemma_sub_sub(s, i, j, i + 6, e1);
    assert(rb.subrange(6, 6 + dl) =~= dec_bytes(m.id as nat));
    lemma_sub_sub(s, i, j, a2, a2 + 7);
    assert(rb.subrange(7 + dl, 14 + dl) =~= seq![0x22u8] + key_value() + seq![0x22u8]);
    lemma_sub_sub(s, i, j, i + 15 + dl, e2);
    assert(rb.subrange(15 + dl, 15 + dl + il) =~= int_bytes(m.value as int));
    lemma_sub_sub(s, i, j, a3, a3 + 6);
    assert(rb.subrange(16 + dl + il, 22 + dl + il) =~= seq![0x22u8] + key_flag() + seq![0x22u8]);
    lemma_sub_sub(s, i, j, i + 23 + dl + il, e3);
    assert(rb.subrange(23 + dl + il, 23 + dl + il + bl) =~= bool_bytes(m.flag));
    lemma_sub_sub(s, i, j, a4, a4 + 6);
    assert(rb.subrange(24 + dl + il + bl, 30 + dl + il + bl) =~= seq![0x22u8] + key_name()
        + seq![0x22u8]);
    lemma_sub_sub(s, i, j, i + 31 + dl + il + bl, j - 1);
    assert(rb.subrange(31 + dl + il + bl, 33 + dl + il + bl + nl) =~= seq![0x22u8] + m.name
        + seq![0x22u8]);

    let acc0 = empty_acc();
    lemma_member_id_step(s, a1, acc0, m.id, e1);
    let acc1 = FieldsAcc { id: Some(m.id), ..acc0 };
    lemma_member_value_step(s, a2, acc1, m.value, e2);
    let acc2 = FieldsAcc { value: Some(m.value), ..acc1 };
    lemma_member_flag_step(s, a3, acc2, m.flag, e3);
    let acc3 = FieldsAcc { flag: Some(m.flag), ..acc2 };
    lemma_member_name_step(s, a4, acc3, m.name, j - 1);
    let acc4 = FieldsAcc { name: Some(m.name), ..acc3 };
    assert(spec_parse_members(s, i + 1, acc0) == Ok::<(FieldsAcc, int), ErrKind>((acc4, j)));

    assert(!is_ws(s[i]));
    assert(skip_ws(s, i) == i);
    assert(!is_ws(s[i + 1]));
    assert(skip_ws(s, i + 1) == i + 1);
    assert(m =~= RecordModel { id: m.id, value: m.value, flag: m.flag, name: m.name });
}

/// The remaining elements of a serialized array parse back to exactly the
/// remaining records.
proof fn lemma_parse_elems_at(s: Seq<u8>, i: int, done: Seq<RecordModel>, rest: Seq<RecordModel>)
    requires
        0 <= i <= s.len(),
        rest.len() >= 1,
        wf_records(rest),
        s.subrange(i, s.len() as int) == joined(rest) + seq![0x5Du8],
    ensures
        spec_parse_elems(s, i, done) == Ok::<(Seq<RecordModel>, int), ErrKind>(
            (done + rest, s.len() as int),
        ),
    decreases rest.len(),
{
    let q = joined(rest) + seq![0x5Du8];
    let m = rest[0];
    let rb = record_bytes(m);
    let rbl = rb.len() as int;
    lemma_subrange_index(s, i, s.len() as int, q);
    assert(wf_record(m));
    lemma_sub_sub(s, i, s.len() as int, i, i + rbl);
    if rest.len() == 1 {
        assert(q.subrange(0, rbl) =~= rb);
        lemma_parse_object_at(s, i, m, i + rbl);
        assert(s[i + rbl] == q[rbl]);
        assert(s[i + rbl] == 0x5D);
        assert(i + rbl + 1 == s.len());
        assert(s[i + 0] == q[0]);
        assert(s[i] == 0x7B);
        assert(!is_ws(s[i]));
        assert(skip_ws(s, i) == i);
        assert(!is_ws(s[i + rbl]));
        assert(skip_ws(s, i + rbl) == i + rbl);
        assert(done + rest =~= done.push(m));
    } else {
        assert(q.subrange(0, rbl) =~= rb);
        lemma_parse_object_at(s, i, m, i + rbl);
        assert(s[i + rbl] == q[rbl]);
        assert(s[i + rbl] == 0x2C);
        let i2 = i + rbl + 1;
        assert(s.subrange(i2, s.len() as int) =~= joined(rest.drop_first()) + seq![0x5Du8]) by {
            assert forall|t: int| 0 <= t < s.len() - i2 implies s.subrange(i2, s.len() as int)[t]
                == (joined(rest.drop_first()) + seq![0x5Du8])[t] by {
                assert(s.subrange(i2, s.len() as int)[t] == s[i2 + t]);
                assert(s[i + (rbl + 1 + t)] == q[rbl + 1 + t]);
            }
        }
        assert(s[i2 + 0] == s[i + (rbl + 1)] && s[i + (rbl + 1)] == q[rbl + 1]);
        assert(q[rbl + 1] == record_bytes(rest.drop_first()[0])[0]);
        assert(s[i2] == 0x7B);
        assert(wf_records(rest.drop_first())) by {
            assert(forall|k: int|
                0 <= k < rest.drop_first().len() ==> #[trigger] rest.drop_first()[k] == rest[k
                    + 1]);
        }
        lemma_parse_elems_at(s, i2, done.push(m), rest.drop_first());
        assert(done.push(m) + rest.drop_first() =~= done + rest);
        assert(s[i + 0] == q[0]);
        assert(s[i] == 0x7B);
        assert(!is_ws(s[i]));
        assert(skip_ws(s, i) == i);
        assert(!is_ws(s[i + rbl]));
        assert(skip_ws(s, i + rbl) == i + rbl);
        assert(!is_ws(s[i2]));
        assert(skip_ws(s, i2) == i2);
        assert(s[i2] != 0x5D);
    }
}

/// Every generated sequence whose ids fit the signed 32-bit range is
/// well formed: ids start at 1, and names are `a` followed by digits.
pub proof fn lemma_gen_models_wf(count: nat, seed: u32)
    requires
        count <= 0x7FFFFFFF,
    ensures
        wf_records(gen_models(count, seed)),
{
    assert forall|k: int| 0 <= k < count implies wf_record(#[trigger] gen_models(count, seed)[k])
        by {
        let m = gen_model(seed, k as nat);
        lemma_dec_bytes_digits((k + 1) as nat);
        let nm = seq![0x61u8] + dec_bytes((k + 1) as nat);
        assert forall|t: int| 0 <= t < nm.len() implies #[trigger] nm[t] != 0x22 && nm[t] != 0x5C
            && nm[t] < 0x80 by {
            if t > 0 {
                assert(nm[t] == dec_bytes((k + 1) as nat)[t - 1]);
            }
        }
        lemma_ascii_decode(nm);
    }
}

/// The round-trip law: the serializer's exact output for any well-formed
/// record sequence — the empty one included — parses back to exactly that
/// sequence.
pub proof fn lemma_serialize_parse_round_trip(ms: Seq<RecordModel>)
    requires
        wf_records(ms),
    ensures
        spec_parse(records_bytes(ms)) == Ok::<Seq<RecordModel>, ErrKind>(ms),
{
    let s = records_bytes(ms);
    assert(s[0] == 0x5B);
    assert(!is_ws(s[0]));
    assert(skip_ws(s, 0) == 0);
    if ms.len() == 0 {
        assert(s.len() == 2);
        assert(s[1] == 0x5D);
        assert(!is_ws(s[1]));
        assert(skip_ws(s, 1) == 1);
        assert(ms =~= Seq::<RecordModel>::empty());
    } else {
        assert(s[1] == joined(ms)[0]);
        assert(joined(ms)[0] == record_bytes(ms[0])[0]);
        assert(s[1] == 0x7B);
        assert(!is_ws(s[1]));
        assert(skip_ws(s, 1) == 1);
        assert(s.subrange(1, s.len() as int) =~= joined(ms) + seq![0x5Du8]);
        lemma_parse_elems_at(s, 1, Seq::empty(), ms);
        assert(Seq::<RecordModel>::empty() + ms =~= ms);
    }
}

} // verus!
