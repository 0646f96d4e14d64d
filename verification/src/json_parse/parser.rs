//! Recursive-descent parser for the wire format the serializer emits,
//! tolerant of whitespace around structural tokens, with a trailing comma
//! before `]` accepted by design. The spec functions below are the exact
//! model of the grammar; each executable function is proved to return
//! precisely what its spec function says, on every input.

use crate::json_parse::text::bytes_to_string;
use crate::json_parse::types::{err_matches, i32_to_u32, reinterpret_unsigned, seq_models,
    ErrKind, JsonRecord, ParseError, RecordModel};
use vstd::prelude::*;
use vstd::slice::slice_to_vec;
use vstd::utf8::{decode_utf8_encode_utf8, encode_utf8, valid_utf8};

verus! {

/// Whitespace accepted around structural tokens: space, tab, newline,
/// carriage return.
pub open spec fn is_ws(b: u8) -> bool {
    b == 0x20 || b == 0x09 || b == 0x0A || b == 0x0D
}

/// An ASCII digit.
pub open spec fn is_digit(b: u8) -> bool {
    0x30 <= b <= 0x39
}

/// The first position at or after `i` holding no whitespace.
pub open spec fn skip_ws(s: Seq<u8>, i: int) -> int
    decreases s.len() - i,
{
    if 0 <= i < s.len() && is_ws(s[i]) {
        skip_ws(s, i + 1)
    } else {
        i
    }
}

/// The first position at or after `i` holding no digit.
pub open spec fn digits_end(s: Seq<u8>, i: int) -> int
    decreases s.len() - i,
{
    if 0 <= i < s.len() && is_digit(s[i]) {
        digits_end(s, i + 1)
    } else {
        i
    }
}

/// The value of the digit run `s[i..j)`.
pub open spec fn digits_val(s: Seq<u8>, i: int, j: int) -> int
    decreases j - i,
{
    if j <= i {
        0
    } else {
        digits_val(s, i, j - 1) * 10 + (s[j - 1] - 0x30)
    }
}

/// Position of the closing quote of a string body starting at `i`, with
/// backslash escapes skipping the escaped byte; `s.len()` when the string
/// is unterminated or ends in a lone backslash.
pub open spec fn str_scan_end(s: Seq<u8>, i: int) -> int
    decreases s.len() - i,
{
    if 0 <= i < s.len() {
        if s[i] == 0x22 {
            i
        } else if s[i] == 0x5C {
            if i + 1 < s.len() {
                str_scan_end(s, i + 2)
            } else {
                s.len() as int
            }
        } else {
            str_scan_end(s, i + 1)
        }
    } else {
        s.len() as int
    }
}

/// The escape codes accepted after a backslash.
pub open spec fn is_escape_code(b: u8) -> bool {
    b == 0x22 || b == 0x5C || b == 0x6E || b == 0x72 || b == 0x74
}

/// The byte an escape code stands for.
pub open spec fn escape_byte(b: u8) -> u8 {
    if b == 0x6E {
        0x0A
    } else if b == 0x72 {
        0x0D
    } else if b == 0x74 {
        0x09
    } else {
        b
    }
}

/// The unescaped bytes of the string body `s[i..end)` appended to `acc`,
/// or `None` on an unsupported escape code.
pub open spec fn unescape_acc(s: Seq<u8>, i: int, end: int, acc: Seq<u8>) -> Option<Seq<u8>>
    decreases end - i,
{
    if i >= end {
        Some(acc)
    } else if s[i] == 0x5C {
        if i + 1 >= end {
            Some(acc)
        } else if is_escape_code(s[i + 1]) {
            unescape_acc(s, i + 2, end, acc.push(escape_byte(s[i + 1])))
        } else {
            None
        }
    } else {
        unescape_acc(s, i + 1, end, acc.push(s[i]))
    }
}

/// What parsing a string value at `i` yields: the decoded bytes and the
/// position after the closing quote, or the error.
pub open spec fn spec_parse_string_value(s: Seq<u8>, i: int) -> Result<(Seq<u8>, int), ErrKind> {
    let i1 = skip_ws(s, i);
    if !(0 <= i1 < s.len() && s[i1] == 0x22) {
        Err(ErrKind::Str)
    } else {
        let end = str_scan_end(s, i1 + 1);
        if end >= s.len() {
            Err(ErrKind::Str)
        } else {
            match unescape_acc(s, i1 + 1, end, Seq::empty()) {
                None => Err(ErrKind::Str),
                Some(bs) => if valid_utf8(bs) {
                    Ok((bs, end + 1))
                } else {
                    Err(ErrKind::Str)
                },
            }
        }
    }
}

/// What parsing an integer at `i` yields: an optional minus sign, then
/// digits accumulated exactly; any value outside the signed 32-bit range
/// is an error, never wrapped.
pub open spec fn spec_parse_number(s: Seq<u8>, i: int) -> Result<(i32, int), ErrKind> {
    let i1 = skip_ws(s, i);
    if i1 >= s.len() {
        Err(ErrKind::Eof)
    } else {
        let neg = s[i1] == 0x2D;
        let i2 = if neg {
            i1 + 1
        } else {
            i1
        };
        if !(i2 < s.len() && is_digit(s[i2])) {
            Err(ErrKind::Num)
        } else {
            let j = digits_end(s, i2);
            let v = if neg {
                -digits_val(s, i2, j)
            } else {
                digits_val(s, i2, j)
            };
            if v < -0x80000000 || v > 0x7FFFFFFF {
                Err(ErrKind::Num)
            } else {
                Ok((v as i32, j))
            }
        }
    }
}

/// What parsing a boolean at `i` yields: exactly `true` or `false`.
pub open spec fn spec_parse_boolean(s: Seq<u8>, i: int) -> Result<(bool, int), ErrKind> {
    let i1 = skip_ws(s, i);
    if i1 >= s.len() {
        Err(ErrKind::Eof)
    } else if i1 + 4 <= s.len() && s[i1] == 0x74 && s[i1 + 1] == 0x72 && s[i1 + 2] == 0x75 && s[i1
        + 3] == 0x65 {
        Ok((true, i1 + 4))
    } else if i1 + 5 <= s.len() && s[i1] == 0x66 && s[i1 + 1] == 0x61 && s[i1 + 2] == 0x6C && s[i1
        + 3] == 0x73 && s[i1 + 4] == 0x65 {
        Ok((false, i1 + 5))
    } else {
        Err(ErrKind::Bool)
    }
}

/// The fields collected so far while parsing one object; all four must be
/// present when the object closes.
#[verifier::ext_equal]
pub struct FieldsAcc {
    pub id: Option<u32>,
    pub value: Option<i32>,
    pub flag: Option<bool>,
    pub name: Option<Seq<u8>>,
}

/// No field seen yet.
pub open spec fn empty_acc() -> FieldsAcc {
    FieldsAcc { id: None, value: None, flag: None, name: None }
}

/// The bytes of the key `id`.
pub open spec fn key_id() -> Seq<u8> {
    seq![0x69u8, 0x64]
}

/// The bytes of the key `value`.
pub open spec fn key_value() -> Seq<u8> {
    seq![0x76u8, 0x61, 0x6C, 0x75, 0x65]
}

/// The bytes of the key `flag`.
pub open spec fn key_flag() -> Seq<u8> {
    seq![0x66u8, 0x6C, 0x61, 0x67]
}

/// The bytes of the key `name`.
pub open spec fn key_name() -> Seq<u8> {
    seq![0x6Eu8, 0x61, 0x6D, 0x65]
}

/// What parsing one member's value at `i` yields, dispatched on the key:
/// the four known keys each update their field (a repeated key overwrites),
/// and any other key is an unknown-field error.
pub open spec fn spec_member_value(s: Seq<u8>, i: int, acc: FieldsAcc, key: Seq<u8>) -> Result<
    (FieldsAcc, int),
    ErrKind,
> {
    if key == key_id() {
        match spec_parse_number(s, i) {
            Err(k) => Err(k),
            Ok((v, j)) => Ok((FieldsAcc { id: Some(i32_to_u32(v)), ..acc }, j)),
        }
    } else if key == key_value() {
        match spec_parse_number(s, i) {
            Err(k) => Err(k),
            Ok((v, j)) => Ok((FieldsAcc { value: Some(v), ..acc }, j)),
        }
    } else if key == key_flag() {
        match spec_parse_boolean(s, i) {
            Err(k) => Err(k),
            Ok((b, j)) => Ok((FieldsAcc { flag: Some(b), ..acc }, j)),
        }
    } else if key == key_name() {
        match spec_parse_string_value(s, i) {
            Err(k) => Err(k),
            Ok((bs, j)) => Ok((FieldsAcc { name: Some(bs), ..acc }, j)),
        }
    } else {
        Err(ErrKind::Unknown(key))
    }
}

/// `skip_ws` moves forward, never past the end.
pub proof fn lemma_skip_ws_bounds(s: Seq<u8>, i: int)
    ensures
        i <= skip_ws(s, i),
        i <= s.len() ==> skip_ws(s, i) <= s.len(),
        0 <= skip_ws(s, i) < s.len() ==> !is_ws(s[skip_ws(s, i)]),
    decreases s.len() - i,
{
    if 0 <= i < s.len() && is_ws(s[i]) {
        lemma_skip_ws_bounds(s, i + 1);
    }
}

/// `digits_end` moves forward over digits only, never past the end.
pub proof fn lemma_digits_end_bounds(s: Seq<u8>, i: int)
    ensures
        i <= digits_end(s, i),
        i <= s.len() ==> digits_end(s, i) <= s.len(),
        forall|k: int| i <= k < digits_end(s, i) ==> is_digit(#[trigger] s[k]),
        0 <= digits_end(s, i) < s.len() ==> !is_digit(s[digits_end(s, i)]),
    decreases s.len() - i,
{
    if 0 <= i < s.len() && is_digit(s[i]) {
        lemma_digits_end_bounds(s, i + 1);
    }
}

/// A digit run's value is nonnegative and grows with its length.
pub proof fn lemma_digits_val_grows(s: Seq<u8>, i: int, j: int, k: int)
    requires
        i <= j <= k,
        forall|t: int| i <= t < k ==> is_digit(#[trigger] s[t]),
    ensures
        0 <= digits_val(s, i, j) <= digits_val(s, i, k),
    decreases k - j,
{
    if j == k {
        lemma_digits_val_nonneg(s, i, j);
    } else {
        lemma_digits_val_grows(s, i, j, k - 1);
    }
}

proof fn lemma_digits_val_nonneg(s: Seq<u8>, i: int, j: int)
    requires
        forall|t: int| i <= t < j ==> is_digit(#[trigger] s[t]),
    ensures
        digits_val(s, i, j) >= 0,
    decreases j - i,
{
    if j > i {
        lemma_digits_val_nonneg(s, i, j - 1);
    }
}

/// The scan for a closing quote moves forward, never past the end, and
/// stops on a quote when it stops inside the buffer.
pub proof fn lemma_scan_bounds(s: Seq<u8>, i: int)
    ensures
        0 <= i <= s.len() ==> i <= str_scan_end(s, i),
        str_scan_end(s, i) <= s.len(),
        0 <= str_scan_end(s, i) < s.len() ==> s[str_scan_end(s, i)] == 0x22,
    decreases s.len() - i,
{
    if 0 <= i < s.len() {
        if s[i] == 0x22 {
        } else if s[i] == 0x5C {
            if i + 1 < s.len() {
                lemma_scan_bounds(s, i + 2);
            }
        } else {
            lemma_scan_bounds(s, i + 1);
        }
    }
}

/// Unescaping a body without backslashes returns it unchanged.
pub proof fn lemma_unescape_no_escapes(s: Seq<u8>, i: int, end: int, acc: Seq<u8>)
    requires
        0 <= i <= end <= s.len(),
        forall|k: int| i <= k < end ==> s[k] != 0x5C,
    ensures
        unescape_acc(s, i, end, acc) == Some(acc + s.subrange(i, end)),
    decreases end - i,
{
    if i >= end {
        assert(acc + s.subrange(i, end) =~= acc);
    } else {
        lemma_unescape_no_escapes(s, i + 1, end, acc.push(s[i]));
        assert(acc.push(s[i]) + s.subrange(i + 1, end) =~= acc + s.subrange(i, end));
    }
}

/// A successful string parse lands strictly forward, inside the buffer.
pub proof fn lemma_string_progress(s: Seq<u8>, i: int)
    ensures
        spec_parse_string_value(s, i) matches Ok((bs, j)) ==> i < j <= s.len(),
{
    lemma_skip_ws_bounds(s, i);
    let i1 = skip_ws(s, i);
    if 0 <= i1 < s.len() && s[i1] == 0x22 {
        lemma_scan_bounds(s, i1 + 1);
    }
}

/// A successful number parse lands strictly forward, inside the buffer.
pub proof fn lemma_number_progress(s: Seq<u8>, i: int)
    requires
        0 <= i,
    ensures
        spec_parse_number(s, i) matches Ok((v, j)) ==> i < j <= s.len(),
{
    lemma_skip_ws_bounds(s, i);
    let i1 = skip_ws(s, i);
    if i1 < s.len() {
        let i2 = if s[i1] == 0x2D {
            i1 + 1
        } else {
            i1
        };
        if i2 < s.len() && is_digit(s[i2]) {
            lemma_digits_end_bounds(s, i2);
            assert(digits_end(s, i2) == digits_end(s, i2 + 1));
            lemma_digits_end_bounds(s, i2 + 1);
        }
    }
}

/// A successful boolean parse lands strictly forward, inside the buffer.
pub proof fn lemma_boolean_progress(s: Seq<u8>, i: int)
    ensures
        spec_parse_boolean(s, i) matches Ok((b, j)) ==> i < j <= s.len(),
{
    lemma_skip_ws_bounds(s, i);
}

/// A successful member-value parse lands strictly forward, inside the
/// buffer.
pub proof fn lemma_member_value_progress(s: Seq<u8>, i: int, acc: FieldsAcc, key: Seq<u8>)
    requires
        0 <= i,
    ensures
        spec_member_value(s, i, acc, key) matches Ok((a, j)) ==> i < j <= s.len(),
{
    lemma_number_progress(s, i);
    lemma_boolean_progress(s, i);
    lemma_string_progress(s, i);
}

/// What parsing the members of one object yields, starting just inside
/// `{` or just after a separating comma, with the fields seen so far in
/// `acc`: the collected fields and the position after `}`.
pub open spec fn spec_parse_members(s: Seq<u8>, i: int, acc: FieldsAcc) -> Result<
    (FieldsAcc, int),
    ErrKind,
> decreases s.len() - i,
{
    let i1 = skip_ws(s, i);
    match spec_parse_string_value(s, i1) {
        Err(k) => Err(k),
        Ok((key, i2)) => {
            let i3 = skip_ws(s, i2);
            if !(0 <= i3 < s.len() && s[i3] == 0x3A) {
                Err(ErrKind::Object)
            } else {
                match spec_member_value(s, i3 + 1, acc, key) {
                    Err(k) => Err(k),
                    Ok((acc2, i4)) => {
                        let i5 = skip_ws(s, i4);
                        if i5 >= s.len() {
                            Err(ErrKind::Eof)
                        } else if s[i5] == 0x2C {
                            proof {
                                lemma_skip_ws_bounds(s, i);
                                lemma_string_progress(s, i1);
                                lemma_skip_ws_bounds(s, i2);
                                lemma_member_value_progress(s, i3 + 1, acc, key);
                                lemma_skip_ws_bounds(s, i4);
                            }
                            spec_parse_members(s, i5 + 1, acc2)
                        } else if s[i5] == 0x7D {
                            Ok((acc2, i5 + 1))
                        } else {
                            Err(ErrKind::Object)
                        }
                    },
                }
            }
        },
    }
}

/// A successful member run lands strictly forward, inside the buffer.
pub proof fn lemma_members_progress(s: Seq<u8>, i: int, acc: FieldsAcc)
    ensures
        spec_parse_members(s, i, acc) matches Ok((a, j)) ==> i < j <= s.len(),
    decreases s.len() - i,
{
    lemma_skip_ws_bounds(s, i);
    let i1 = skip_ws(s, i);
    lemma_string_progress(s, i1);
    match spec_parse_string_value(s, i1) {
        Err(k) => {},
        Ok((key, i2)) => {
            let i3 = skip_ws(s, i2);
            lemma_skip_ws_bounds(s, i2);
            if 0 <= i3 < s.len() && s[i3] == 0x3A {
                lemma_member_value_progress(s, i3 + 1, acc, key);
                match spec_member_value(s, i3 + 1, acc, key) {
                    Err(k) => {},
                    Ok((acc2, i4)) => {
                        let i5 = skip_ws(s, i4);
                        lemma_skip_ws_bounds(s, i4);
                        if i5 < s.len() && s[i5] == 0x2C {
                            lemma_members_progress(s, i5 + 1, acc2);
                        }
                    },
                }
            }
        },
    }
}

/// What parsing one object at `i` yields: `{`, at least one member (an
/// empty object is rejected), `}`, with all four fields required; a
/// missing field is reported by name, in the order id, value, flag, name.
pub open spec fn spec_parse_object(s: Seq<u8>, i: int) -> Result<(RecordModel, int), ErrKind> {
    let i1 = skip_ws(s, i);
    if !(0 <= i1 < s.len() && s[i1] == 0x7B) {
        Err(ErrKind::Object)
    } else {
        let i2 = skip_ws(s, i1 + 1);
        if 0 <= i2 < s.len() && s[i2] == 0x7D {
            Err(ErrKind::Object)
        } else {
            match spec_parse_members(s, i1 + 1, empty_acc()) {
                Err(k) => Err(k),
                Ok((acc, j)) => {
                    if acc.id is None {
                        Err(ErrKind::Missing("id"@))
                    } else if acc.value is None {
                        Err(ErrKind::Missing("value"@))
                    } else if acc.flag is None {
                        Err(ErrKind::Missing("flag"@))
                    } else if acc.name is None {
                        Err(ErrKind::Missing("name"@))
                    } else {
                        Ok(
                            (
                                RecordModel {
                                    id: acc.id->0,
                                    value: acc.value->0,
                                    flag: acc.flag->0,
                                    name: acc.name->0,
                                },
                                j,
                            ),
                        )
                    }
                },
            }
        }
    }
}

/// A successful object parse lands strictly forward, inside the buffer.
pub proof fn lemma_object_progress(s: Seq<u8>, i: int)
    ensures
        spec_parse_object(s, i) matches Ok((m, j)) ==> i < j <= s.len(),
{
    lemma_skip_ws_bounds(s, i);
    lemma_members_progress(s, skip_ws(s, i) + 1, empty_acc());
}

/// What parsing the array elements yields, starting after `[` (or after a
/// separating comma), with the records parsed so far in `acc`: the records
/// and the position after `]`. A trailing comma directly before `]` is
/// consumed and the array closes.
pub open spec fn spec_parse_elems(s: Seq<u8>, i: int, acc: Seq<RecordModel>) -> Result<
    (Seq<RecordModel>, int),
    ErrKind,
> decreases s.len() - i,
{
    let i1 = skip_ws(s, i);
    match spec_parse_object(s, i1) {
        Err(k) => Err(k),
        Ok((m, i2)) => {
            let i3 = skip_ws(s, i2);
            if i3 >= s.len() {
                Err(ErrKind::Eof)
            } else if s[i3] == 0x2C {
                let i4 = skip_ws(s, i3 + 1);
                if 0 <= i4 < s.len() && s[i4] == 0x5D {
                    Ok((acc.push(m), i4 + 1))
                } else {
                    proof {
                        lemma_skip_ws_bounds(s, i);
                        lemma_object_progress(s, i1);
                        lemma_skip_ws_bounds(s, i2);
                        lemma_skip_ws_bounds(s, i3 + 1);
                    }
                    spec_parse_elems(s, i4, acc.push(m))
                }
            } else if s[i3] == 0x5D {
                Ok((acc.push(m), i3 + 1))
            } else {
                Err(ErrKind::Array)
            }
        },
    }
}

/// What parsing the array at `i` yields, `i` being the position of `[`.
pub open spec fn spec_parse_array(s: Seq<u8>, i: int) -> Result<(Seq<RecordModel>, int), ErrKind> {
    let i1 = skip_ws(s, i + 1);
    if 0 <= i1 < s.len() && s[i1] == 0x5D {
        Ok((Seq::empty(), i1 + 1))
    } else {
        spec_parse_elems(s, i1, Seq::empty())
    }
}

/// What parsing a whole text yields: leading whitespace, `[`, the
/// elements. Anything after the closing `]` is ignored.
pub open spec fn spec_parse(s: Seq<u8>) -> Result<Seq<RecordModel>, ErrKind> {
    let i0 = skip_ws(s, 0);
    if !(i0 < s.len() && s[i0] == 0x5B) {
        Err(ErrKind::Array)
    } else {
        match spec_parse_array(s, i0) {
            Err(k) => Err(k),
            Ok((ms, j)) => Ok(ms),
        }
    }
}

/// Advance `pos` to the first position holding no whitespace.
fn skip_whitespace(bytes: &[u8], pos: &mut usize)
    ensures
        *final(pos) as int == skip_ws(bytes@, *old(pos) as int),
        *old(pos) <= *final(pos),
        *old(pos) as int <= bytes@.len() ==> *final(pos) as int <= bytes@.len(),
{
    proof {
        lemma_skip_ws_bounds(bytes@, *old(pos) as int);
    }
    while *pos < bytes.len() && (bytes[*pos] == 0x20 || bytes[*pos] == 0x09 || bytes[*pos] == 0x0A
        || bytes[*pos] == 0x0D)
        invariant
            *old(pos) <= *pos,
            skip_ws(bytes@, *old(pos) as int) == skip_ws(bytes@, *pos as int),
        decreases bytes@.len() - *pos as int,
    {
        *pos += 1;
    }
}

/// Parse a string value: a quoted body, zero-copy when it holds no escape,
/// with exactly the five escapes `\"`, `\\`, `\n`, `\r`, `\t` decoded
/// otherwise; the decoded bytes must be valid UTF-8. Returns exactly what
/// `spec_parse_string_value` says.
#[verifier::loop_isolation(false)]
pub fn parse_json_string_value(bytes: &[u8], pos: &mut usize) -> (r: Result<String, ParseError>)
    ensures
        match spec_parse_string_value(bytes@, *old(pos) as int) {
            Ok((bs, j)) => r matches Ok(s2) && encode_utf8(s2@) == bs && *final(pos) as int == j
                && *old(pos) < *final(pos) && *final(pos) as int <= bytes@.len(),
            Err(k) => r matches Err(e) && err_matches(e, k),
        },
{
    skip_whitespace(bytes, pos);
    if *pos >= bytes.len() || bytes[*pos] != 0x22 {
        return Err(ParseError::InvalidString { message: "Expected string starting with '\"'" });
    }
    *pos += 1;
    let start = *pos;
    let n = bytes.len();
    let mut scan = start;
    let mut has_escapes = false;
    while scan < n && bytes[scan] != 0x22
        invariant
            start <= scan <= n,
            str_scan_end(bytes@, start as int) == str_scan_end(bytes@, scan as int),
            !has_escapes ==> forall|k: int| start <= k < scan ==> bytes@[k] != 0x5C,
        decreases n - scan,
    {
        if bytes[scan] == 0x5C {
            has_escapes = true;
            if scan + 1 >= n {
                scan = n;
            } else {
                scan += 2;
            }
        } else {
            scan += 1;
        }
    }
    if scan >= n {
        return Err(ParseError::InvalidString { message: "Unterminated string" });
    }
    let end = scan;
    let ghost sg = bytes@;
    let ghost endg = end as int;
    let ghost startg = start as int;

    let decoded: Vec<u8> = if !has_escapes {
        let sub = &bytes[start..end];
        let v = slice_to_vec(sub);
        proof {
            lemma_unescape_no_escapes(sg, startg, endg, Seq::empty());
            assert(Seq::<u8>::empty() + sg.subrange(startg, endg) =~= sg.subrange(startg, endg));
        }
        v
    } else {
        let mut out: Vec<u8> = Vec::new();
        let mut k = start;
        while k < end
            invariant
                start <= k <= end,
                unescape_acc(sg, startg, endg, Seq::empty()) == unescape_acc(
                    sg,
                    k as int,
                    endg,
                    out@,
                ),
            decreases end - k,
        {
            let b = bytes[k];
            if b == 0x5C {
                if k + 1 >= end {
                    k = end;
                } else {
                    let e = bytes[k + 1];
                    if e == 0x22 {
                        out.push(0x22);
                    } else if e == 0x5C {
                        out.push(0x5C);
                    } else if e == 0x6E {
                        out.push(0x0A);
                    } else if e == 0x72 {
                        out.push(0x0D);
                    } else if e == 0x74 {
                        out.push(0x09);
                    } else {
                        return Err(
                            ParseError::InvalidString { message: "Unsupported escape sequence" },
                        );
                    }
                    k += 2;
                }
            } else {
                out.push(b);
                k += 1;
            }
        }
        out
    };
    let ghost db = decoded@;
    match bytes_to_string(decoded) {
        Some(s2) => {
            *pos = end + 1;
            proof {
                decode_utf8_encode_utf8(db);
            }
            Ok(s2)
        },
        None => Err(ParseError::InvalidString { message: "Invalid UTF-8 in string" }),
    }
}

/// Parse an integer: 64-bit accumulation detects overflow before the
/// 32-bit range check, so a literal outside the signed 32-bit range is an
/// error, never a wrapped value. Returns exactly what `spec_parse_number`
/// says.
#[verifier::loop_isolation(false)]
pub fn parse_json_number(bytes: &[u8], pos: &mut usize) -> (r: Result<i32, ParseError>)
    ensures
        match spec_parse_number(bytes@, *old(pos) as int) {
            Ok((v, j)) => r matches Ok(n) && n == v && *final(pos) as int == j && *old(pos)
                < *final(pos) && *final(pos) as int <= bytes@.len(),
            Err(k) => r matches Err(e) && err_matches(e, k),
        },
{
    skip_whitespace(bytes, pos);
    if *pos >= bytes.len() {
        return Err(ParseError::UnexpectedEndOfInput);
    }
    let mut negative = false;
    if bytes[*pos] == 0x2D {
        negative = true;
        *pos += 1;
    }
    if *pos >= bytes.len() || !(0x30 <= bytes[*pos] && bytes[*pos] <= 0x39) {
        return Err(ParseError::InvalidNumber { message: "Expected digit" });
    }
    let ghost d_start = *pos as int;
    let ghost sg = bytes@;
    let mut result: i64 = 0;
    while *pos < bytes.len() && 0x30 <= bytes[*pos] && bytes[*pos] <= 0x39
        invariant
            d_start <= *pos as int <= bytes@.len(),
            digits_end(sg, d_start) == digits_end(sg, *pos as int),
            result == digits_val(sg, d_start, *pos as int),
            0 <= result,
        decreases bytes@.len() - *pos as int,
    {
        let digit = (bytes[*pos] - 0x30) as i64;
        if result > (i64::MAX - digit) / 10 {
            proof {
                let j = digits_end(sg, d_start);
                lemma_digits_end_bounds(sg, *pos as int);
                assert(digits_end(sg, *pos as int) == digits_end(sg, *pos as int + 1));
                lemma_digits_end_bounds(sg, *pos as int + 1);
                lemma_digits_end_bounds(sg, d_start);
                lemma_digits_val_grows(sg, d_start, *pos as int + 1, j);
                assert(digits_val(sg, d_start, *pos as int + 1) == result * 10 + digit);
            }
            return Err(ParseError::InvalidNumber { message: "Number overflow" });
        }
        result = result * 10 + digit;
        *pos += 1;
    }
    proof {
        lemma_digits_end_bounds(sg, d_start);
    }
    let final_result: i64 = if negative {
        -result
    } else {
        result
    };
    if final_result < -0x80000000i64 || final_result > 0x7FFFFFFFi64 {
        return Err(ParseError::InvalidNumber { message: "Number out of range" });
    }
    Ok(final_result as i32)
}

/// Parse a boolean literal. Returns exactly what `spec_parse_boolean`
/// says.
pub fn parse_json_boolean(bytes: &[u8], pos: &mut usize) -> (r: Result<bool, ParseError>)
    ensures
        match spec_parse_boolean(bytes@, *old(pos) as int) {
            Ok((b, j)) => r matches Ok(b2) && b2 == b && *final(pos) as int == j && *old(pos)
                < *final(pos) && *final(pos) as int <= bytes@.len(),
            Err(k) => r matches Err(e) && err_matches(e, k),
        },
{
    skip_whitespace(bytes, pos);
    if *pos >= bytes.len() {
        return Err(ParseError::UnexpectedEndOfInput);
    }
    if bytes.len() - *pos >= 4 && bytes[*pos] == 0x74 && bytes[*pos + 1] == 0x72 && bytes[*pos + 2]
        == 0x75 && bytes[*pos + 3] == 0x65 {
        *pos += 4;
        return Ok(true);
    }
    if bytes.len() - *pos >= 5 && bytes[*pos] == 0x66 && bytes[*pos + 1] == 0x61 && bytes[*pos + 2]
        == 0x6C && bytes[*pos + 3] == 0x73 && bytes[*pos + 4] == 0x65 {
        *pos += 5;
        return Ok(false);
    }
    Err(ParseError::InvalidBoolean)
}

/// Which field a member key names.
pub enum KeyKind {
    Id,
    Value,
    Flag,
    Name,
    Other,
}

/// The field named by the key bytes.
pub open spec fn classify_bytes(kb: Seq<u8>) -> KeyKind {
    if kb == key_id() {
        KeyKind::Id
    } else if kb == key_value() {
        KeyKind::Value
    } else if kb == key_flag() {
        KeyKind::Flag
    } else if kb == key_name() {
        KeyKind::Name
    } else {
        KeyKind::Other
    }
}

/// Recognize the four member keys by exact match.
fn classify_key(key: &str) -> (k: KeyKind)
    ensures
        k == classify_bytes(encode_utf8(key@)),
{
    let kb = key.as_bytes();
    if kb.len() == 2 && kb[0] == 0x69 && kb[1] == 0x64 {
        proof {
            assert(kb@ =~= key_id());
        }
        KeyKind::Id
    } else if kb.len() == 5 && kb[0] == 0x76 && kb[1] == 0x61 && kb[2] == 0x6C && kb[3] == 0x75
        && kb[4] == 0x65 {
        proof {
            assert(kb@ =~= key_value());
        }
        KeyKind::Value
    } else if kb.len() == 4 && kb[0] == 0x66 && kb[1] == 0x6C && kb[2] == 0x61 && kb[3] == 0x67 {
        proof {
            assert(kb@ =~= key_flag());
        }
        KeyKind::Flag
    } else if kb.len() == 4 && kb[0] == 0x6E && kb[1] == 0x61 && kb[2] == 0x6D && kb[3] == 0x65 {
        proof {
            assert(kb@ =~= key_name());
        }
        KeyKind::Name
    } else {
        proof {
            if kb@ == key_id() {
                assert(kb@.len() == 2 && kb@[0] == 0x69 && kb@[1] == 0x64);
            }
            if kb@ == key_value() {
                assert(kb@.len() == 5 && kb@[0] == 0x76 && kb@[1] == 0x61 && kb@[2] == 0x6C
                    && kb@[3] == 0x75 && kb@[4] == 0x65);
            }
            if kb@ == key_flag() {
                assert(kb@.len() == 4 && kb@[0] == 0x66 && kb@[1] == 0x6C && kb@[2] == 0x61
                    && kb@[3] == 0x67);
            }
            if kb@ == key_name() {
                assert(kb@.len() == 4 && kb@[0] == 0x6E && kb@[1] == 0x61 && kb@[2] == 0x6D
                    && kb@[3] == 0x65);
            }
        }
        KeyKind::Other
    }
}

/// The fields collected by the executable parser, as a model accumulator.
pub open spec fn acc_of(
    id: Option<u32>,
    value: Option<i32>,
    flag: Option<bool>,
    name: Option<String>,
) -> FieldsAcc {
    FieldsAcc {
        id: id,
        value: value,
        flag: flag,
        name: match name {
            Some(s) => Some(encode_utf8(s@)),
            None => None,
        },
    }
}

/// Parse one object into a record. Returns exactly what
/// `spec_parse_object` says.
#[verifier::loop_isolation(false)]
#[verifier::rlimit(60)]
fn parse_json_object(bytes: &[u8], pos: &mut usize) -> (r: Result<JsonRecord, ParseError>)
    ensures
        match spec_parse_object(bytes@, *old(pos) as int) {
            Ok((m, j)) => r matches Ok(rec) && rec@ == m && *final(pos) as int == j && *old(pos)
                < *final(pos) && *final(pos) as int <= bytes@.len(),
            Err(k) => r matches Err(e) && err_matches(e, k),
        },
{
    let ghost sg = bytes@;
    skip_whitespace(bytes, pos);
    if *pos >= bytes.len() || bytes[*pos] != 0x7B {
        return Err(ParseError::InvalidObjectFormat);
    }
    *pos += 1;
    let ghost entry = *pos as int;

    let mut id: Option<u32> = None;
    let mut value: Option<i32> = None;
    let mut flag: Option<bool> = None;
    let mut name: Option<String> = None;

    skip_whitespace(bytes, pos);
    if *pos < bytes.len() && bytes[*pos] == 0x7D {
        *pos += 1;
        return Err(ParseError::InvalidObjectFormat);
    }
    proof {
        lemma_skip_ws_bounds(sg, entry);
    }
    let ghost entry_acc = acc_of(id, value, flag, name);
    let mut done = false;
    while !done
        invariant
            *pos as int <= sg.len(),
            !done ==> spec_parse_members(sg, entry, entry_acc) == spec_parse_members(
                sg,
                *pos as int,
                acc_of(id, value, flag, name),
            ),
            done ==> spec_parse_members(sg, entry, entry_acc) == Ok::<(FieldsAcc, int), ErrKind>(
                (acc_of(id, value, flag, name), *pos as int),
            ),
        decreases sg.len() - *pos as int + (if done {
            0int
        } else {
            1int
        }),
    {
        let ghost p0 = *pos as int;
        let ghost acc0 = acc_of(id, value, flag, name);
        skip_whitespace(bytes, pos);
        let key = match parse_json_string_value(bytes, pos) {
            Ok(k) => k,
            Err(e) => {
                return Err(e);
            },
        };
        let ghost kb = encode_utf8(key@);
        skip_whitespace(bytes, pos);
        if *pos >= bytes.len() || bytes[*pos] != 0x3A {
            return Err(ParseError::InvalidObjectFormat);
        }
        *pos += 1;

        match classify_key(key.as_str()) {
            KeyKind::Id => {
                let v = match parse_json_number(bytes, pos) {
                    Ok(v) => v,
                    Err(e) => {
                        return Err(e);
                    },
                };
                id = Some(reinterpret_unsigned(v));
            },
            KeyKind::Value => {
                let v = match parse_json_number(bytes, pos) {
                    Ok(v) => v,
                    Err(e) => {
                        return Err(e);
                    },
                };
                value = Some(v);
            },
            KeyKind::Flag => {
                let b = match parse_json_boolean(bytes, pos) {
                    Ok(b) => b,
                    Err(e) => {
                        return Err(e);
                    },
                };
                flag = Some(b);
            },
            KeyKind::Name => {
                let s = match parse_json_string_value(bytes, pos) {
                    Ok(s) => s,
                    Err(e) => {
                        return Err(e);
                    },
                };
                name = Some(s);
            },
            KeyKind::Other => {
                return Err(ParseError::UnknownField { field: key });
            },
        }

        skip_whitespace(bytes, pos);
        if *pos >= bytes.len() {
            return Err(ParseError::UnexpectedEndOfInput);
        }
        let b = bytes[*pos];
        if b == 0x2C {
            *pos += 1;
        } else if b == 0x7D {
            *pos += 1;
            done = true;
        } else {
            return Err(ParseError::InvalidObjectFormat);
        }
    }

    proof {
        lemma_members_progress(sg, entry, entry_acc);
    }
    let id = match id {
        Some(v) => v,
        None => {
            return Err(ParseError::MissingField { field: "id" });
        },
    };
    let value = match value {
        Some(v) => v,
        None => {
            return Err(ParseError::MissingField { field: "value" });
        },
    };
    let flag = match flag {
        Some(v) => v,
        None => {
            return Err(ParseError::MissingField { field: "flag" });
        },
    };
    let name = match name {
        Some(v) => v,
        None => {
            return Err(ParseError::MissingField { field: "name" });
        },
    };
    Ok(JsonRecord { id, value, flag, name })
}

/// Parse the comma-separated objects of a non-empty array body. Returns
/// exactly what `spec_parse_elems` says.
#[verifier::loop_isolation(false)]
#[verifier::rlimit(30)]
fn parse_json_array(bytes: &[u8], pos: &mut usize) -> (r: Result<Vec<JsonRecord>, ParseError>)
    requires
        *old(pos) < bytes@.len(),
    ensures
        match spec_parse_array(bytes@, *old(pos) as int) {
            Ok((ms, j)) => r matches Ok(recs) && seq_models(recs@) == ms && *final(pos) as int == j
                && *final(pos) as int <= bytes@.len(),
            Err(k) => r matches Err(e) && err_matches(e, k),
        },
{
    let ghost sg = bytes@;
    let n = bytes.len();
    *pos += 1;
    skip_whitespace(bytes, pos);
    let mut records: Vec<JsonRecord> = Vec::new();

    if *pos < n && bytes[*pos] == 0x5D {
        *pos += 1;
        return Ok(records);
    }
    let ghost entry = *pos as int;
    proof {
        assert(seq_models(records@) =~= Seq::<RecordModel>::empty());
    }
    let mut done = false;
    while !done
        invariant
            *pos as int <= sg.len(),
            !done ==> spec_parse_elems(sg, entry, Seq::empty()) == spec_parse_elems(
                sg,
                *pos as int,
                seq_models(records@),
            ),
            done ==> spec_parse_elems(sg, entry, Seq::empty()) == Ok::<
                (Seq<RecordModel>, int),
                ErrKind,
            >((seq_models(records@), *pos as int)),
        decreases sg.len() - *pos as int + (if done {
            0int
        } else {
            1int
        }),
    {
        let ghost p0 = *pos as int;
        let ghost acc0 = seq_models(records@);
        skip_whitespace(bytes, pos);
        let record = match parse_json_object(bytes, pos) {
            Ok(rec) => rec,
            Err(e) => {
                return Err(e);
            },
        };
        let ghost m = record@;
        records.push(record);
        proof {
            assert(seq_models(records@) =~= acc0.push(m));
        }
        skip_whitespace(bytes, pos);
        if *pos >= bytes.len() {
            return Err(ParseError::UnexpectedEndOfInput);
        }
        let b = bytes[*pos];
        if b == 0x2C {
            *pos += 1;
            skip_whitespace(bytes, pos);
            if *pos < bytes.len() && bytes[*pos] == 0x5D {
                *pos += 1;
                done = true;
            }
        } else if b == 0x5D {
            *pos += 1;
            done = true;
        } else {
            return Err(ParseError::InvalidArrayFormat);
        }
    }
    Ok(records)
}

/// Parse a JSON text into records. Returns exactly what `spec_parse` says
/// of the text's UTF-8 bytes: the parsed records' models on success, and
/// the matching error kind on every failing input.
pub fn parse_json_string(json: &str) -> (r: Result<Vec<JsonRecord>, ParseError>)
    ensures
        match spec_parse(encode_utf8(json@)) {
            Ok(ms) => r matches Ok(recs) && seq_models(recs@) == ms,
            Err(k) => r matches Err(e) && err_matches(e, k),
        },
{
    let bytes = json.as_bytes();
    let mut pos: usize = 0;
    skip_whitespace(bytes, &mut pos);
    if pos >= bytes.len() || bytes[pos] != 0x5B {
        return Err(ParseError::InvalidArrayFormat);
    }
    parse_json_array(bytes, &mut pos)
}

} // verus!
