//! Record and error types for the JSON benchmark, together with their
//! mathematical models.

use vstd::prelude::*;
use vstd::utf8::encode_utf8;

verus! {

/// FNV-1a 32-bit offset basis.
pub const FNV_OFFSET_BASIS: u32 = 2166136261;

/// FNV-1a 32-bit prime.
pub const FNV_PRIME: u32 = 16777619;

/// Linear congruential generator multiplier (Numerical Recipes).
pub const LCG_MULTIPLIER: u32 = 1664525;

/// Linear congruential generator increment (Numerical Recipes).
pub const LCG_INCREMENT: u32 = 1013904223;

/// The unit of JSON data exchanged by the benchmark.
#[derive(Debug, Clone, PartialEq)]
pub struct JsonRecord {
    pub id: u32,
    pub value: i32,
    pub flag: bool,
    pub name: String,
}

/// Mathematical model of a record: its plain fields, with the name as the
/// raw UTF-8 bytes that the serializer writes and the hash folds in.
#[verifier::ext_equal]
pub struct RecordModel {
    pub id: u32,
    pub value: i32,
    pub flag: bool,
    pub name: Seq<u8>,
}

impl View for JsonRecord {
    type V = RecordModel;

    open spec fn view(&self) -> RecordModel {
        RecordModel {
            id: self.id,
            value: self.value,
            flag: self.flag,
            name: encode_utf8(self.name@),
        }
    }
}

/// The models of a sequence of records.
pub open spec fn seq_models(rs: Seq<JsonRecord>) -> Seq<RecordModel> {
    rs.map(|_i: int, r: JsonRecord| r@)
}

/// The signed value with the same 32-bit pattern as `u`.
pub open spec fn u32_to_i32(u: u32) -> i32 {
    if u < 0x80000000 {
        u as i32
    } else {
        (u - 0x100000000) as i32
    }
}

/// The unsigned value with the same 32-bit pattern as `v`.
pub open spec fn i32_to_u32(v: i32) -> u32 {
    if v >= 0 {
        v as u32
    } else {
        (v + 0x100000000) as u32
    }
}

/// Reinterpret a signed value's 32-bit pattern as unsigned.
pub(crate) fn reinterpret_unsigned(v: i32) -> (u: u32)
    ensures
        u == i32_to_u32(v),
{
    if v >= 0 {
        v as u32
    } else {
        ((v as i64) + 0x100000000) as u32
    }
}

/// Why a parse failed.
#[derive(Debug, Clone, PartialEq)]
pub enum ParseError {
    UnexpectedEndOfInput,
    InvalidNumber { message: &'static str },
    InvalidString { message: &'static str },
    InvalidBoolean,
    MissingField { field: &'static str },
    UnknownField { field: String },
    InvalidArrayFormat,
    InvalidObjectFormat,
}

/// Model of a parse failure: the error kind, with the offending field
/// name where one is reported.
pub enum ErrKind {
    Eof,
    Num,
    Str,
    Bool,
    Missing(Seq<char>),
    Unknown(Seq<u8>),
    Array,
    Object,
}

/// Whether the executable error `e` reports the model error `k`.
pub open spec fn err_matches(e: ParseError, k: ErrKind) -> bool {
    match k {
        ErrKind::Eof => e is UnexpectedEndOfInput,
        ErrKind::Num => e is InvalidNumber,
        ErrKind::Str => e is InvalidString,
        ErrKind::Bool => e is InvalidBoolean,
        ErrKind::Missing(f) => e matches ParseError::MissingField { field } && field@ == f,
        ErrKind::Unknown(kb) => e matches ParseError::UnknownField { field } && encode_utf8(
            field@,
        ) == kb,
        ErrKind::Array => e is InvalidArrayFormat,
        ErrKind::Object => e is InvalidObjectFormat,
    }
}

} // verus!
