//! Conversions between byte buffers and `String`s, with the UTF-8 facts
//! the rest of the task needs.

use vstd::prelude::*;
use vstd::utf8::{
    codepoint_width_1, decode_utf8, encode_utf8, is_leading_byte_width_1, pop_first_scalar,
    valid_utf8,
};

verus! {

/// Relies on `String::from_utf8`: it returns the string exactly when the
/// bytes are a valid UTF-8 encoding, and the string's characters are the
/// decoding of those bytes.
#[verifier::external_body]
pub(crate) fn bytes_to_string(bytes: Vec<u8>) -> (r: Option<String>)
    ensures
        r is Some <==> valid_utf8(bytes@),
        r matches Some(s) ==> s@ == decode_utf8(bytes@),
{
    match String::from_utf8(bytes) {
        Ok(s) => Some(s),
        Err(_) => None,
    }
}

/// Whether every byte is ASCII.
pub open spec fn all_ascii(bs: Seq<u8>) -> bool {
    forall|i: int| 0 <= i < bs.len() ==> #[trigger] bs[i] < 0x80
}

/// A sequence of ASCII bytes is valid UTF-8 and decodes byte for byte.
pub proof fn lemma_ascii_decode(bs: Seq<u8>)
    requires
        all_ascii(bs),
    ensures
        valid_utf8(bs),
        decode_utf8(bs) == bs.map(|_i: int, b: u8| ((b as u32) as char)),
    decreases bs.len(),
{
    if bs.len() == 0 {
        assert(decode_utf8(bs) =~= bs.map(|_i: int, b: u8| ((b as u32) as char)));
    } else {
        let b0 = bs[0];
        assert(is_leading_byte_width_1(b0));
        assert(codepoint_width_1(b0) == b0 as u32) by (bit_vector)
            requires
                b0 < 0x80,
        ;
        let rest = bs.drop_first();
        assert(pop_first_scalar(bs) =~= rest);
        lemma_ascii_decode(rest);
        assert(decode_utf8(bs) =~= bs.map(|_i: int, b: u8| ((b as u32) as char)));
    }
}

/// Encoding an ASCII byte sequence's decoding gives the bytes back.
pub proof fn lemma_ascii_encode_decode(bs: Seq<u8>)
    requires
        all_ascii(bs),
    ensures
        valid_utf8(bs),
        encode_utf8(decode_utf8(bs)) == bs,
{
    lemma_ascii_decode(bs);
    vstd::utf8::decode_utf8_encode_utf8(bs);
}

/// The decimal ASCII rendering of `n`: plain digits, no leading zeros,
/// `0` rendered as `0`.
pub open spec fn dec_bytes(n: nat) -> Seq<u8>
    decreases n,
{
    if n < 10 {
        seq![(0x30 + n) as u8]
    } else {
        dec_bytes(n / 10) + seq![(0x30 + (n % 10)) as u8]
    }
}

/// Every byte of a decimal rendering is an ASCII digit, and there is at
/// least one.
pub proof fn lemma_dec_bytes_digits(n: nat)
    ensures
        dec_bytes(n).len() >= 1,
        forall|i: int|
            0 <= i < dec_bytes(n).len() ==> 0x30 <= #[trigger] dec_bytes(n)[i] <= 0x39,
    decreases n,
{
    if n >= 10 {
        lemma_dec_bytes_digits(n / 10);
    }
}

/// Append the decimal rendering of `n` to `out`.
pub fn write_u32_decimal(out: &mut Vec<u8>, n: u32)
    ensures
        final(out)@ == old(out)@ + dec_bytes(n as nat),
    decreases n,
{
    if n < 10 {
        out.push(0x30 + (n as u8));
        assert(out@ =~= old(out)@ + dec_bytes(n as nat));
    } else {
        write_u32_decimal(out, n / 10);
        out.push(0x30 + ((n % 10) as u8));
        assert(out@ =~= old(out)@ + dec_bytes(n as nat));
    }
}

} // verus!
