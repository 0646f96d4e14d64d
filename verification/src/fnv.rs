//! Model of the 32-bit FNV-1a hash used as the cross-implementation
//! verification signal: starting from the offset basis, each byte is
//! folded in by `acc = (acc XOR byte) * 16777619 (mod 2^32)`.

use vstd::prelude::*;

verus! {

/// The FNV-1a 32-bit offset basis.
pub open spec fn fnv_offset_basis() -> u32 {
    2166136261u32
}

/// Folding one byte into the accumulator.
pub open spec fn fnv_fold(h: u32, b: u8) -> u32 {
    (h ^ (b as u32)).wrapping_mul(16777619)
}

/// Folding a byte sequence into the accumulator, left to right.
pub open spec fn fnv_bytes(h: u32, bs: Seq<u8>) -> u32
    decreases bs.len(),
{
    if bs.len() == 0 {
        h
    } else {
        fnv_bytes(fnv_fold(h, bs[0]), bs.drop_first())
    }
}

/// The four bytes of `x` in little-endian order.
pub open spec fn u32_le_bytes(x: u32) -> Seq<u8> {
    seq![
        (x % 256) as u8,
        ((x / 256) % 256) as u8,
        ((x / 65536) % 256) as u8,
        ((x / 16777216) % 256) as u8,
    ]
}

/// Folding distributes over concatenation: hashing `a + b` is hashing `b`
/// starting from the hash of `a`.
pub proof fn lemma_fnv_bytes_concat(h: u32, a: Seq<u8>, b: Seq<u8>)
    ensures
        fnv_bytes(h, a + b) == fnv_bytes(fnv_bytes(h, a), b),
    decreases a.len(),
{
    if a.len() == 0 {
        assert(a + b =~= b);
    } else {
        assert((a + b).drop_first() =~= a.drop_first() + b);
        lemma_fnv_bytes_concat(fnv_fold(h, a[0]), a.drop_first(), b);
    }
}

/// Folding a single byte is one fold step.
pub proof fn lemma_fnv_bytes_one(h: u32, b: u8)
    ensures
        fnv_bytes(h, seq![b]) == fnv_fold(h, b),
{
    reveal_with_fuel(fnv_bytes, 2);
    assert(seq![b].drop_first() =~= Seq::<u8>::empty());
}

} // verus!
