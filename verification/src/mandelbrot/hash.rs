//! FNV-1a hashing of a word array for cross-implementation verification.

use crate::fnv::{fnv_bytes, fnv_fold, fnv_offset_basis, lemma_fnv_bytes_concat, u32_le_bytes};
use vstd::prelude::*;

verus! {

/// The byte stream hashed for a word array: each word as four
/// little-endian bytes, in sequence order.
pub open spec fn words_hash_input(ws: Seq<u32>) -> Seq<u8>
    decreases ws.len(),
{
    if ws.len() == 0 {
        Seq::empty()
    } else {
        words_hash_input(ws.drop_last()) + u32_le_bytes(ws.last())
    }
}

/// FNV-1a hash of a word array: the words' little-endian bytes folded
/// into the offset basis; an empty array hashes to the basis itself.
pub fn fnv1a_hash_u32(data: &[u32]) -> (h: u32)
    ensures
        h == fnv_bytes(fnv_offset_basis(), words_hash_input(data@)),
        data@.len() == 0 ==> h == 2166136261u32,
{
    let mut hash: u32 = 2166136261;
    let n = data.len();
    let mut i: usize = 0;
    while i < n
        invariant
            i <= n,
            n == data@.len(),
            hash == fnv_bytes(fnv_offset_basis(), words_hash_input(data@.take(i as int))),
        decreases n - i,
    {
        let ghost pre = data@.take(i as int);
        let w = data[i];
        let h0 = hash;
        let hash1 = fnv_fold_exec(h0, (w % 256) as u8);
        let hash2 = fnv_fold_exec(hash1, ((w / 256) % 256) as u8);
        let hash3 = fnv_fold_exec(hash2, ((w / 65536) % 256) as u8);
        hash = fnv_fold_exec(hash3, ((w / 16777216) % 256) as u8);
        proof {
            lemma_fnv_fold_le4(h0, w);
            lemma_fnv_bytes_concat(fnv_offset_basis(), words_hash_input(pre), u32_le_bytes(w));
            assert(data@.take(i + 1).drop_last() =~= pre);
            assert(data@.take(i + 1).last() == w);
        }
        i = i + 1;
    }
    proof {
        assert(data@.take(n as int) =~= data@);
    }
    hash
}

/// One FNV-1a fold step.
pub(crate) fn fnv_fold_exec(h: u32, b: u8) -> (r: u32)
    ensures
        r == fnv_fold(h, b),
{
    (h ^ (b as u32)).wrapping_mul(16777619)
}

/// Folding the four little-endian bytes of a word, one step at a time.
pub(crate) proof fn lemma_fnv_fold_le4(h: u32, w: u32)
    ensures
        fnv_bytes(h, u32_le_bytes(w)) == fnv_fold(
            fnv_fold(fnv_fold(fnv_fold(h, (w % 256) as u8), ((w / 256) % 256) as u8), ((w / 65536)
                % 256) as u8),
            ((w / 16777216) % 256) as u8,
        ),
{
    let bs = u32_le_bytes(w);
    reveal_with_fuel(fnv_bytes, 5);
    assert(bs.drop_first() =~= seq![((w / 256) % 256) as u8, ((w / 65536) % 256) as u8, ((w
        / 16777216) % 256) as u8]);
    assert(bs.drop_first().drop_first() =~= seq![((w / 65536) % 256) as u8, ((w / 16777216)
        % 256) as u8]);
    assert(bs.drop_first().drop_first().drop_first() =~= seq![((w / 16777216) % 256) as u8]);
    assert(bs.drop_first().drop_first().drop_first().drop_first() =~= Seq::<u8>::empty());
}

} // verus!
