//! Little-endian conversions between byte buffers and 32-bit words.

use vstd::prelude::*;

verus! {

/// The word at byte offset `4 * k` of `bytes`, read little-endian.
pub open spec fn word_from_le(bytes: Seq<u8>, k: int) -> u32
    recommends
        0 <= k,
        4 * k + 4 <= bytes.len(),
{
    (bytes[4 * k] as u32) | (bytes[4 * k + 1] as u32) << 8u32 | (bytes[4 * k + 2] as u32) << 16u32
        | (bytes[4 * k + 3] as u32) << 24u32
}

/// All of `bytes` reinterpreted as little-endian words.
pub open spec fn words_from_le_seq(bytes: Seq<u8>) -> Seq<u32> {
    Seq::new((bytes.len() / 4) as nat, |i: int| word_from_le(bytes, i))
}

/// Byte `k` (0-based, least significant first) of the little-endian
/// serialization of `w`.
pub open spec fn le_byte(w: u32, k: int) -> u8 {
    ((w >> (8 * k) as u32) & 0xff) as u8
}

pub proof fn lemma_le_byte_fits(w: u32, n: u32)
    ensures
        (w >> n) & 0xff < 256,
{
    assert((w >> n) & 0xff < 256) by (bit_vector);
}

/// Reads a 64-byte block buffer as 16 little-endian words.
pub fn words_from_little_endian_bytes(bytes: &[u8; 64]) -> (words: [u32; 16])
    ensures
        words@ == words_from_le_seq(bytes@),
{
    let mut words: [u32; 16] = [0, 0, 0, 0, 0, 0, 0, 0, 0, 0, 0, 0, 0, 0, 0, 0];
    let mut i: usize = 0;
    while i < 16
        invariant
            i <= 16,
            words@.len() == 16,
            forall|j: int| #![trigger words@[j]] 0 <= j < i ==> words@[j] == word_from_le(bytes@, j),
        decreases 16 - i,
    {
        words[i] = (bytes[4 * i] as u32) | (bytes[4 * i + 1] as u32) << 8
            | (bytes[4 * i + 2] as u32) << 16 | (bytes[4 * i + 3] as u32) << 24;
        i += 1;
    }
    proof {
        assert(words@ =~= words_from_le_seq(bytes@));
    }
    words
}

/// Reads a 32-byte key as 8 little-endian words.
pub fn key_words_from_little_endian_bytes(bytes: &[u8; 32]) -> (words: [u32; 8])
    ensures
        words@ == words_from_le_seq(bytes@),
{
    let mut words: [u32; 8] = [0, 0, 0, 0, 0, 0, 0, 0];
    let mut i: usize = 0;
    while i < 8
        invariant
            i <= 8,
            words@.len() == 8,
            forall|j: int| #![trigger words@[j]] 0 <= j < i ==> words@[j] == word_from_le(bytes@, j),
        decreases 8 - i,
    {
        words[i] = (bytes[4 * i] as u32) | (bytes[4 * i + 1] as u32) << 8
            | (bytes[4 * i + 2] as u32) << 16 | (bytes[4 * i + 3] as u32) << 24;
        i += 1;
    }
    proof {
        assert(words@ =~= words_from_le_seq(bytes@));
    }
    words
}

} // verus!
