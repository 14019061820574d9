//! The BLAKE3 compression primitive: seven rounds of the G mixing function
//! over a 16-word state, with the fixed message permutation between rounds.

use vstd::prelude::*;
use crate::constants::{IV, iv_seq, lemma_iv_view};

verus! {

/// Circular right rotation of a 32-bit word.
pub open spec fn rotr(x: u32, n: u32) -> u32
    recommends
        0 < n < 32,
{
    (x >> n) | (x << ((32 - n) as u32))
}

fn rotate_right_word(x: u32, n: u32) -> (r: u32)
    requires
        0 < n < 32,
    ensures
        r == rotr(x, n),
{
    (x >> n) | (x << (32 - n))
}

/// One G mix: the quarter-round of BLAKE3 acting on state words `a`, `b`,
/// `c`, `d` with message words `mx`, `my`. All additions wrap.
pub open spec fn g_spec(v: Seq<u32>, a: int, b: int, c: int, d: int, mx: u32, my: u32) -> Seq<u32>
    recommends
        v.len() == 16,
        0 <= a < 16,
        0 <= b < 16,
        0 <= c < 16,
        0 <= d < 16,
{
    let va1 = v[a].wrapping_add(v[b]).wrapping_add(mx);
    let vd1 = rotr(v[d] ^ va1, 16);
    let vc1 = v[c].wrapping_add(vd1);
    let vb1 = rotr(v[b] ^ vc1, 12);
    let va2 = va1.wrapping_add(vb1).wrapping_add(my);
    let vd2 = rotr(vd1 ^ va2, 8);
    let vc2 = vc1.wrapping_add(vd2);
    let vb2 = rotr(vb1 ^ vc2, 7);
    v.update(a, va2).update(b, vb2).update(c, vc2).update(d, vd2)
}

fn g(state: &mut [u32; 16], a: usize, b: usize, c: usize, d: usize, mx: u32, my: u32)
    requires
        a < 16,
        b < 16,
        c < 16,
        d < 16,
        a != b,
        a != c,
        a != d,
        b != c,
        b != d,
        c != d,
    ensures
        final(state)@ == g_spec(old(state)@, a as int, b as int, c as int, d as int, mx, my),
{
    state[a] = state[a].wrapping_add(state[b]).wrapping_add(mx);
    state[d] = rotate_right_word(state[d] ^ state[a], 16);
    state[c] = state[c].wrapping_add(state[d]);
    state[b] = rotate_right_word(state[b] ^ state[c], 12);
    state[a] = state[a].wrapping_add(state[b]).wrapping_add(my);
    state[d] = rotate_right_word(state[d] ^ state[a], 8);
    state[c] = state[c].wrapping_add(state[d]);
    state[b] = rotate_right_word(state[b] ^ state[c], 7);
    proof {
        assert(state@ =~= g_spec(old(state)@, a as int, b as int, c as int, d as int, mx, my));
    }
}

/// One full round: the eight G mixes over the columns and then the
/// diagonals of the 4x4 state, with message words taken in order.
pub open spec fn round_spec(v: Seq<u32>, m: Seq<u32>) -> Seq<u32>
    recommends
        v.len() == 16,
        m.len() == 16,
{
    let v1 = g_spec(v, 0, 4, 8, 12, m[0], m[1]);
    let v2 = g_spec(v1, 1, 5, 9, 13, m[2], m[3]);
    let v3 = g_spec(v2, 2, 6, 10, 14, m[4], m[5]);
    let v4 = g_spec(v3, 3, 7, 11, 15, m[6], m[7]);
    let v5 = g_spec(v4, 0, 5, 10, 15, m[8], m[9]);
    let v6 = g_spec(v5, 1, 6, 11, 12, m[10], m[11]);
    let v7 = g_spec(v6, 2, 7, 8, 13, m[12], m[13]);
    g_spec(v7, 3, 4, 9, 14, m[14], m[15])
}

fn round(state: &mut [u32; 16], m: &[u32; 16])
    ensures
        final(state)@ == round_spec(old(state)@, m@),
{
    // Mix the columns.
    g(state, 0, 4, 8, 12, m[0], m[1]);
    g(state, 1, 5, 9, 13, m[2], m[3]);
    g(state, 2, 6, 10, 14, m[4], m[5]);
    g(state, 3, 7, 11, 15, m[6], m[7]);
    // Mix the diagonals.
    g(state, 0, 5, 10, 15, m[8], m[9]);
    g(state, 1, 6, 11, 12, m[10], m[11]);
    g(state, 2, 7, 8, 13, m[12], m[13]);
    g(state, 3, 4, 9, 14, m[14], m[15]);
}

/// The fixed schedule by which message words are rearranged between rounds.
pub open spec fn msg_permutation() -> Seq<int> {
    seq![2, 6, 3, 10, 7, 0, 4, 13, 1, 11, 12, 5, 9, 14, 15, 8]
}

pub open spec fn permute_spec(m: Seq<u32>) -> Seq<u32>
    recommends
        m.len() == 16,
{
    Seq::new(16, |i: int| m[msg_permutation()[i]])
}

fn permute(m: &mut [u32; 16])
    ensures
        final(m)@ == permute_spec(old(m)@),
{
    let permuted: [u32; 16] = [
        m[2], m[6], m[3], m[10], m[7], m[0], m[4], m[13],
        m[1], m[11], m[12], m[5], m[9], m[14], m[15], m[8],
    ];
    *m = permuted;
    proof {
        assert(m@ =~= permute_spec(old(m)@));
    }
}

/// The BLAKE3 compression function: initializes the 16-word state from the
/// chaining value, the initial-value constants, the counter, the block
/// length and the flags; applies seven rounds with the message permutation
/// between them; then folds the halves with the chaining value.
#[verifier::opaque]
pub open spec fn compress_spec(
    cv: Seq<u32>,
    block: Seq<u32>,
    counter: u64,
    block_len: u32,
    flags: u32,
) -> Seq<u32>
    recommends
        cv.len() == 8,
        block.len() == 16,
{
    let st = seq![
        cv[0], cv[1], cv[2], cv[3], cv[4], cv[5], cv[6], cv[7],
        iv_seq()[0], iv_seq()[1], iv_seq()[2], iv_seq()[3],
        counter as u32, (counter >> 32) as u32, block_len, flags,
    ];
    let s1 = round_spec(st, block);
    let m1 = permute_spec(block);
    let s2 = round_spec(s1, m1);
    let m2 = permute_spec(m1);
    let s3 = round_spec(s2, m2);
    let m3 = permute_spec(m2);
    let s4 = round_spec(s3, m3);
    let m4 = permute_spec(m3);
    let s5 = round_spec(s4, m4);
    let m5 = permute_spec(m4);
    let s6 = round_spec(s5, m5);
    let m6 = permute_spec(m5);
    let s7 = round_spec(s6, m6);
    Seq::new(16, |i: int| if i < 8 { s7[i] ^ s7[i + 8] } else { s7[i] ^ cv[i - 8] })
}

#[verifier::rlimit(100)]
#[verifier::loop_isolation(false)]
pub fn compress(
    chaining_value: &[u32; 8],
    block_words: &[u32; 16],
    counter: u64,
    block_len: u32,
    flags: u32,
) -> (r: [u32; 16])
    ensures
        r@ == compress_spec(chaining_value@, block_words@, counter, block_len, flags),
{
    let counter_low = #[verifier::truncate] (counter as u32);
    let counter_high = #[verifier::truncate] ((counter >> 32) as u32);
    let mut state: [u32; 16] = [
        chaining_value[0], chaining_value[1], chaining_value[2], chaining_value[3],
        chaining_value[4], chaining_value[5], chaining_value[6], chaining_value[7],
        IV[0], IV[1], IV[2], IV[3],
        counter_low, counter_high, block_len, flags,
    ];
    let ghost st0 = seq![
        chaining_value@[0], chaining_value@[1], chaining_value@[2], chaining_value@[3],
        chaining_value@[4], chaining_value@[5], chaining_value@[6], chaining_value@[7],
        iv_seq()[0], iv_seq()[1], iv_seq()[2], iv_seq()[3],
        counter as u32, (counter >> 32) as u32, block_len, flags,
    ];
    proof {
        lemma_iv_view();
        assert(state@ =~= st0);
    }
    let mut block = *block_words;

    round(&mut state, &block); // round 1
    permute(&mut block);
    round(&mut state, &block); // round 2
    permute(&mut block);
    round(&mut state, &block); // round 3
    permute(&mut block);
    round(&mut state, &block); // round 4
    permute(&mut block);
    round(&mut state, &block); // round 5
    permute(&mut block);
    round(&mut state, &block); // round 6
    permute(&mut block);
    round(&mut state, &block); // round 7

    let ghost s7 = state@;
    let mut i: usize = 0;
    while i < 8
        invariant
            i <= 8,
            state@.len() == 16,
            s7.len() == 16,
            chaining_value@.len() == 8,
            forall|j: int| #![trigger state@[j]] 0 <= j < 16 ==> state@[j] == (
                if j < i {
                    s7[j] ^ s7[j + 8]
                } else if j < 8 {
                    s7[j]
                } else if j < i + 8 {
                    s7[j] ^ chaining_value@[j - 8]
                } else {
                    s7[j]
                }),
        decreases 8 - i,
    {
        state[i] = state[i] ^ state[i + 8];
        state[i + 8] = state[i + 8] ^ chaining_value[i];
        i += 1;
    }
    proof {
        reveal(compress_spec);
        assert(state@ =~= compress_spec(chaining_value@, block_words@, counter, block_len, flags));
    }
    state
}

/// The first eight words of a compression output: the chaining value it
/// yields when it is not a root compression.
pub fn first_8_words(compression_output: [u32; 16]) -> (r: [u32; 8])
    ensures
        r@ == compression_output@.subrange(0, 8),
{
    let r: [u32; 8] = [
        compression_output[0], compression_output[1], compression_output[2],
        compression_output[3], compression_output[4], compression_output[5],
        compression_output[6], compression_output[7],
    ];
    proof {
        assert(r@ =~= compression_output@.subrange(0, 8));
    }
    r
}

} // verus!
