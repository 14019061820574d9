//! The Output record: an immutable snapshot of the inputs to a final
//! compression. It can be re-compressed to yield either an 8-word chaining
//! value (without the ROOT flag) or an arbitrary-length root byte stream
//! (with the ROOT flag and an incrementing output-block counter).

use vstd::prelude::*;
use crate::compress::{compress, compress_spec, first_8_words};
use crate::constants::{BLOCK_LEN, PARENT, ROOT};
use crate::words::le_byte;

verus! {

#[derive(Debug, Clone, Copy)]
pub struct Output {
    pub input_chaining_value: [u32; 8],
    pub block_words: [u32; 16],
    pub counter: u64,
    pub block_len: u32,
    pub flags: u32,
}

pub ghost struct OutputView {
    pub input_chaining_value: Seq<u32>,
    pub block_words: Seq<u32>,
    pub counter: u64,
    pub block_len: u32,
    pub flags: u32,
}

impl View for Output {
    type V = OutputView;

    open spec fn view(&self) -> OutputView {
        OutputView {
            input_chaining_value: self.input_chaining_value@,
            block_words: self.block_words@,
            counter: self.counter,
            block_len: self.block_len,
            flags: self.flags,
        }
    }
}

/// The chaining value an Output yields: the first eight words of its
/// compression.
pub open spec fn output_cv_spec(o: OutputView) -> Seq<u32> {
    compress_spec(o.input_chaining_value, o.block_words, o.counter, o.block_len, o.flags).subrange(
        0,
        8,
    )
}

/// Byte `i` of the root output stream of `o`: the compression is repeated
/// with the ROOT flag set and the output-block index `i / 64` as counter,
/// and its words are serialized little-endian.
pub open spec fn root_byte(o: OutputView, i: int) -> u8 {
    let words = compress_spec(
        o.input_chaining_value,
        o.block_words,
        (i / 64) as u64,
        o.block_len,
        o.flags | ROOT,
    );
    le_byte(words[(i % 64) / 4], i % 4)
}

/// The first `n` bytes of the root output stream of `o`.
pub open spec fn root_output_bytes_spec(o: OutputView, n: nat) -> Seq<u8> {
    Seq::new(n, |i: int| root_byte(o, i))
}

impl Output {
    pub fn chaining_value(&self) -> (r: [u32; 8])
        ensures
            r@ == output_cv_spec(self@),
    {
        first_8_words(
            compress(
                &self.input_chaining_value,
                &self.block_words,
                self.counter,
                self.block_len,
                self.flags,
            ),
        )
    }

    /// Overwrites `out_slice` with the root output stream, truncated to its
    /// length. The Output's own counter field is not consulted for root
    /// output: the counter is the output-block index.
    pub fn root_output_bytes(&self, out_slice: &mut Vec<u8>)
        ensures
            final(out_slice)@ == root_output_bytes_spec(self@, old(out_slice)@.len() as nat),
    {
        let n = out_slice.len();
        let mut output_block_counter: u64 = 0;
        let mut pos: usize = 0;
        while pos < n
            invariant
                out_slice@.len() == n,
                n == old(out_slice)@.len(),
                pos <= n,
                pos == 64 * output_block_counter,
                forall|j: int| #![trigger out_slice@[j]] 0 <= j < pos ==> out_slice@[j]
                    == root_byte(self@, j),
            decreases n - pos,
        {
            let words = compress(
                &self.input_chaining_value,
                &self.block_words,
                output_block_counter,
                self.block_len,
                self.flags | ROOT,
            );
            let ghost block_start = pos as int;
            let mut k: usize = 0;
            while k < 64 && pos < n
                invariant
                    out_slice@.len() == n,
                    n == old(out_slice)@.len(),
                    pos <= n,
                    k <= 64,
                    pos == block_start + k,
                    block_start == 64 * output_block_counter,
                    words@ == compress_spec(
                        self@.input_chaining_value,
                        self@.block_words,
                        output_block_counter,
                        self@.block_len,
                        self@.flags | ROOT,
                    ),
                    forall|j: int| #![trigger out_slice@[j]] 0 <= j < pos ==> out_slice@[j]
                        == root_byte(self@, j),
                decreases 64 - k,
            {
                let w = words[k / 4];
                let shift: u32 = (k as u32 % 4) * 8;
                let byte = ((w >> shift) & 0xff) as u8;
                proof {
                    crate::words::lemma_le_byte_fits(w, shift);
                    let p = pos as int;
                    assert(p / 64 == output_block_counter && (p % 64) / 4 == k / 4 && p % 4 == k
                        % 4) by (nonlinear_arith)
                        requires
                            p == 64 * output_block_counter + k,
                            0 <= k < 64,
                            0 <= output_block_counter,
                    ;
                    assert(byte == root_byte(self@, p));
                }
                out_slice.set(pos, byte);
                pos += 1;
                k += 1;
            }
            proof {
                assert(pos == n || k == 64);
            }
            if pos < n {
                output_block_counter += 1;
            } else {
                proof {
                    assert(out_slice@ =~= root_output_bytes_spec(self@, n as nat));
                }
                return ;
            }
        }
        proof {
            assert(out_slice@ =~= root_output_bytes_spec(self@, n as nat));
        }
    }
}

/// The Output of a parent node: the two child chaining values concatenated
/// as the message block, the key as chaining value, counter 0, block length
/// 64, and the PARENT flag set.
pub open spec fn parent_output_spec(
    left_child_cv: Seq<u32>,
    right_child_cv: Seq<u32>,
    key_words: Seq<u32>,
    flags: u32,
) -> OutputView {
    OutputView {
        input_chaining_value: key_words,
        block_words: left_child_cv + right_child_cv,
        counter: 0,
        block_len: 64,
        flags: PARENT | flags,
    }
}

pub fn parent_output(
    left_child_cv: [u32; 8],
    right_child_cv: [u32; 8],
    key_words: [u32; 8],
    flags: u32,
) -> (r: Output)
    ensures
        r@ == parent_output_spec(left_child_cv@, right_child_cv@, key_words@, flags),
{
    let block_words: [u32; 16] = [
        left_child_cv[0], left_child_cv[1], left_child_cv[2], left_child_cv[3],
        left_child_cv[4], left_child_cv[5], left_child_cv[6], left_child_cv[7],
        right_child_cv[0], right_child_cv[1], right_child_cv[2], right_child_cv[3],
        right_child_cv[4], right_child_cv[5], right_child_cv[6], right_child_cv[7],
    ];
    proof {
        assert(block_words@ =~= left_child_cv@ + right_child_cv@);
    }
    Output {
        input_chaining_value: key_words,
        block_words,
        counter: 0,  // Always 0 for parent nodes.
        block_len: BLOCK_LEN as u32,  // Always 64 for parent nodes.
        flags: PARENT | flags,
    }
}

/// The chaining value of a parent node built from two child chaining values.
pub open spec fn parent_cv_spec(
    left_child_cv: Seq<u32>,
    right_child_cv: Seq<u32>,
    key_words: Seq<u32>,
    flags: u32,
) -> Seq<u32> {
    output_cv_spec(parent_output_spec(left_child_cv, right_child_cv, key_words, flags))
}

pub fn parent_cv(
    left_child_cv: [u32; 8],
    right_child_cv: [u32; 8],
    key_words: [u32; 8],
    flags: u32,
) -> (r: [u32; 8])
    ensures
        r@ == parent_cv_spec(left_child_cv@, right_child_cv@, key_words@, flags),
{
    parent_output(left_child_cv, right_child_cv, key_words, flags).chaining_value()
}

} // verus!
