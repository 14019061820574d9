//! The chunk state machine: a streaming accumulator over up to 1024 bytes
//! that compresses each full 64-byte block into its chaining value and can
//! emit an Output for the (possibly short) final block at any point.

use vstd::prelude::*;
use crate::compress::{compress, compress_spec, first_8_words};
use crate::constants::{BLOCK_LEN, CHUNK_LEN, CHUNK_START, CHUNK_END, IV, iv_seq, lemma_iv_view};
use crate::output::{Output, OutputView};
use crate::words::{words_from_le_seq, words_from_little_endian_bytes};

verus! {

#[derive(Debug, Clone, Copy)]
pub struct ChunkState {
    pub chaining_value: [u32; 8],
    pub chunk_counter: u64,
    pub block: [u8; 64],
    pub block_len: u8,
    pub blocks_compressed: u8,
    pub flags: u32,
}

pub ghost struct ChunkStateView {
    pub chaining_value: Seq<u32>,
    pub chunk_counter: u64,
    /// Only the meaningful prefix of the block buffer: the bytes absorbed
    /// into the current block so far.
    pub block: Seq<u8>,
    pub blocks_compressed: nat,
    pub flags: u32,
}

impl View for ChunkState {
    type V = ChunkStateView;

    open spec fn view(&self) -> ChunkStateView {
        ChunkStateView {
            chaining_value: self.chaining_value@,
            chunk_counter: self.chunk_counter,
            block: self.block@.take(self.block_len as int),
            blocks_compressed: self.blocks_compressed as nat,
            flags: self.flags,
        }
    }
}

/// Structural invariant of a chunk state: the buffer holds at most one
/// block, the total absorbed byte count fits in one chunk, and the unused
/// tail of the block buffer is zero (so that reading the whole buffer as
/// words gives the zero-padded short block).
pub open spec fn chunk_state_wf(s: &ChunkState) -> bool {
    &&& s.block_len <= 64
    &&& 64 * (s.blocks_compressed as int) + (s.block_len as int) <= 1024
    &&& forall|j: int| s.block_len <= j < 64 ==> s.block@[j] == 0u8
}

/// A fresh chunk state: the key as chaining value, an empty buffer, and no
/// blocks compressed.
pub open spec fn chunk_state_fresh(key_words: Seq<u32>, chunk_counter: u64, flags: u32)
    -> ChunkStateView {
    ChunkStateView {
        chaining_value: key_words,
        chunk_counter,
        block: Seq::empty(),
        blocks_compressed: 0,
        flags,
    }
}

/// Total bytes absorbed so far.
pub open spec fn chunk_len(v: ChunkStateView) -> nat {
    (64 * v.blocks_compressed + v.block.len()) as nat
}

/// CHUNK_START when no block of this chunk has been compressed yet.
pub open spec fn start_flag_spec(v: ChunkStateView) -> u32 {
    if v.blocks_compressed == 0 {
        CHUNK_START
    } else {
        0
    }
}

/// `bytes` zero-padded to a full 64-byte block.
pub open spec fn pad64(bytes: Seq<u8>) -> Seq<u8>
    recommends
        bytes.len() <= 64,
{
    bytes + Seq::new((64 - bytes.len()) as nat, |i: int| 0u8)
}

/// Compressing the current (full) block into the chaining value; this
/// compression never carries CHUNK_END, since it only happens when more
/// input follows.
pub open spec fn chunk_compress_block(v: ChunkStateView) -> ChunkStateView
    recommends
        v.block.len() == 64,
{
    ChunkStateView {
        chaining_value: compress_spec(
            v.chaining_value,
            words_from_le_seq(v.block),
            v.chunk_counter,
            64,
            v.flags | start_flag_spec(v),
        ).subrange(0, 8),
        chunk_counter: v.chunk_counter,
        block: Seq::empty(),
        blocks_compressed: v.blocks_compressed + 1,
        flags: v.flags,
    }
}

/// Absorbing one byte: if the buffer already holds a full block it is
/// compressed first (more input is coming, so that compression is not
/// CHUNK_END), then the byte is appended to the buffer.
pub open spec fn chunk_absorb1(v: ChunkStateView, b: u8) -> ChunkStateView {
    let v1 = if v.block.len() == 64 {
        chunk_compress_block(v)
    } else {
        v
    };
    ChunkStateView {
        chaining_value: v1.chaining_value,
        chunk_counter: v1.chunk_counter,
        block: v1.block.push(b),
        blocks_compressed: v1.blocks_compressed,
        flags: v1.flags,
    }
}

/// Absorbing a byte sequence, byte by byte.
pub open spec fn chunk_absorb(v: ChunkStateView, input: Seq<u8>) -> ChunkStateView
    decreases input.len(),
{
    if input.len() == 0 {
        v
    } else {
        chunk_absorb(chunk_absorb1(v, input[0]), input.skip(1))
    }
}

pub proof fn lemma_chunk_absorb_concat(v: ChunkStateView, x: Seq<u8>, y: Seq<u8>)
    ensures
        chunk_absorb(v, x + y) == chunk_absorb(chunk_absorb(v, x), y),
    decreases x.len(),
{
    if x.len() == 0 {
        assert(x + y =~= y);
    } else {
        assert((x + y)[0] == x[0]);
        assert((x + y).skip(1) =~= x.skip(1) + y);
        lemma_chunk_absorb_concat(chunk_absorb1(v, x[0]), x.skip(1), y);
    }
}

/// Absorption does not change the chunk counter or the base flags, and it
/// adds exactly the absorbed bytes to the length.
pub proof fn lemma_chunk_absorb_len(v: ChunkStateView, input: Seq<u8>)
    requires
        chunk_len(v) + input.len() <= 1024,
        v.block.len() <= 64,
    ensures
        chunk_len(chunk_absorb(v, input)) == chunk_len(v) + input.len(),
        chunk_absorb(v, input).chunk_counter == v.chunk_counter,
        chunk_absorb(v, input).flags == v.flags,
        chunk_absorb(v, input).block.len() <= 64,
    decreases input.len(),
{
    if input.len() > 0 {
        lemma_chunk_absorb_len(chunk_absorb1(v, input[0]), input.skip(1));
    }
}

/// The Output of a chunk state: the current buffer re-read as zero-padded
/// little-endian words, with CHUNK_END (and CHUNK_START if no block was
/// compressed) set.
pub open spec fn chunk_output_spec(v: ChunkStateView) -> OutputView {
    OutputView {
        input_chaining_value: v.chaining_value,
        block_words: words_from_le_seq(pad64(v.block)),
        counter: v.chunk_counter,
        block_len: v.block.len() as u32,
        flags: v.flags | start_flag_spec(v) | CHUNK_END,
    }
}

impl ChunkState {
    pub fn new(key_words: [u32; 8], chunk_counter: u64, flags: u32) -> (r: ChunkState)
        ensures
            r@ == chunk_state_fresh(key_words@, chunk_counter, flags),
            chunk_state_wf(&r),
    {
        let r = ChunkState {
            chaining_value: key_words,
            chunk_counter,
            block: [
                0, 0, 0, 0, 0, 0, 0, 0, 0, 0, 0, 0, 0, 0, 0, 0,
                0, 0, 0, 0, 0, 0, 0, 0, 0, 0, 0, 0, 0, 0, 0, 0,
                0, 0, 0, 0, 0, 0, 0, 0, 0, 0, 0, 0, 0, 0, 0, 0,
                0, 0, 0, 0, 0, 0, 0, 0, 0, 0, 0, 0, 0, 0, 0, 0,
            ],
            block_len: 0,
            blocks_compressed: 0,
            flags,
        };
        proof {
            assert(r@.block =~= Seq::<u8>::empty());
        }
        r
    }

    pub fn len(&self) -> (r: usize)
        requires
            chunk_state_wf(self),
        ensures
            r == chunk_len(self@),
    {
        BLOCK_LEN * self.blocks_compressed as usize + self.block_len as usize
    }

    pub fn start_flag(&self) -> (r: u32)
        ensures
            r == start_flag_spec(self@),
    {
        if self.blocks_compressed == 0 {
            CHUNK_START
        } else {
            0
        }
    }

    /// Absorbs `input`, compressing each filled block (except a trailing
    /// full block, which stays buffered until more input arrives).
    pub fn update(&mut self, input: &[u8])
        requires
            chunk_state_wf(old(self)),
            chunk_len(old(self)@) + input@.len() <= 1024,
        ensures
            chunk_state_wf(final(self)),
            final(self)@ == chunk_absorb(old(self)@, input@),
    {
        let ghost g_input = input@;
        let ghost target = chunk_absorb(old(self)@, g_input);
        let n = input.len();
        let mut i: usize = 0;
        proof {
            assert(g_input.skip(0) =~= g_input);
        }
        while i < n
            invariant
                g_input == input@,
                n == g_input.len(),
                i <= n,
                chunk_state_wf(self),
                chunk_len(self@) + (n - i) <= 1024,
                chunk_absorb(self@, g_input.skip(i as int)) == target,
            decreases n - i,
        {
            let ghost v0 = self@;
            // If the block buffer is full, compress it and clear it. More
            // input is coming, so this compression is not CHUNK_END.
            if self.block_len as usize == BLOCK_LEN {
                let block_words = words_from_little_endian_bytes(&self.block);
                proof {
                    assert(pad64(v0.block) =~= self.block@);
                    assert(self.block@.take(64) =~= self.block@);
                }
                self.chaining_value = first_8_words(
                    compress(
                        &self.chaining_value,
                        &block_words,
                        self.chunk_counter,
                        BLOCK_LEN as u32,
                        self.flags | self.start_flag(),
                    ),
                );
                self.blocks_compressed = self.blocks_compressed + 1;
                self.block = [
                    0, 0, 0, 0, 0, 0, 0, 0, 0, 0, 0, 0, 0, 0, 0, 0,
                    0, 0, 0, 0, 0, 0, 0, 0, 0, 0, 0, 0, 0, 0, 0, 0,
                    0, 0, 0, 0, 0, 0, 0, 0, 0, 0, 0, 0, 0, 0, 0, 0,
                    0, 0, 0, 0, 0, 0, 0, 0, 0, 0, 0, 0, 0, 0, 0, 0,
                ];
                self.block_len = 0;
                proof {
                    assert(self@.block =~= Seq::<u8>::empty());
                    assert(self@ == chunk_compress_block(v0));
                }
            }
            let ghost v1 = self@;
            let b = input[i];
            self.block[self.block_len as usize] = b;
            self.block_len = self.block_len + 1;
            proof {
                assert(self@.block =~= v1.block.push(b));
                assert(self@ == chunk_absorb1(v0, b));
                assert(g_input.skip(i as int)[0] == g_input[i as int]);
                assert(g_input.skip(i as int).skip(1) =~= g_input.skip(i as int + 1));
            }
            i += 1;
        }
        proof {
            assert(g_input.skip(n as int) =~= Seq::<u8>::empty());
        }
    }

    /// A pure observation: the Output this chunk would finalize to now.
    pub fn output(&self) -> (r: Output)
        requires
            chunk_state_wf(self),
        ensures
            r@ == chunk_output_spec(self@),
    {
        let block_words = words_from_little_endian_bytes(&self.block);
        proof {
            assert(pad64(self@.block) =~= self.block@);
        }
        Output {
            input_chaining_value: self.chaining_value,
            block_words,
            counter: self.chunk_counter,
            block_len: self.block_len as u32,
            flags: self.flags | self.start_flag() | CHUNK_END,
        }
    }
}

/// The number of chunks a byte stream splits into (the last may be short).
pub open spec fn num_chunks(n: nat) -> nat {
    if n == 0 {
        0
    } else {
        (((n - 1) / 1024) + 1) as nat
    }
}

/// The bytes of chunk `j` of `input`.
pub open spec fn chunk_bytes(input: Seq<u8>, j: int) -> Seq<u8> {
    input.subrange(
        1024 * j,
        if 1024 * (j + 1) <= input.len() {
            1024 * (j + 1)
        } else {
            input.len() as int
        },
    )
}

/// The per-chunk Outputs of a byte stream: each chunk is run through a
/// fresh chunk state keyed with the initial values, counted by its index.
pub open spec fn chunk_outputs_spec(input: Seq<u8>) -> Seq<OutputView> {
    Seq::new(
        num_chunks(input.len()),
        |j: int|
            chunk_output_spec(
                chunk_absorb(chunk_state_fresh(iv_seq(), j as u64, 0), chunk_bytes(input, j)),
            ),
    )
}

/// The views of a sequence of Outputs.
pub open spec fn output_views(s: Seq<Output>) -> Seq<OutputView> {
    Seq::new(s.len(), |i: int| s[i]@)
}

/// Splits an input byte stream into its sequence of per-chunk Outputs, one
/// per 1024-byte chunk, the last possibly short. Empty input yields an
/// empty sequence.
pub fn process_input_to_chunks(input: &[u8]) -> (outputs: Vec<Output>)
    ensures
        output_views(outputs@) == chunk_outputs_spec(input@),
{
    let mut outputs: Vec<Output> = Vec::new();
    let mut chunk_state = ChunkState::new(IV, 0, 0);
    proof {
        lemma_iv_view();
    }
    let n = input.len();
    let mut i: usize = 0;
    while i < n
        invariant
            n == input@.len(),
            i <= n,
            chunk_state_wf(&chunk_state),
            chunk_state.chunk_counter == outputs@.len(),
            chunk_state.flags == 0,
            i == 1024 * outputs@.len() + chunk_len(chunk_state@),
            chunk_state@ == chunk_absorb(
                chunk_state_fresh(iv_seq(), chunk_state.chunk_counter, 0),
                input@.subrange(1024 * outputs@.len() as int, i as int),
            ),
            forall|j: int| #![trigger outputs@[j]] 0 <= j < outputs@.len() ==> outputs@[j]@
                == chunk_output_spec(
                chunk_absorb(chunk_state_fresh(iv_seq(), j as u64, 0), chunk_bytes(input@, j)),
            ),
        decreases n - i,
    {
        let ghost c = outputs@.len() as int;
        // If the current chunk is complete, finalize it and start the next;
        // more input is coming, so this chunk is not the root.
        if chunk_state.len() == CHUNK_LEN {
            proof {
                assert(chunk_bytes(input@, c) =~= input@.subrange(1024 * c, i as int));
            }
            let chunk_output = chunk_state.output();
            outputs.push(chunk_output);
            let total_chunks = chunk_state.chunk_counter + 1;
            chunk_state = ChunkState::new(IV, total_chunks, 0);
            proof {
                assert(input@.subrange(1024 * (c + 1), i as int) =~= Seq::<u8>::empty());
            }
        }
        let ghost c1 = outputs@.len() as int;
        let want = CHUNK_LEN - chunk_state.len();
        let rest = n - i;
        let take = if want < rest {
            want
        } else {
            rest
        };
        let piece = vstd::slice::slice_subrange(input, i, i + take);
        proof {
            lemma_chunk_absorb_concat(
                chunk_state_fresh(iv_seq(), chunk_state.chunk_counter, 0),
                input@.subrange(1024 * c1, i as int),
                piece@,
            );
            assert(input@.subrange(1024 * c1, i as int) + piece@ =~= input@.subrange(
                1024 * c1,
                i as int + take,
            ));
        }
        proof {
            lemma_chunk_absorb_len(chunk_state@, piece@);
        }
        chunk_state.update(piece);
        i += take;
    }
    // Finalize the last, possibly short, chunk if it holds any bytes.
    if chunk_state.len() > 0 {
        let ghost c = outputs@.len() as int;
        proof {
            assert(chunk_bytes(input@, c) =~= input@.subrange(1024 * c, n as int));
        }
        let chunk_output = chunk_state.output();
        outputs.push(chunk_output);
    }
    proof {
        assert(output_views(outputs@) =~= chunk_outputs_spec(input@));
    }
    outputs
}

} // verus!
