//! The streaming BLAKE3 hasher: the reference oracle for the Merkle tree
//! root. It keeps a stack of completed-subtree chaining values (one per one
//! bit of the completed chunk count) and a current chunk state, and
//! finalizes by folding the stack along the right edge of the tree.

use vstd::prelude::*;
use crate::chunk::{
    ChunkState, ChunkStateView, chunk_absorb, chunk_len, chunk_output_spec, chunk_state_fresh,
    chunk_state_wf, lemma_chunk_absorb_len,
};
use crate::constants::{
    CHUNK_LEN, DERIVE_KEY_CONTEXT, DERIVE_KEY_MATERIAL, IV, KEYED_HASH, KEY_LEN, iv_seq,
    lemma_iv_view,
};
use crate::numeric::{lemma_popcount_bound, lemma_popcount_succ, lemma_pow2_54, popcount, pow2,
    trailing_zeros};
use crate::output::{
    Output, OutputView, output_cv_spec, parent_cv, parent_cv_spec, parent_output,
    parent_output_spec, root_output_bytes_spec,
};
use crate::words::{key_words_from_little_endian_bytes, words_from_le_seq};
use vstd::string::StringSliceAdditionalSpecFns;

verus! {

/// An incremental hasher that can accept any number of writes, up to 2^54
/// chunks in all.
pub struct Blake3Hasher {
    chunk_state: ChunkState,
    key_words: [u32; 8],
    cv_stack: [[u32; 8]; 54],  // Space for 54 subtree chaining values:
    cv_stack_len: u8,  // 2^54 * CHUNK_LEN = 2^64
    flags: u32,
}

pub ghost struct HasherView {
    pub chunk_state: ChunkStateView,
    pub key_words: Seq<u32>,
    pub cv_stack: Seq<Seq<u32>>,
    pub flags: u32,
}

impl View for Blake3Hasher {
    type V = HasherView;

    closed spec fn view(&self) -> HasherView {
        HasherView {
            chunk_state: self.chunk_state@,
            key_words: self.key_words@,
            cv_stack: Seq::new(self.cv_stack_len as nat, |i: int| self.cv_stack@[i]@),
            flags: self.flags,
        }
    }
}

/// Structural invariant: the stack holds exactly one chaining value per one
/// bit of the completed chunk count, which therefore never exceeds 54
/// entries while fewer than 2^54 chunks have been absorbed.
pub closed spec fn hasher_wf(h: &Blake3Hasher) -> bool {
    &&& chunk_state_wf(&h.chunk_state)
    &&& h@.cv_stack.len() == popcount(h@.chunk_state.chunk_counter as nat)
    &&& h@.cv_stack.len() <= 54
    &&& h@.chunk_state.chunk_counter <= 0x3fffffffffffff
    &&& h@.chunk_state.flags == h@.flags
}

/// Total bytes absorbed.
pub open spec fn hasher_len(h: HasherView) -> int {
    1024 * (h.chunk_state.chunk_counter as int) + chunk_len(h.chunk_state)
}

/// Folding a freshly completed chunk chaining value into the stack: each
/// trailing zero bit of the new total chunk count closes one subtree, whose
/// left child is popped and merged; the merged value is then pushed.
pub open spec fn add_chunk_cv_spec(
    cv_stack: Seq<Seq<u32>>,
    new_cv: Seq<u32>,
    total_chunks: u64,
    key_words: Seq<u32>,
    flags: u32,
) -> Seq<Seq<u32>>
    decreases total_chunks,
{
    if total_chunks % 2 == 1 || total_chunks == 0 {
        cv_stack.push(new_cv)
    } else {
        add_chunk_cv_spec(
            cv_stack.drop_last(),
            parent_cv_spec(cv_stack.last(), new_cv, key_words, flags),
            total_chunks / 2,
            key_words,
            flags,
        )
    }
}

pub proof fn lemma_add_chunk_cv_len(
    cv_stack: Seq<Seq<u32>>,
    new_cv: Seq<u32>,
    total_chunks: u64,
    key_words: Seq<u32>,
    flags: u32,
)
    requires
        total_chunks >= 1,
        cv_stack.len() >= trailing_zeros(total_chunks as nat),
    ensures
        add_chunk_cv_spec(cv_stack, new_cv, total_chunks, key_words, flags).len() == cv_stack.len()
            - trailing_zeros(total_chunks as nat) + 1,
    decreases total_chunks,
{
    if total_chunks % 2 == 0 {
        lemma_add_chunk_cv_len(
            cv_stack.drop_last(),
            parent_cv_spec(cv_stack.last(), new_cv, key_words, flags),
            total_chunks / 2,
            key_words,
            flags,
        );
    }
}

/// One step of absorption: if the current chunk is complete its chaining
/// value is folded into the stack and a fresh chunk begins (the chunk is
/// only closed because more input follows); then as many bytes as fit in
/// the current chunk are absorbed.
pub open spec fn hasher_absorb(h: HasherView, input: Seq<u8>) -> HasherView
    decreases input.len(),
{
    if input.len() == 0 {
        h
    } else {
        let h1 = if chunk_len(h.chunk_state) == 1024 {
            let chunk_cv = output_cv_spec(chunk_output_spec(h.chunk_state));
            let total_chunks = (h.chunk_state.chunk_counter + 1) as u64;
            HasherView {
                chunk_state: chunk_state_fresh(h.key_words, total_chunks, h.flags),
                key_words: h.key_words,
                cv_stack: add_chunk_cv_spec(h.cv_stack, chunk_cv, total_chunks, h.key_words,
                    h.flags),
                flags: h.flags,
            }
        } else {
            h
        };
        let take = if chunk_len(h1.chunk_state) < 1024 {
            let want = 1024 - chunk_len(h1.chunk_state);
            if want < input.len() {
                want
            } else {
                input.len() as int
            }
        } else {
            input.len() as int
        };
        let h2 = HasherView {
            chunk_state: chunk_absorb(h1.chunk_state, input.take(take)),
            key_words: h1.key_words,
            cv_stack: h1.cv_stack,
            flags: h1.flags,
        };
        hasher_absorb(h2, input.skip(take))
    }
}

/// Folding the stack from the top down along the right edge of the tree,
/// starting from the current chunk's Output, yields the root Output.
pub open spec fn fold_stack_spec(
    cv_stack: Seq<Seq<u32>>,
    o: OutputView,
    key_words: Seq<u32>,
    flags: u32,
) -> OutputView
    decreases cv_stack.len(),
{
    if cv_stack.len() == 0 {
        o
    } else {
        fold_stack_spec(
            cv_stack.drop_last(),
            parent_output_spec(cv_stack.last(), output_cv_spec(o), key_words, flags),
            key_words,
            flags,
        )
    }
}

/// The root Output a hasher state finalizes to.
pub open spec fn finalize_output_spec(h: HasherView) -> OutputView {
    fold_stack_spec(h.cv_stack, chunk_output_spec(h.chunk_state), h.key_words, h.flags)
}

/// A fresh hasher with the given key words and base flags.
pub open spec fn hasher_fresh(key_words: Seq<u32>, flags: u32) -> HasherView {
    HasherView {
        chunk_state: chunk_state_fresh(key_words, 0, flags),
        key_words,
        cv_stack: Seq::empty(),
        flags,
    }
}

impl Blake3Hasher {
    fn new_internal(key_words: [u32; 8], flags: u32) -> (r: Self)
        ensures
            r@ == hasher_fresh(key_words@, flags),
            hasher_wf(&r),
    {
        let r = Blake3Hasher {
            chunk_state: ChunkState::new(key_words, 0, flags),
            key_words,
            cv_stack: [[0u32; 8]; 54],
            cv_stack_len: 0,
            flags,
        };
        proof {
            assert(r@.cv_stack =~= Seq::<Seq<u32>>::empty());
            assert(r@ == hasher_fresh(key_words@, flags));
        }
        r
    }

    /// Construct a new `Hasher` for the regular hash function.
    pub fn new() -> (r: Self)
        ensures
            r@ == hasher_fresh(iv_seq(), 0),
            hasher_wf(&r),
    {
        proof {
            lemma_iv_view();
        }
        Self::new_internal(IV, 0)
    }

    /// Construct a new `Hasher` for the keyed hash function.
    pub fn new_keyed(key: &[u8; KEY_LEN]) -> (r: Self)
        ensures
            r@ == hasher_fresh(words_from_le_seq(key@), KEYED_HASH),
            hasher_wf(&r),
    {
        let key_words = key_words_from_little_endian_bytes(key);
        Self::new_internal(key_words, KEYED_HASH)
    }

    /// Construct a new `Hasher` for the key derivation function: the context
    /// string is hashed with DERIVE_KEY_CONTEXT, and its first 32 output
    /// bytes, read as little-endian words, key a hasher in
    /// DERIVE_KEY_MATERIAL mode. The context string should be hardcoded,
    /// globally unique, and application-specific.
    pub fn new_derive_key(context: &str) -> (r: Self)
        requires
            context.spec_bytes().len() <= 0x1000_0000_0000_0000,
        ensures
            r@ == hasher_fresh(
                words_from_le_seq(
                    root_output_bytes_spec(
                        finalize_output_spec(
                            hasher_absorb(
                                hasher_fresh(iv_seq(), DERIVE_KEY_CONTEXT),
                                context.spec_bytes(),
                            ),
                        ),
                        32,
                    ),
                ),
                DERIVE_KEY_MATERIAL,
            ),
            hasher_wf(&r),
    {
        proof {
            lemma_iv_view();
        }
        let mut context_hasher = Self::new_internal(IV, DERIVE_KEY_CONTEXT);
        context_hasher.update(context.as_bytes());
        let mut context_key: Vec<u8> = Vec::new();
        let mut j: usize = 0;
        while j < KEY_LEN
            invariant
                context_key@.len() == j,
                j <= KEY_LEN,
            decreases KEY_LEN - j,
        {
            context_key.push(0);
            j += 1;
        }
        context_hasher.finalize(&mut context_key);
        let mut key_arr: [u8; 32] = [0; 32];
        let mut k: usize = 0;
        while k < KEY_LEN
            invariant
                k <= KEY_LEN,
                context_key@.len() == KEY_LEN,
                forall|t: int| #![trigger key_arr@[t]] 0 <= t < k ==> key_arr@[t]
                    == context_key@[t],
            decreases KEY_LEN - k,
        {
            key_arr[k] = context_key[k];
            k += 1;
        }
        proof {
            assert(key_arr@ =~= context_key@);
        }
        let context_key_words = key_words_from_little_endian_bytes(&key_arr);
        Self::new_internal(context_key_words, DERIVE_KEY_MATERIAL)
    }

    fn push_stack(&mut self, cv: [u32; 8])
        requires
            old(self).cv_stack_len < 54,
        ensures
            final(self)@.cv_stack == old(self)@.cv_stack.push(cv@),
            final(self)@.key_words == old(self)@.key_words,
            final(self)@.flags == old(self)@.flags,
            final(self).chunk_state == old(self).chunk_state,
            final(self).key_words == old(self).key_words,
            final(self).flags == old(self).flags,
    {
        self.cv_stack[self.cv_stack_len as usize] = cv;
        self.cv_stack_len = self.cv_stack_len + 1;
        proof {
            assert(self@.cv_stack =~= old(self)@.cv_stack.push(cv@));
        }
    }

    fn pop_stack(&mut self) -> (r: [u32; 8])
        requires
            1 <= old(self).cv_stack_len <= 54,
        ensures
            r@ == old(self)@.cv_stack.last(),
            final(self)@.cv_stack == old(self)@.cv_stack.drop_last(),
            final(self)@.key_words == old(self)@.key_words,
            final(self)@.flags == old(self)@.flags,
            final(self).chunk_state == old(self).chunk_state,
            final(self).key_words == old(self).key_words,
            final(self).flags == old(self).flags,
    {
        self.cv_stack_len = self.cv_stack_len - 1;
        let r = self.cv_stack[self.cv_stack_len as usize];
        proof {
            assert(self@.cv_stack =~= old(self)@.cv_stack.drop_last());
        }
        r
    }

    /// Folds a completed chunk's chaining value into the stack: one merge
    /// per trailing zero bit of the new total chunk count.
    fn add_chunk_chaining_value(&mut self, new_cv: [u32; 8], total_chunks: u64)
        requires
            total_chunks >= 1,
            old(self)@.cv_stack.len() <= 54,
            old(self)@.cv_stack.len() >= trailing_zeros(total_chunks as nat),
            old(self)@.cv_stack.len() - trailing_zeros(total_chunks as nat) + 1 <= 54,
        ensures
            final(self)@.cv_stack == add_chunk_cv_spec(
                old(self)@.cv_stack,
                new_cv@,
                total_chunks,
                old(self)@.key_words,
                old(self)@.flags,
            ),
            final(self)@.key_words == old(self)@.key_words,
            final(self)@.flags == old(self)@.flags,
            final(self).chunk_state == old(self).chunk_state,
            final(self).key_words == old(self).key_words,
            final(self).flags == old(self).flags,
    {
        let ghost target = add_chunk_cv_spec(
            old(self)@.cv_stack,
            new_cv@,
            total_chunks,
            old(self)@.key_words,
            old(self)@.flags,
        );
        let mut cv = new_cv;
        let mut total = total_chunks;
        while total & 1 == 0
            invariant
                total >= 1,
                self@.cv_stack.len() <= 54,
                self@.cv_stack.len() >= trailing_zeros(total as nat),
                self@.cv_stack.len() - trailing_zeros(total as nat) + 1 <= 54,
                self@.key_words == old(self)@.key_words,
                self@.flags == old(self)@.flags,
                self.chunk_state == old(self).chunk_state,
                self.key_words == old(self).key_words,
                self.flags == old(self).flags,
                add_chunk_cv_spec(self@.cv_stack, cv@, total, old(self)@.key_words,
                    old(self)@.flags) == target,
            decreases total,
        {
            proof {
                assert(total & 1 == total % 2) by (bit_vector);
                assert(total >> 1u64 == total / 2) by (bit_vector);
            }
            let left = self.pop_stack();
            cv = parent_cv(left, cv, self.key_words, self.flags);
            total = total >> 1;
        }
        proof {
            assert(total & 1 == total % 2) by (bit_vector);
        }
        self.push_stack(cv);
    }

    /// Add input to the hash state. This can be called any number of times,
    /// as long as the total input stays within 2^54 chunks.
    pub fn update(&mut self, input: &[u8])
        requires
            hasher_wf(old(self)),
            hasher_len(old(self)@) + input@.len() <= 0x1_0000_0000_0000_0000,
        ensures
            hasher_wf(final(self)),
            final(self)@ == hasher_absorb(old(self)@, input@),
    {
        let ghost g_input = input@;
        let ghost target = hasher_absorb(old(self)@, g_input);
        let n = input.len();
        let mut i: usize = 0;
        proof {
            assert(g_input.skip(0) =~= g_input);
        }
        while i < n
            invariant
                g_input == input@,
                n == g_input.len(),
                i <= n,
                hasher_wf(self),
                hasher_len(self@) + (n - i) <= 0x1_0000_0000_0000_0000,
                hasher_absorb(self@, g_input.skip(i as int)) == target,
            decreases n - i,
        {
            let ghost h0 = self@;
            // If the current chunk is complete, finalize it and reset the
            // chunk state. More input is coming, so this chunk is not ROOT.
            if self.chunk_state.len() == CHUNK_LEN {
                let chunk_cv = self.chunk_state.output().chaining_value();
                let total_chunks = self.chunk_state.chunk_counter + 1;
                proof {
                    let c = h0.chunk_state.chunk_counter as nat;
                    lemma_popcount_succ(c);
                    lemma_pow2_54();
                    lemma_popcount_bound((c + 1) as nat, 54);
                }
                self.add_chunk_chaining_value(chunk_cv, total_chunks);
                self.chunk_state = ChunkState::new(self.key_words, total_chunks, self.flags);
                proof {
                    let c = h0.chunk_state.chunk_counter as nat;
                    lemma_add_chunk_cv_len(
                        h0.cv_stack,
                        output_cv_spec(chunk_output_spec(h0.chunk_state)),
                        total_chunks,
                        h0.key_words,
                        h0.flags,
                    );
                    assert(self@.cv_stack.len() == popcount((c + 1) as nat));
                }
            }
            let ghost h1 = self@;
            // Compress input bytes into the current chunk state.
            let want = CHUNK_LEN - self.chunk_state.len();
            let rest = n - i;
            let take = if want < rest {
                want
            } else {
                rest
            };
            let piece = vstd::slice::slice_subrange(input, i, i + take);
            proof {
                assert(g_input.skip(i as int).take(take as int) =~= piece@);
                assert(g_input.skip(i as int).skip(take as int) =~= g_input.skip(i as int
                    + take as int));
                lemma_chunk_absorb_len(self@.chunk_state, piece@);
            }
            self.chunk_state.update(piece);
            i += take;
        }
        proof {
            assert(g_input.skip(n as int) =~= Seq::<u8>::empty());
        }
    }

    /// Finalize the hash and write any number of output bytes. The hasher
    /// itself is not consumed or changed.
    pub fn finalize(&self, out_slice: &mut Vec<u8>)
        requires
            hasher_wf(self),
        ensures
            final(out_slice)@ == root_output_bytes_spec(
                finalize_output_spec(self@),
                old(out_slice)@.len() as nat,
            ),
    {
        // Starting with the Output from the current chunk, compute all the
        // parent chaining values along the right edge of the tree, until we
        // have the root Output.
        let mut output = self.chunk_state.output();
        let mut parent_nodes_remaining = self.cv_stack_len as usize;
        proof {
            assert(self@.cv_stack.take(self.cv_stack_len as int) =~= self@.cv_stack);
        }
        while parent_nodes_remaining > 0
            invariant
                self.cv_stack_len <= 54,
                parent_nodes_remaining <= self.cv_stack_len,
                fold_stack_spec(
                    self@.cv_stack.take(parent_nodes_remaining as int),
                    output@,
                    self@.key_words,
                    self@.flags,
                ) == finalize_output_spec(self@),
            decreases parent_nodes_remaining,
        {
            parent_nodes_remaining = parent_nodes_remaining - 1;
            let ghost pre = self@.cv_stack.take(parent_nodes_remaining as int + 1);
            proof {
                assert(pre.last() == self@.cv_stack[parent_nodes_remaining as int]);
                assert(pre.drop_last() =~= self@.cv_stack.take(parent_nodes_remaining as int));
            }
            output = parent_output(
                self.cv_stack[parent_nodes_remaining],
                output.chaining_value(),
                self.key_words,
                self.flags,
            );
        }
        proof {
            assert(self@.cv_stack.take(0) =~= Seq::<Seq<u32>>::empty());
        }
        output.root_output_bytes(out_slice);
    }
}

} // verus!
