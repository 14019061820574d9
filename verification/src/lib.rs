//! Incremental, content-addressed digest over large byte streams.
//!
//! The root of the balanced Merkle tree built from per-chunk BLAKE3 chunk
//! outputs equals the standard BLAKE3 hash of the same stream whenever the
//! input is a power-of-two number of 1024-byte chunks. Retaining the
//! per-chunk intermediate states in the tree lets the root be recomputed
//! after K localized byte edits in O(K log N) parent compressions instead of
//! re-hashing the whole input.

pub mod constants;
pub mod compress;
pub mod words;
pub mod output;
pub mod chunk;
pub mod numeric;
pub mod hasher;
pub mod tree;
pub mod unbalanced;

pub use constants::{OUT_LEN, KEY_LEN, BLOCK_LEN, CHUNK_LEN, ROOT, IV};
pub use output::{Output, parent_output, parent_cv};
pub use chunk::{ChunkState, process_input_to_chunks};
pub use hasher::Blake3Hasher;
pub use tree::BinaryMerkleTree;
pub use unbalanced::UnbalancedMerkleTree;
