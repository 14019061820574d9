//! Fixed parameters of the BLAKE3 hash: block and chunk sizes, domain
//! separation flags, and the initial chaining value.

use vstd::prelude::*;

verus! {

pub const OUT_LEN: usize = 32;
pub const KEY_LEN: usize = 32;
pub const BLOCK_LEN: usize = 64;
pub const CHUNK_LEN: usize = 1024;

pub const CHUNK_START: u32 = 1;
pub const CHUNK_END: u32 = 2;
pub const PARENT: u32 = 4;
pub const ROOT: u32 = 8;
pub const KEYED_HASH: u32 = 16;
pub const DERIVE_KEY_CONTEXT: u32 = 32;
pub const DERIVE_KEY_MATERIAL: u32 = 64;

/// The standard BLAKE3 initial chaining value, as a mathematical sequence.
pub open spec fn iv_seq() -> Seq<u32> {
    seq![
        0x6A09E667u32,
        0xBB67AE85u32,
        0x3C6EF372u32,
        0xA54FF53Au32,
        0x510E527Fu32,
        0x9B05688Cu32,
        0x1F83D9ABu32,
        0x5BE0CD19u32,
    ]
}

pub const IV: [u32; 8] = [
    0x6A09E667, 0xBB67AE85, 0x3C6EF372, 0xA54FF53A, 0x510E527F, 0x9B05688C, 0x1F83D9AB, 0x5BE0CD19,
];

pub proof fn lemma_iv_view()
    ensures
        IV@ == iv_seq(),
{
    assert(IV@ =~= iv_seq());
}

} // verus!
