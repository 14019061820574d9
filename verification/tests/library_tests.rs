use merkle_tree::{Blake3Hasher, BinaryMerkleTree, ChunkState, CHUNK_LEN, IV, process_input_to_chunks};
use rand::SeedableRng;
use rand::Rng;

fn hex(bytes: &[u8]) -> String {
    let mut s = String::new();
    for b in bytes {
        s.push_str(&format!("{:02x}", b));
    }
    s
}

fn seeded_bytes(seed: u64, len: usize) -> Vec<u8> {
    let mut rng = rand::rngs::StdRng::seed_from_u64(seed);
    (0..len).map(|_| rng.gen()).collect()
}

fn streaming_hash_cv(input: &[u8]) -> [u32; 8] {
    let mut hasher = Blake3Hasher::new();
    hasher.update(input);
    let mut hash = vec![0u8; 32];
    hasher.finalize(&mut hash);
    let mut cv = [0u32; 8];
    for i in 0..8 {
        cv[i] = u32::from_le_bytes(hash[i * 4..(i + 1) * 4].try_into().unwrap());
    }
    cv
}

// The hash of the empty input: the published BLAKE3 test vector.
#[test]
fn test_empty_input_known_vector() {
    let hasher = Blake3Hasher::new();
    let mut out = vec![0u8; 32];
    hasher.finalize(&mut out);
    assert_eq!(
        hex(&out),
        "af1349b9f5f9a1a6a0404dea36dcc9499bcb25c9adc112b7cc9a93cae41f3262"
    );
}

// The hash of one chunk of zero bytes, and the one-leaf tree built from it.
#[test]
fn test_one_chunk_zeros_vector() {
    let input = vec![0u8; CHUNK_LEN];
    let mut hasher = Blake3Hasher::new();
    hasher.update(&input);
    let mut out = vec![0u8; 32];
    hasher.finalize(&mut out);
    assert_eq!(hex(&out), "d6fd9de5bccf223f523b316c9cd1cf9a9d87ea42473d68e011dad13f09bf8917");

    let chunk_outputs = process_input_to_chunks(&input);
    let tree = BinaryMerkleTree::new_from_leaves(chunk_outputs);
    let mut tree_out = vec![0u8; 32];
    tree.root().root_output_bytes(&mut tree_out);
    assert_eq!(tree_out, out);
}

// One chunk: the tree root bytes equal the streaming hash bytes.
#[test]
fn test_single_chunk_tree_matches_hash() {
    let input = seeded_bytes(1, 1024);
    let chunk_outputs = process_input_to_chunks(&input);
    let tree = BinaryMerkleTree::new_from_leaves(chunk_outputs);
    let mut tree_out = vec![0u8; 32];
    tree.root().root_output_bytes(&mut tree_out);

    let mut hasher = Blake3Hasher::new();
    hasher.update(&input);
    let mut hash = vec![0u8; 32];
    hasher.finalize(&mut hash);

    assert_eq!(tree_out, hash);
}

// Four chunks (a power of two): the tree root bytes equal the streaming
// hash bytes.
#[test]
fn test_four_chunks_tree_matches_hash() {
    let input = seeded_bytes(2, 4096);
    let chunk_outputs = process_input_to_chunks(&input);
    let tree = BinaryMerkleTree::new_from_leaves(chunk_outputs);
    let mut tree_out = vec![0u8; 32];
    tree.root().root_output_bytes(&mut tree_out);

    let mut hasher = Blake3Hasher::new();
    hasher.update(&input);
    let mut hash = vec![0u8; 32];
    hasher.finalize(&mut hash);

    assert_eq!(tree_out, hash);
}

// A bulk update equals applying insert_leaf once per entry in ascending
// order.
#[test]
fn test_bulk_equals_sequential_inserts() {
    let mut input = seeded_bytes(3, 8 * CHUNK_LEN);
    let chunk_outputs = process_input_to_chunks(&input);
    let mut bulk_tree = BinaryMerkleTree::new_from_leaves(chunk_outputs.clone());
    let mut seq_tree = BinaryMerkleTree::new_from_leaves(chunk_outputs);

    // Mutate three separate chunks and recompute their outputs.
    for &pos in &[1024usize, 4100, 5500] {
        input[pos] ^= 0xFF;
    }
    let indices = vec![1usize, 4, 5];
    let mut outputs = Vec::new();
    for &chunk_index in &indices {
        let mut chunk_state = ChunkState::new(IV, chunk_index as u64, 0);
        let start = chunk_index * CHUNK_LEN;
        chunk_state.update(&input[start..start + CHUNK_LEN]);
        outputs.push(chunk_state.output());
    }

    let result = bulk_tree.bulk_insert_leaves(indices.clone(), outputs.clone());
    assert!(result.is_some());
    for (i, &chunk_index) in indices.iter().enumerate() {
        seq_tree.insert_leaf(chunk_index, outputs[i]);
    }

    let mut bulk_out = vec![0u8; 32];
    bulk_tree.root().root_output_bytes(&mut bulk_out);
    let mut seq_out = vec![0u8; 32];
    seq_tree.root().root_output_bytes(&mut seq_out);
    assert_eq!(bulk_out, seq_out);

    // Both also equal the streaming hash of the mutated input.
    assert_eq!(bulk_tree.root().chaining_value(), streaming_hash_cv(&input));
}

// A non-ascending bulk update is rejected and leaves the tree unchanged.
#[test]
fn test_unsorted_bulk_rejected() {
    let mut input = seeded_bytes(4, 4 * CHUNK_LEN);
    let chunk_outputs = process_input_to_chunks(&input);
    let mut tree = BinaryMerkleTree::new_from_leaves(chunk_outputs);
    let mut before = vec![0u8; 32];
    tree.root().root_output_bytes(&mut before);

    for &pos in &[100usize, 3000] {
        input[pos] ^= 0xFF;
    }
    let indices = vec![2usize, 0];
    let mut outputs = Vec::new();
    for &chunk_index in &indices {
        let mut chunk_state = ChunkState::new(IV, chunk_index as u64, 0);
        let start = chunk_index * CHUNK_LEN;
        chunk_state.update(&input[start..start + CHUNK_LEN]);
        outputs.push(chunk_state.output());
    }

    let result = tree.bulk_insert_leaves(indices, outputs);
    assert!(result.is_none());

    let mut after = vec![0u8; 32];
    tree.root().root_output_bytes(&mut after);
    assert_eq!(before, after);
}

// Repeated calls to root and root_output_bytes without mutation return
// identical bytes.
#[test]
fn test_root_deterministic() {
    let input = seeded_bytes(5, 2 * CHUNK_LEN);
    let chunk_outputs = process_input_to_chunks(&input);
    let tree = BinaryMerkleTree::new_from_leaves(chunk_outputs);

    let mut first = vec![0u8; 32];
    tree.root().root_output_bytes(&mut first);
    let mut second = vec![0u8; 32];
    tree.root().root_output_bytes(&mut second);
    assert_eq!(first, second);
}

// Empty input yields no chunk outputs.
#[test]
fn test_empty_input_no_chunks() {
    let outputs = process_input_to_chunks(&[]);
    assert_eq!(outputs.len(), 0);
}

// A shorter root output stream is a prefix of a longer one.
#[test]
fn test_root_output_truncation() {
    let input = seeded_bytes(6, CHUNK_LEN);
    let chunk_outputs = process_input_to_chunks(&input);
    let tree = BinaryMerkleTree::new_from_leaves(chunk_outputs);

    let mut long_out = vec![0u8; 100];
    tree.root().root_output_bytes(&mut long_out);
    let mut short_out = vec![0u8; 33];
    tree.root().root_output_bytes(&mut short_out);
    assert_eq!(&long_out[..33], &short_out[..]);
}

// A short final chunk produces one more Output with a short final block.
#[test]
fn test_short_final_chunk() {
    let input = seeded_bytes(7, CHUNK_LEN + 100);
    let outputs = process_input_to_chunks(&input);
    assert_eq!(outputs.len(), 2);
    assert_eq!(outputs[0].block_len, 64);
    assert_eq!(outputs[1].block_len, 36);
    assert_eq!(outputs[1].counter, 1);
}

// The keyed and key-derivation modes produce output unlike the plain hash,
// and deterministically.
#[test]
fn test_keyed_and_derive_key_modes() {
    let input = seeded_bytes(8, 300);
    let key = [7u8; 32];

    let mut plain = Blake3Hasher::new();
    plain.update(&input);
    let mut plain_out = vec![0u8; 32];
    plain.finalize(&mut plain_out);

    let mut keyed_a = Blake3Hasher::new_keyed(&key);
    keyed_a.update(&input);
    let mut keyed_a_out = vec![0u8; 32];
    keyed_a.finalize(&mut keyed_a_out);

    let mut keyed_b = Blake3Hasher::new_keyed(&key);
    keyed_b.update(&input);
    let mut keyed_b_out = vec![0u8; 32];
    keyed_b.finalize(&mut keyed_b_out);

    assert_eq!(keyed_a_out, keyed_b_out);
    assert_ne!(keyed_a_out, plain_out);

    let mut derive_a = Blake3Hasher::new_derive_key("example.com 2024-01-01 test context");
    derive_a.update(&input);
    let mut derive_a_out = vec![0u8; 32];
    derive_a.finalize(&mut derive_a_out);

    let mut derive_b = Blake3Hasher::new_derive_key("example.com 2024-01-01 test context");
    derive_b.update(&input);
    let mut derive_b_out = vec![0u8; 32];
    derive_b.finalize(&mut derive_b_out);

    assert_eq!(derive_a_out, derive_b_out);
    assert_ne!(derive_a_out, plain_out);
    assert_ne!(derive_a_out, keyed_a_out);
}

// Capacity and length observers of the balanced tree.
#[test]
fn test_tree_shape_observers() {
    let input = seeded_bytes(9, 4 * CHUNK_LEN);
    let chunk_outputs = process_input_to_chunks(&input);
    let tree = BinaryMerkleTree::new_from_leaves(chunk_outputs);
    assert_eq!(tree.num_leaves(), 4);
    assert_eq!(tree.get_tree_length(), 7);
}
