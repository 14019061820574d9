//! Cross-checks of the streaming hasher and the balanced tree against an
//! independent BLAKE3 implementation.

use merkle_tree::{Blake3Hasher, BinaryMerkleTree, process_input_to_chunks};
use rand::Rng;
use rand::SeedableRng;

fn reference_hash(input: &[u8]) -> [u8; 32] {
    *blake3::hash(input).as_bytes()
}

fn own_hash(input: &[u8]) -> Vec<u8> {
    let mut hasher = Blake3Hasher::new();
    hasher.update(input);
    let mut out = vec![0u8; 32];
    hasher.finalize(&mut out);
    out
}

#[test]
fn test_hasher_matches_reference() {
    let mut rng = rand::rngs::StdRng::seed_from_u64(42);
    for &len in &[0usize, 1, 63, 64, 65, 1023, 1024, 1025, 2048, 3072, 4096, 10000] {
        let input: Vec<u8> = (0..len).map(|_| rng.gen()).collect();
        assert_eq!(
            own_hash(&input),
            reference_hash(&input).to_vec(),
            "hash mismatch at length {}",
            len
        );
    }
}

#[test]
fn test_tree_root_matches_reference() {
    let mut rng = rand::rngs::StdRng::seed_from_u64(43);
    // Power-of-two chunk counts: the tree root must be bit-compatible.
    for &chunks in &[1usize, 2, 4, 8, 16] {
        let input: Vec<u8> = (0..chunks * 1024).map(|_| rng.gen()).collect();
        let tree = BinaryMerkleTree::new_from_leaves(process_input_to_chunks(&input));
        let mut out = vec![0u8; 32];
        tree.root().root_output_bytes(&mut out);
        assert_eq!(out, reference_hash(&input).to_vec(), "root mismatch at {} chunks", chunks);
    }
}

#[test]
fn test_keyed_hasher_matches_reference() {
    let mut rng = rand::rngs::StdRng::seed_from_u64(44);
    let key = [33u8; 32];
    let input: Vec<u8> = (0..3000).map(|_| rng.gen()).collect();

    let mut hasher = Blake3Hasher::new_keyed(&key);
    hasher.update(&input);
    let mut out = vec![0u8; 32];
    hasher.finalize(&mut out);

    assert_eq!(out, blake3::keyed_hash(&key, &input).as_bytes().to_vec());
}

#[test]
fn test_derive_key_matches_reference() {
    let context = "example.com 2024-01-01 cross check";
    let material = b"key material bytes";

    let mut hasher = Blake3Hasher::new_derive_key(context);
    hasher.update(material);
    let mut out = vec![0u8; 32];
    hasher.finalize(&mut out);

    assert_eq!(out, blake3::derive_key(context, material).to_vec());
}

#[test]
fn test_extended_output_matches_reference() {
    let mut rng = rand::rngs::StdRng::seed_from_u64(45);
    let input: Vec<u8> = (0..500).map(|_| rng.gen()).collect();

    let mut hasher = Blake3Hasher::new();
    hasher.update(&input);
    let mut out = vec![0u8; 131];
    hasher.finalize(&mut out);

    let mut reference = blake3::Hasher::new();
    reference.update(&input);
    let mut expected = vec![0u8; 131];
    reference.finalize_xof().fill(&mut expected);

    assert_eq!(out, expected);
}
