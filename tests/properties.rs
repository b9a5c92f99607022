use merkle_tree::{
    parent_cv, parent_output, BinaryMerkleTree, Blake3Hasher, ChunkState, Output, CHUNK_LEN, FLAGS,
    IV, ROOT,
};

fn chunk_output(index: usize, bytes: &[u8]) -> Output {
    let mut chunk_state = ChunkState::new(IV, index as u64, FLAGS);
    chunk_state.update(bytes);
    chunk_state.output()
}

fn oracle_hash(input: &[u8]) -> [u8; 32] {
    let mut hasher = Blake3Hasher::new();
    hasher.update(input);
    let mut hash = [0u8; 32];
    hasher.finalize(&mut hash);
    hash
}

fn tree_hash(tree: &BinaryMerkleTree) -> [u8; 32] {
    let mut hash = [0u8; 32];
    tree.root().root_output_bytes(&mut hash);
    hash
}

fn pseudo_random_bytes(len: usize, seed: u64) -> Vec<u8> {
    let mut state = seed.wrapping_mul(6364136223846793005).wrapping_add(1442695040888963407);
    (0..len)
        .map(|_| {
            state = state.wrapping_mul(6364136223846793005).wrapping_add(1442695040888963407);
            (state >> 33) as u8
        })
        .collect()
}

const EMPTY_HASH: [u8; 32] = [
    0xAF, 0x13, 0x49, 0xB9, 0xF5, 0xF9, 0xA1, 0xA6, 0xA0, 0x40, 0x4D, 0xEA, 0x36, 0xDC, 0xC9, 0x49,
    0x9B, 0xCB, 0x25, 0xC9, 0xAD, 0xC1, 0x12, 0xB7, 0xCC, 0x9A, 0x93, 0xCA, 0xE4, 0x1F, 0x32, 0x62,
];

#[test]
fn empty_input_gives_the_empty_hash() {
    let tree = BinaryMerkleTree::from_input(&[], IV, FLAGS);
    assert_eq!(tree_hash(&tree), EMPTY_HASH);
    assert_eq!(oracle_hash(&[]), EMPTY_HASH);
    assert_eq!(tree.actual_leaves(), 1);
    assert_eq!(tree.num_leaves(), 1);
}

#[test]
fn one_full_chunk() {
    let input: Vec<u8> = (0..CHUNK_LEN).map(|i| i as u8).collect();
    let tree = BinaryMerkleTree::from_input(&input, IV, FLAGS);
    assert_eq!(tree_hash(&tree), oracle_hash(&input));
    assert_eq!(tree.actual_leaves(), 1);
    assert_eq!(tree.num_leaves(), 1);
    let chunk = chunk_output(0, &input);
    let root = tree.root();
    assert_eq!(root.flags, chunk.flags | ROOT);
    assert_eq!(root.input_chaining_value, chunk.input_chaining_value);
    assert_eq!(root.block_words, chunk.block_words);
    assert_eq!(root.counter, chunk.counter);
    assert_eq!(root.block_len, chunk.block_len);
}

#[test]
fn three_full_chunks_promote_the_last() {
    let mut input = Vec::new();
    for i in 1..=3u8 {
        input.extend_from_slice(&vec![i; CHUNK_LEN]);
    }
    let tree = BinaryMerkleTree::from_input(&input, IV, FLAGS);
    assert_eq!(tree.actual_leaves(), 3);
    assert_eq!(tree.num_leaves(), 4);
    assert_eq!(tree_hash(&tree), oracle_hash(&input));
    let c0 = chunk_output(0, &input[..CHUNK_LEN]).chaining_value();
    let c1 = chunk_output(1, &input[CHUNK_LEN..2 * CHUNK_LEN]).chaining_value();
    let c2 = chunk_output(2, &input[2 * CHUNK_LEN..]).chaining_value();
    let left = parent_cv(c0, c1, IV, FLAGS);
    let expected = parent_output(left, c2, IV, FLAGS);
    let root = tree.root();
    assert_eq!(root.block_words, expected.block_words);
    assert_eq!(root.flags, expected.flags | ROOT);
}

#[test]
fn root_carries_the_root_flag() {
    for len in [0usize, 1, 1024, 1025, 5000] {
        let input = pseudo_random_bytes(len, len as u64);
        let tree = BinaryMerkleTree::from_input(&input, IV, FLAGS);
        assert_ne!(tree.root().flags & ROOT, 0);
    }
}

#[test]
fn geometry_is_the_next_power_of_two() {
    let cases = [(1usize, 1usize), (2, 2), (3, 4), (4, 4), (5, 8), (8, 8), (9, 16), (17, 32)];
    for (leaves, padded) in cases {
        let input = vec![7u8; leaves * CHUNK_LEN];
        let tree = BinaryMerkleTree::from_input(&input, IV, FLAGS);
        assert_eq!(tree.actual_leaves(), leaves);
        assert_eq!(tree.num_leaves(), padded);
    }
}

#[test]
fn oracle_agreement_over_many_lengths() {
    for len in [0usize, 1, 63, 64, 65, 1023, 1024, 1025, 2048, 2049, 3072, 4097, 7 * 1024 + 5, 16 * 1024, 31 * 1024 + 1] {
        let input = pseudo_random_bytes(len, 3 * len as u64 + 1);
        let tree = BinaryMerkleTree::from_input(&input, IV, FLAGS);
        assert_eq!(tree_hash(&tree), oracle_hash(&input), "length {}", len);
    }
}

#[test]
fn oracle_known_value_for_short_input() {
    let input: Vec<u8> = (0..100u32).map(|i| i as u8).collect();
    let tree = BinaryMerkleTree::from_input(&input, IV, FLAGS);
    assert_eq!(tree_hash(&tree), oracle_hash(&input));
    assert_ne!(tree_hash(&tree), EMPTY_HASH);
}

#[test]
fn leaf_update_matches_rehash() {
    let mut input = pseudo_random_bytes(5 * CHUNK_LEN + 300, 11);
    let mut tree = BinaryMerkleTree::from_input(&input, IV, FLAGS);
    for i in 4 * CHUNK_LEN..5 * CHUNK_LEN {
        input[i] ^= 0xFF;
    }
    tree.insert_leaf(4, chunk_output(4, &input[4 * CHUNK_LEN..5 * CHUNK_LEN]));
    assert_eq!(tree_hash(&tree), oracle_hash(&input));
    let last = input.len();
    input.truncate(5 * CHUNK_LEN + 10);
    assert!(last > input.len());
    tree.insert_leaf(5, chunk_output(5, &input[5 * CHUNK_LEN..]));
    assert_eq!(tree_hash(&tree), oracle_hash(&input));
}

#[test]
fn bulk_update_matches_single_updates() {
    let mut input = pseudo_random_bytes(9 * CHUNK_LEN + 17, 5);
    let mut bulk = BinaryMerkleTree::from_input(&input, IV, FLAGS);
    let mut single = BinaryMerkleTree::from_input(&input, IV, FLAGS);
    let chunks = [0usize, 1, 4, 7, 9];
    for &c in &chunks {
        input[c * CHUNK_LEN] ^= 0x5A;
    }
    let outputs: Vec<Output> = chunks
        .iter()
        .map(|&c| {
            let end = std::cmp::min((c + 1) * CHUNK_LEN, input.len());
            chunk_output(c, &input[c * CHUNK_LEN..end])
        })
        .collect();
    for (k, &c) in chunks.iter().enumerate() {
        single.insert_leaf(c, outputs[k]);
    }
    assert_eq!(bulk.bulk_insert_leaves(chunks.to_vec(), outputs), Some(()));
    assert_eq!(tree_hash(&bulk), tree_hash(&single));
    assert_eq!(tree_hash(&bulk), oracle_hash(&input));
}

#[test]
fn empty_bulk_update_is_a_no_op() {
    let input = pseudo_random_bytes(3000, 9);
    let mut tree = BinaryMerkleTree::from_input(&input, IV, FLAGS);
    assert_eq!(tree.bulk_insert_leaves(Vec::new(), Vec::new()), Some(()));
    assert_eq!(tree_hash(&tree), oracle_hash(&input));
}

#[test]
fn unsorted_bulk_update_is_refused() {
    let input = pseudo_random_bytes(4 * CHUNK_LEN, 21);
    let mut tree = BinaryMerkleTree::from_input(&input, IV, FLAGS);
    let before = tree_hash(&tree);
    let outputs = vec![chunk_output(2, &[1u8; 10]), chunk_output(1, &[2u8; 10])];
    assert_eq!(tree.bulk_insert_leaves(vec![2, 1], outputs), None);
    assert_eq!(tree_hash(&tree), before);
    assert_eq!(tree.actual_leaves(), 4);
}

#[test]
fn repeated_index_in_bulk_update_is_refused() {
    let input = pseudo_random_bytes(4 * CHUNK_LEN, 22);
    let mut tree = BinaryMerkleTree::from_input(&input, IV, FLAGS);
    let before = tree_hash(&tree);
    let outputs = vec![chunk_output(1, &[1u8; 10]), chunk_output(1, &[2u8; 10])];
    assert_eq!(tree.bulk_insert_leaves(vec![1, 1], outputs), None);
    assert_eq!(tree_hash(&tree), before);
}

#[test]
fn mismatched_bulk_lengths_are_refused() {
    let input = pseudo_random_bytes(4 * CHUNK_LEN, 23);
    let mut tree = BinaryMerkleTree::from_input(&input, IV, FLAGS);
    let before = tree_hash(&tree);
    let outputs = vec![chunk_output(1, &[1u8; 10])];
    assert_eq!(tree.bulk_insert_leaves(vec![1, 2], outputs), None);
    assert_eq!(tree_hash(&tree), before);
}

#[test]
fn out_of_range_bulk_index_is_refused() {
    let input = pseudo_random_bytes(3 * CHUNK_LEN, 24);
    let mut tree = BinaryMerkleTree::from_input(&input, IV, FLAGS);
    let before = tree_hash(&tree);
    let outputs = vec![chunk_output(3, &[1u8; 10])];
    assert_eq!(tree.bulk_insert_leaves(vec![3], outputs), None);
    assert_eq!(tree_hash(&tree), before);
}

#[test]
fn new_from_leaves_matches_from_input() {
    let input = pseudo_random_bytes(6 * CHUNK_LEN + 1, 31);
    let leaves: Vec<Output> = (0..7)
        .map(|c| {
            let end = std::cmp::min((c + 1) * CHUNK_LEN, input.len());
            chunk_output(c, &input[c * CHUNK_LEN..end])
        })
        .collect();
    let tree = BinaryMerkleTree::new_from_leaves(leaves, IV, FLAGS);
    assert_eq!(tree.num_leaves(), 8);
    assert_eq!(tree_hash(&tree), oracle_hash(&input));
}

#[test]
fn root_output_stream_extends_past_one_block() {
    let input = pseudo_random_bytes(2500, 41);
    let tree = BinaryMerkleTree::from_input(&input, IV, FLAGS);
    let mut long = [0u8; 131];
    tree.root().root_output_bytes(&mut long);
    let mut short = [0u8; 32];
    tree.root().root_output_bytes(&mut short);
    assert_eq!(&long[..32], &short[..]);
    assert_ne!(&long[64..96], &long[..32]);
    let mut hasher = Blake3Hasher::new();
    hasher.update(&input);
    let mut from_oracle = [0u8; 131];
    hasher.finalize(&mut from_oracle);
    assert_eq!(long, from_oracle);
    let mut nothing: [u8; 0] = [];
    tree.root().root_output_bytes(&mut nothing);
}

#[test]
fn hasher_accepts_split_writes() {
    let input = pseudo_random_bytes(5000, 51);
    let mut hasher = Blake3Hasher::new();
    hasher.update(&input[..1]);
    hasher.update(&input[1..1024]);
    hasher.update(&input[1024..3000]);
    hasher.update(&[]);
    hasher.update(&input[3000..]);
    let mut hash = [0u8; 32];
    hasher.finalize(&mut hash);
    assert_eq!(hash, oracle_hash(&input));
}

#[test]
fn chunk_state_counts_its_bytes() {
    let mut chunk_state = ChunkState::new(IV, 0, FLAGS);
    assert_eq!(chunk_state.len(), 0);
    assert_eq!(chunk_state.start_flag(), 1);
    chunk_state.update(&[9u8; 64]);
    assert_eq!(chunk_state.len(), 64);
    assert_eq!(chunk_state.start_flag(), 1);
    chunk_state.update(&[9u8; 1]);
    assert_eq!(chunk_state.len(), 65);
    assert_eq!(chunk_state.start_flag(), 0);
    let output = chunk_state.output();
    assert_eq!(output.block_len, 1);
    assert_eq!(output.flags, 2);
}

#[test]
fn parent_output_fields() {
    let left = [1u32; 8];
    let right = [2u32; 8];
    let output = parent_output(left, right, IV, FLAGS);
    assert_eq!(output.counter, 0);
    assert_eq!(output.block_len, 64);
    assert_eq!(output.flags, 4);
    assert_eq!(&output.block_words[..8], &left[..]);
    assert_eq!(&output.block_words[8..], &right[..]);
    assert_eq!(parent_cv(left, right, IV, FLAGS), output.chaining_value());
    assert_ne!(output.chaining_value(), left);
}
