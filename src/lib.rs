//! An incrementally updatable binary Merkle tree whose root is the BLAKE3
//! root node of the same input, with the BLAKE3 compression core it is built
//! on and a streaming BLAKE3 hasher to check it against.
use vstd::prelude::*;

pub mod compress;
pub mod chunk;
pub mod merkle;
pub mod hasher;
pub mod laws;

pub use chunk::ChunkState;
pub use compress::{parent_cv, parent_output, Output, BLOCK_LEN, CHUNK_LEN, FLAGS, IV, OUT_LEN, ROOT};
pub use hasher::Blake3Hasher;
pub use merkle::BinaryMerkleTree;
