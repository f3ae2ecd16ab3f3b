//! An append-only authenticated accumulator: a Merkle-style structure in
//! which a writer keeps only a root hash, a leaf count and a short frontier
//! vector, while an off-line replica rebuilds the node graph from the stream
//! of inserted leaf hashes, snapshots it at every root, and produces
//! inclusion proofs against any historical root.

use vstd::prelude::*;

pub mod bits;
pub mod bytemap;
pub mod bytes;
pub mod client;
pub mod hashing;
pub mod laws;
pub mod merkle_tree;
pub mod model;

pub use crate::client::{MerkleTreeClient, Node, SnapshotStore};
pub use crate::merkle_tree::MerkleTree;
pub use crate::model::TreeError;
