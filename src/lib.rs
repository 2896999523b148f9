//! An append-only Merkle hash tree over an ordered list of documents:
//! domain-separated hashing, full construction, single-leaf append,
//! inclusion proofs, their verification, and the textual summary.
use vstd::prelude::*;

pub mod hash;
pub mod model;
pub mod tree;
pub mod codec;
pub mod inclusion;
pub mod text;
pub mod summary;
pub mod laws;

