//! A generic, Merkleized, compressed trie.
pub mod bitseqops;
pub mod canonical;
pub mod conflicts;
pub mod debug;
pub mod digestible;
pub mod equality;
pub mod laws;
pub mod node;
pub mod presentation;
pub mod replay;
mod sealed;
pub mod searches;
pub mod soundness;
pub mod spelling;
pub mod tree;
pub mod trie;
pub mod utils;
pub mod witness;

pub use digestible::{Digest, Digestible, HashWitnessValue};
pub use node::{Complete, Partial, TrieMode};
pub use trie::{NodeUpdate, Trie, TrieError};
