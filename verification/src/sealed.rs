//! The seal of the modes of a trie.
use vstd::prelude::*;

verus! {

/// Implemented by the modes of this crate only: the module that holds this trait is private, so that no other crate
/// can name it.
pub trait SealedTrieMode {

}

}
