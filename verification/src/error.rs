use vstd::prelude::*;

verus! {

/// Why a trie could not be built or a key could not be resolved.
#[derive(Clone, Copy, Debug, PartialEq, Eq)]
pub enum TrieError {
    /// The input holds more than sixteen edges.
    TooManyEdges,
    /// Some edge lies deeper than the depth the trie allows.
    TooDeep,
    /// Two edges share a number, two siblings share a label, or some parent
    /// reference leads nowhere or in a circle.
    BadParent,
    /// The key length is not between one and eight.
    InvalidQueryLength,
}

} // verus!
