//! What a token field keeps about the documents that a token occurs in.
use vstd::prelude::*;

verus! {

/// How much a field records of each token: the documents alone, how often the token occurs in
/// each, or also where.
#[derive(Debug, Copy, Clone, PartialEq, Eq, Structural)]
pub enum TokenFieldFeatures {
    Doc,
    WithTermFrequency,
    WithPositions,
}

impl TokenFieldFeatures {
    pub fn has_term_frequency(&self) -> (r: bool)
        ensures
            r == !(*self is Doc),
    {
        *self != TokenFieldFeatures::Doc
    }

    pub fn has_positions(&self) -> (r: bool)
        ensures
            r == (*self is WithPositions),
    {
        *self == TokenFieldFeatures::WithPositions
    }
}

impl Default for TokenFieldFeatures {
    /// A field keeps everything unless told otherwise.
    fn default() -> (r: Self)
        ensures
            r is WithPositions,
    {
        TokenFieldFeatures::WithPositions
    }
}

} // verus!
