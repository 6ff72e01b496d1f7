use vstd::prelude::*;

verus! {

/// Why a sequence of keyed values could not be turned into a forest.
#[derive(Debug, PartialEq, Eq, Structural)]
pub enum IndentationError {
    /// Kept for callers that treat an empty input as a failure; building never reports it.
    EmptyIterator,
    /// A key is neither a prefix of the current level's key nor an extension of it.
    IncoherentIndent,
    /// A key steps back to a level that is not open.
    InvalidIndent,
    /// The level stack was found in a state that the builder never produces.
    Internal,
}

} // verus!
