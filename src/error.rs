use vstd::prelude::*;

verus! {

/// The ways an operation of the engine can fail.
#[derive(Clone, Copy, Debug, PartialEq, Eq, Structural, Hash)]
pub enum ChessError {
    /// Malformed square or move text.
    InvalidNotation,
    /// Malformed FEN text.
    MalformedNotation,
    /// The move is not legal for the side to move.
    IllegalMove,
    /// The game already has a result.
    GameOver,
}

} // verus!
