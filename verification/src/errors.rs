//! What can go wrong while a board or a match set is built.

use vstd::prelude::*;

verus! {

/// Why a textual layout is not a board.
#[derive(Debug, Clone, Copy, PartialEq, Eq, Structural)]
pub enum BoardParseError {
    /// The layout has another number of lines than the grid has rows:
    /// expected, then found.
    InvalidRowCount(usize, usize),
    /// A line has another number of characters than its row has cells:
    /// expected, then found.
    InvalidRowLength(usize, usize),
    /// A character that stands for no tile.
    UnexpectedTileCharacter(char),
}

/// Why a collection of coordinates is not a match set.
#[derive(Debug, Clone, Copy, PartialEq, Eq, Structural)]
pub enum MatchSetError {
    /// A match set holds at least one coordinate.
    EmptyMatchSet,
}

} // verus!
