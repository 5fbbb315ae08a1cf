//! What can be wrong with the notes that describe a board and its tokens.

use vstd::prelude::*;

verus! {

/// Why a board, a list of moves or a request for an assignment is refused.
#[derive(Clone, Copy, Debug, PartialEq, Eq, Structural)]
pub enum Error {
    /// The notes hold no blank line between the board and the tokens.
    MissingBlankLine,
    /// The board has no row.
    EmptyBoard,
    /// The board has more columns than a row of bits can hold.
    BoardTooWide,
    /// A row of the board is not as long as the first row.
    RaggedBoard,
    /// A move is neither `L` nor `R`.
    BadMove,
    /// The slot that a token starts from lies beyond the board.
    SlotOffBoard,
    /// A token met a nail after its last move was spent.
    OutOfMoves,
    /// There are more tokens than slots, so no assignment exists.
    TooManyTokens,
    /// There are more slots than the table of slot sets can be built for.
    TooManySlots,
}

} // verus!
