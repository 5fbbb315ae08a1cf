//! The notes of a game: the drawing of the board, a blank line, and a line
//! of moves for each token.

use vstd::prelude::*;
use crate::quest01::board::{board_of, moves_of, parse_moves, Board, Direction, RowBits};
use crate::quest01::errors::Error;
use crate::quest01::scoring::moves_views;
use crate::text::{lines_of, parted, split_emptyline, split_lines, views};

verus! {

/// A board and the moves of the tokens that are to fall through it.
pub struct Notes {
    pub board: Board,
    pub tokens: Vec<Vec<Direction>>,
}

/// The moves that the lines spell, one list for each line, unless a line
/// holds something other than moves.
pub open spec fn all_moves(lines: Seq<Seq<u8>>) -> Result<Seq<Seq<Direction>>, Error> {
    if forall|k: int| 0 <= k < lines.len() ==> moves_of(#[trigger] lines[k]) is Some {
        Ok(Seq::new(lines.len(), |k: int| moves_of(lines[k]).unwrap()))
    } else {
        Err(Error::BadMove)
    }
}

/// The nails and the moves that the notes hold, or why they are refused:
/// for want of a blank line, for the board drawn before it, or for the
/// moves written after it, whichever comes first.
pub open spec fn notes_of(input: Seq<u8>, capacity: int) -> Result<
    (Seq<Seq<bool>>, Seq<Seq<Direction>>),
    Error,
> {
    match parted(input) {
        None => Err(Error::MissingBlankLine),
        Some((head, tail)) => match board_of(lines_of(head), capacity) {
            Err(e) => Err(e),
            Ok(b) => match all_moves(lines_of(tail)) {
                Err(e) => Err(e),
                Ok(tokens) => Ok((b, tokens)),
            },
        },
    }
}

/// Reads the notes of a game, whose board may be as wide as `bits` allows.
pub fn parse_notes(input: &[u8], bits: RowBits) -> (r: Result<Notes, Error>)
    ensures
        match r {
            Ok(notes) => notes_of(input@, bits.spec_count()) == Ok::<
                (Seq<Seq<bool>>, Seq<Seq<Direction>>),
                Error,
            >((notes.board@, moves_views(notes.tokens@))) && notes.board@.len() > 0,
            Err(e) => notes_of(input@, bits.spec_count()) == Err::<
                (Seq<Seq<bool>>, Seq<Seq<Direction>>),
                Error,
            >(e),
        },
{
    let (head, tail) = match split_emptyline(input) {
        Some(parts) => parts,
        None => {
            return Err(Error::MissingBlankLine);
        },
    };
    let board = match Board::new(head, bits) {
        Ok(board) => board,
        Err(e) => {
            return Err(e);
        },
    };
    let lines = split_lines(tail);
    let ghost ls = lines_of(tail@);
    let mut tokens: Vec<Vec<Direction>> = Vec::new();
    let mut k: usize = 0;
    while k < lines.len()
        invariant
            k <= lines@.len(),
            ls == views(lines@),
            ls == lines_of(tail@),
            parted(input@) == Some((head@, tail@)),
            board_of(lines_of(head@), bits.spec_count()) == Ok::<Seq<Seq<bool>>, Error>(board@),
            tokens@.len() == k,
            forall|i: int| 0 <= i < k ==> moves_of(#[trigger] ls[i]) == Some(tokens@[i]@),
        decreases lines@.len() - k,
    {
        proof {
            assert(ls[k as int] == lines@[k as int]@);
        }
        match parse_moves(lines[k]) {
            Ok(moves) => {
                tokens.push(moves);
            },
            Err(e) => {
                proof {
                    assert(moves_of(ls[k as int]) is None);
                }
                return Err(e);
            },
        }
        k += 1;
    }
    proof {
        assert(moves_views(tokens@) =~= all_moves(ls).unwrap());
    }
    Ok(Notes { board, tokens })
}

} // verus!
