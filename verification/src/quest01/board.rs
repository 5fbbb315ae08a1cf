//! The nail board and the fall of one token through it.

use vstd::prelude::*;
use crate::quest01::errors::Error;
use crate::text::{lines_of, split_lines, views};

verus! {

/// The byte that marks a nail in the drawing of a board.
pub const NAIL: u8 = 42;

/// The way a token bounces off a nail.
#[derive(Clone, Copy, Debug, PartialEq, Eq, Structural)]
pub enum Direction {
    Left,
    Right,
}

/// How many bits stand for the columns of one row of a board.
#[derive(Clone, Copy, Debug, PartialEq, Eq, Structural)]
pub enum RowBits {
    Bits32,
    Bits64,
}

impl RowBits {
    /// The number of bits, which is the greatest width of a board.
    pub open spec fn spec_count(self) -> int {
        match self {
            RowBits::Bits32 => 32,
            RowBits::Bits64 => 64,
        }
    }

    /// The number of bits, which is the greatest width of a board.
    pub fn count(self) -> (n: usize)
        ensures
            n == self.spec_count(),
    {
        match self {
            RowBits::Bits32 => 32,
            RowBits::Bits64 => 64,
        }
    }
}

/// The column a token moves to when it bounces off a nail in column `x` of a
/// board that is `width` columns wide. At either edge the token is thrown
/// back into the board.
pub open spec fn step(x: int, width: int, dir: Direction) -> int {
    match dir {
        Direction::Left => if x != 0 {
            x - 1
        } else {
            x + 1
        },
        Direction::Right => if x != width - 1 {
            x + 1
        } else {
            x - 1
        },
    }
}

/// There is a nail in column `x` of row `y`. Beyond the board there is none.
pub open spec fn nail_at(b: Seq<Seq<bool>>, x: int, y: int) -> bool {
    0 <= y < b.len() && 0 <= x < b[y].len() && b[y][x]
}

/// The column in which a token leaves the board that is in column `x` when
/// it comes to row `y`, having spent the first `spent` of its moves. Each
/// nail that it meets costs it one move; where it meets a nail and has none
/// left, it leaves in no column.
pub open spec fn fall(
    b: Seq<Seq<bool>>,
    width: int,
    moves: Seq<Direction>,
    x: int,
    y: int,
    spent: int,
) -> Option<int>
    decreases b.len() - y,
{
    if y >= b.len() {
        Some(x)
    } else if !nail_at(b, x, y) {
        fall(b, width, moves, x, y + 1, spent)
    } else if spent < 0 || spent >= moves.len() {
        None
    } else {
        fall(b, width, moves, step(x, width, moves[spent]), y + 1, spent + 1)
    }
}

/// The coins that a token wins which started from slot `slot` and left the
/// board in column `x`: slots count from one, and the token wins twice the
/// number of the slot that it ends in, less the number of the slot that it
/// started from, but never less than nothing.
pub open spec fn reward(slot: int, x: int) -> int {
    let initial_slot = slot + 1;
    let final_slot = x / 2 + 1;
    if 2 * final_slot > initial_slot {
        2 * final_slot - initial_slot
    } else {
        0
    }
}

/// What a token wins that starts from slot `slot`, which lies above column
/// `2 * slot`, and falls through the board with the given moves.
pub open spec fn simulated(b: Seq<Seq<bool>>, width: int, slot: int, moves: Seq<Direction>)
    -> Result<int, Error> {
    if 2 * slot >= width {
        Err(Error::SlotOffBoard)
    } else {
        match fall(b, width, moves, 2 * slot, 0, 0) {
            Some(x) => Ok(reward(slot, x)),
            None => Err(Error::OutOfMoves),
        }
    }
}

/// `found` holds the coins `want`, or is refused as `want` is.
pub open spec fn is_coins(found: Result<u64, Error>, want: Result<int, Error>) -> bool {
    match found {
        Ok(x) => want == Ok::<int, Error>(x as int),
        Err(e) => want == Err::<int, Error>(e),
    }
}

/// The nails that the lines of a drawing show: a nail wherever a `*`
/// stands.
pub open spec fn nails_of(lines: Seq<Seq<u8>>) -> Seq<Seq<bool>> {
    Seq::new(lines.len(), |y: int| Seq::new(lines[y].len(), |x: int| lines[y][x] == NAIL))
}

/// The board that the lines of a drawing show, or why they show none: there
/// has to be a line, the first line may not be longer than `capacity`, and
/// all lines have to be as long as the first.
pub open spec fn board_of(lines: Seq<Seq<u8>>, capacity: int) -> Result<Seq<Seq<bool>>, Error> {
    if lines.len() == 0 {
        Err(Error::EmptyBoard)
    } else if lines[0].len() > capacity {
        Err(Error::BoardTooWide)
    } else if exists|y: int| 0 <= y < lines.len() && (#[trigger] lines[y]).len() != lines[0].len() {
        Err(Error::RaggedBoard)
    } else {
        Ok(nails_of(lines))
    }
}

/// The moves that a line of `L` and `R` spells, if it holds nothing else.
pub open spec fn moves_of(line: Seq<u8>) -> Option<Seq<Direction>> {
    if forall|k: int| 0 <= k < line.len() ==> #[trigger] line[k] == 76 || line[k] == 82 {
        Some(
            Seq::new(
                line.len(),
                |k: int|
                    if line[k] == 76 {
                        Direction::Left
                    } else {
                        Direction::Right
                    },
            ),
        )
    } else {
        None
    }
}

/// A bounce off either edge leads one column back into the board, and no
/// bounce leaves a board that has at least two columns.
pub proof fn lemma_step_stays_on_board(x: int, width: int, dir: Direction)
    requires
        width >= 2,
        0 <= x < width,
    ensures
        0 <= step(x, width, dir) < width,
        step(0, width, Direction::Left) == 1,
        step(width - 1, width, Direction::Right) == width - 2,
{
}

/// A token that is on a board of at least two columns leaves it in one of
/// its columns.
pub proof fn lemma_fall_stays_on_board(
    b: Seq<Seq<bool>>,
    width: int,
    moves: Seq<Direction>,
    x: int,
    y: int,
    spent: int,
)
    requires
        width >= 2,
        0 <= x < width,
    ensures
        match fall(b, width, moves, x, y, spent) {
            Some(last) => 0 <= last < width,
            None => true,
        },
    decreases b.len() - y,
{
    if y < b.len() {
        if !nail_at(b, x, y) {
            lemma_fall_stays_on_board(b, width, moves, x, y + 1, spent);
        } else if 0 <= spent < moves.len() {
            lemma_step_stays_on_board(x, width, moves[spent]);
            lemma_fall_stays_on_board(
                b,
                width,
                moves,
                step(x, width, moves[spent]),
                y + 1,
                spent + 1,
            );
        }
    }
}

/// The fall of a token is settled by the board, the slot and the moves:
/// letting it fall twice gives the same coins, or the same refusal.
pub proof fn lemma_simulate_deterministic(
    b: Seq<Seq<bool>>,
    width: int,
    slot: int,
    moves: Seq<Direction>,
    first: Result<u64, Error>,
    second: Result<u64, Error>,
)
    requires
        is_coins(first, simulated(b, width, slot, moves)),
        is_coins(second, simulated(b, width, slot, moves)),
    ensures
        first == second,
{
}

/// No token wins less than nothing.
pub proof fn lemma_reward_not_negative(b: Seq<Seq<bool>>, width: int, slot: int, moves: Seq<Direction>)
    ensures
        forall|x: int| reward(slot, x) >= 0,
        match simulated(b, width, slot, moves) {
            Ok(coins) => coins >= 0,
            Err(_) => true,
        },
{
}

/// Bit `x` of `row` is set.
pub open spec fn bit(row: u64, x: int) -> bool {
    0 <= x < 64 && row & (1u64 << (x as u64)) != 0
}

proof fn lemma_bit_set(row: u64, i: u64, k: u64)
    by (bit_vector)
    requires
        i < 64,
        k < 64,
    ensures
        ((row | (1u64 << i)) & (1u64 << k) != 0) == ((row & (1u64 << k) != 0) || k == i),
        0u64 & (1u64 << k) == 0,
{
}

/// Reads a line of moves: `L` for left, `R` for right. A line that holds
/// anything else is refused.
pub fn parse_moves(moves: &[u8]) -> (r: Result<Vec<Direction>, Error>)
    ensures
        match r {
            Ok(v) => moves_of(moves@) == Some(v@),
            Err(e) => moves_of(moves@) is None && e == Error::BadMove,
        },
{
    let mut out: Vec<Direction> = Vec::new();
    let mut k: usize = 0;
    while k < moves.len()
        invariant
            k <= moves@.len(),
            out@.len() == k,
            forall|d: int| 0 <= d < k ==> #[trigger] moves@[d] == 76 || moves@[d] == 82,
            forall|d: int|
                0 <= d < k ==> #[trigger] out@[d] == if moves@[d] == 76 {
                    Direction::Left
                } else {
                    Direction::Right
                },
        decreases moves@.len() - k,
    {
        let b = moves[k];
        if b == 76 {
            out.push(Direction::Left);
        } else if b == 82 {
            out.push(Direction::Right);
        } else {
            return Err(Error::BadMove);
        }
        k += 1;
    }
    proof {
        assert(out@ =~= moves_of(moves@).unwrap());
    }
    Ok(out)
}

/// A board of nails, one row of bits for each row of nails.
pub struct Board {
    width: usize,
    rows: Vec<u64>,
}

impl View for Board {
    type V = Seq<Seq<bool>>;

    /// Where the nails are: `self@[y][x]` says whether one is in column `x`
    /// of row `y`.
    closed spec fn view(&self) -> Seq<Seq<bool>> {
        Seq::new(
            self.rows@.len(),
            |y: int| Seq::new(self.width as nat, |x: int| bit(self.rows@[y], x)),
        )
    }
}

impl Board {
    #[verifier::type_invariant]
    spec fn fits(self) -> bool {
        self.width <= 64
    }

    /// The number of columns.
    pub closed spec fn spec_width(&self) -> int {
        self.width as int
    }

    /// Reads the drawing of a board, in which `*` marks a nail and every
    /// line is a row. The board may be as wide as `bits` allows.
    pub fn new(data: &[u8], bits: RowBits) -> (r: Result<Board, Error>)
        ensures
            match r {
                Ok(b) => board_of(lines_of(data@), bits.spec_count()) == Ok::<
                    Seq<Seq<bool>>,
                    Error,
                >(b@) && b.spec_width() == lines_of(data@)[0].len(),
                Err(e) => board_of(lines_of(data@), bits.spec_count()) == Err::<
                    Seq<Seq<bool>>,
                    Error,
                >(e),
            },
    {
        let lines = split_lines(data);
        let ghost ls = lines_of(data@);
        if lines.len() == 0 {
            return Err(Error::EmptyBoard);
        }
        let width = lines[0].len();
        proof {
            assert(ls[0] == lines@[0]@);
        }
        if width > bits.count() {
            return Err(Error::BoardTooWide);
        }
        let mut rows: Vec<u64> = Vec::new();
        let mut y: usize = 0;
        while y < lines.len()
            invariant
                y <= lines@.len(),
                ls == views(lines@),
                ls == lines_of(data@),
                ls.len() > 0,
                width == ls[0].len(),
                width <= bits.spec_count(),
                rows@.len() == y,
                forall|k: int| 0 <= k < y ==> (#[trigger] ls[k]).len() == width,
                forall|k: int, x: int|
                    0 <= k < y && 0 <= x < width ==> #[trigger] bit(rows@[k], x) == (ls[k][x]
                        == NAIL),
            decreases lines@.len() - y,
        {
            let line = lines[y];
            proof {
                assert(ls[y as int] == line@);
            }
            if line.len() != width {
                proof {
                    assert(ls[y as int].len() != ls[0].len());
                }
                return Err(Error::RaggedBoard);
            }
            let mut row: u64 = 0;
            let mut i: usize = 0;
            proof {
                assert forall|x: int| 0 <= x < 64 implies !bit(row, x) by {
                    lemma_bit_set(row, 0, x as u64);
                }
            }
            while i < width
                invariant
                    i <= width,
                    width <= 64,
                    line@.len() == width,
                    forall|x: int| 0 <= x < 64 ==> bit(row, x) == (x < i && line@[x] == NAIL),
                decreases width - i,
            {
                if line[i] == NAIL {
                    let ghost before = row;
                    row = row | (1u64 << (i as u64));
                    proof {
                        assert forall|x: int| 0 <= x < 64 implies bit(row, x) == (x < i + 1
                            && line@[x] == NAIL) by {
                            lemma_bit_set(before, i as u64, x as u64);
                            assert(bit(before, x) == (x < i && line@[x] == NAIL));
                            assert(bit(row, x) == (bit(before, x) || x == i));
                        }
                    }
                }
                i += 1;
            }
            rows.push(row);
            y += 1;
        }
        let b = Board { width, rows };
        proof {
            assert(b@.len() == nails_of(ls).len());
            assert forall|k: int| 0 <= k < b@.len() implies #[trigger] b@[k] == nails_of(ls)[k] by {
                assert(ls[k].len() == width);
                assert(b@[k] =~= nails_of(ls)[k]);
            }
            assert(b@ =~= nails_of(ls));
        }
        Ok(b)
    }

    /// Whether there is a nail in column `x` of row `y`; beyond the board
    /// there is none.
    pub fn has_nail(&self, x: usize, y: usize) -> (r: bool)
        ensures
            r == nail_at(self@, x as int, y as int),
    {
        proof {
            use_type_invariant(self);
        }
        if y < self.rows.len() && x < self.width {
            self.rows[y] & (1u64 << (x as u64)) != 0
        } else {
            false
        }
    }

    /// The number of rows.
    pub fn height(&self) -> (n: usize)
        ensures
            n == self@.len(),
    {
        self.rows.len()
    }

    /// The number of columns, which every row has.
    pub fn width(&self) -> (n: usize)
        ensures
            n == self.spec_width(),
            n <= 64,
            forall|y: int| 0 <= y < self@.len() ==> (#[trigger] self@[y]).len() == n,
    {
        proof {
            use_type_invariant(self);
        }
        self.width
    }

    /// Lets a token fall through the board from the slot with the given
    /// index, counted from zero, and returns the number of coins that it
    /// wins. The token is refused where the slot lies beyond the board, and
    /// where it meets a nail after its last move is spent.
    pub fn simulate(&self, slot_idx: usize, moves: &[Direction]) -> (r: Result<u64, Error>)
        ensures
            is_coins(r, simulated(self@, self.spec_width(), slot_idx as int, moves@)),
    {
        let width = self.width();
        if slot_idx >= width || 2 * slot_idx >= width {
            return Err(Error::SlotOffBoard);
        }
        let ghost b = self@;
        let mut x: i64 = 2 * slot_idx as i64;
        let mut spent: usize = 0;
        let mut y: usize = 0;
        while y < self.height()
            invariant
                b == self@,
                width == self.spec_width(),
                width <= 64,
                2 * slot_idx < width,
                -1 <= x <= width,
                spent <= moves@.len(),
                y <= b.len(),
                fall(b, width as int, moves@, x as int, y as int, spent as int) == fall(
                    b,
                    width as int,
                    moves@,
                    2 * slot_idx,
                    0,
                    0,
                ),
            decreases b.len() - y,
        {
            if 0 <= x && x < width as i64 && self.has_nail(x as usize, y) {
                if spent >= moves.len() {
                    proof {
                        assert(fall(b, width as int, moves@, x as int, y as int, spent as int)
                            is None);
                    }
                    return Err(Error::OutOfMoves);
                }
                match moves[spent] {
                    Direction::Left => {
                        if x != 0 {
                            x -= 1;
                        } else {
                            x += 1;
                        }
                    },
                    Direction::Right => {
                        if x != width as i64 - 1 {
                            x += 1;
                        } else {
                            x -= 1;
                        }
                    },
                }
                spent += 1;
            }
            y += 1;
        }
        let initial_slot: i64 = slot_idx as i64 + 1;
        let final_slot: i64 = if x < 0 {
            0
        } else {
            x / 2 + 1
        };
        if 2 * final_slot > initial_slot {
            Ok((2 * final_slot - initial_slot) as u64)
        } else {
            Ok(0)
        }
    }
}

} // verus!
