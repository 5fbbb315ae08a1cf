use quests::quest01::board::{parse_moves, Board, Direction, RowBits};
use quests::quest01::errors::Error;
use quests::text::{split_emptyline, split_lines};

#[test]
fn reflects_off_the_left_edge() {
    let board = Board::new(b"*.\n.*", RowBits::Bits64).unwrap();
    assert_eq!(board.width(), 2);
    assert_eq!(board.height(), 2);
    assert!(board.has_nail(0, 0));
    assert!(!board.has_nail(1, 0));
    assert!(!board.has_nail(0, 1));
    assert!(board.has_nail(1, 1));
    // The first nail throws the token back from the edge into column 1,
    // where the second row has a nail too: one move is not enough.
    assert_eq!(board.simulate(0, &parse_moves(b"L").unwrap()), Err(Error::OutOfMoves));
    assert_eq!(board.simulate(0, &parse_moves(b"LL").unwrap()), Ok(1));
    assert_eq!(board.simulate(0, &parse_moves(b"LR").unwrap()), Ok(1));
    // Without the second nail the token leaves in column 1, still slot 1.
    let board = Board::new(b"*.\n..", RowBits::Bits64).unwrap();
    assert_eq!(board.simulate(0, &parse_moves(b"L").unwrap()), Ok(1));
}

#[test]
fn reflects_off_the_right_edge() {
    // From slot 1 the token starts in the last column, bounces back to
    // column 1, and column 1 belongs to slot 1: twice one, less two.
    let board = Board::new(b"..*", RowBits::Bits64).unwrap();
    assert_eq!(board.simulate(1, &[Direction::Right]), Ok(0));
    // On two rows it bounces back and forth: columns 2, 1, 2.
    let board = Board::new(b"..*\n.*.", RowBits::Bits64).unwrap();
    assert_eq!(board.simulate(1, &[Direction::Right, Direction::Right]), Ok(2));
}

#[test]
fn reward_is_twice_the_last_slot_less_the_first() {
    // Three rows of nails under slot 0, all moves to the right: the token
    // leaves in column 3, which is slot 2 counted from one: 2 * 2 - 1.
    let board = Board::new(b"*....\n.*...\n..*..", RowBits::Bits64).unwrap();
    assert_eq!(board.simulate(0, &parse_moves(b"RRR").unwrap()), Ok(3));
    // From slot 2, all moves to the left, no nail is met: 2 * 3 - 3.
    assert_eq!(board.simulate(2, &parse_moves(b"LLL").unwrap()), Ok(3));
    // From slot 2 to column 1 is a loss, which counts as nothing.
    let board = Board::new(b"....*\n...*.\n..*..", RowBits::Bits64).unwrap();
    assert_eq!(board.simulate(2, &parse_moves(b"LLL").unwrap()), Ok(0));
}

#[test]
fn a_board_of_one_column() {
    let board = Board::new(b"*\n*", RowBits::Bits64).unwrap();
    assert_eq!(board.simulate(0, &[Direction::Left, Direction::Left]), Ok(1));
    assert_eq!(board.simulate(0, &[Direction::Right, Direction::Right]), Ok(0));
}

#[test]
fn slot_beyond_the_board_is_refused() {
    let board = Board::new(b"*.\n.*", RowBits::Bits64).unwrap();
    assert_eq!(board.simulate(1, &[Direction::Left]), Err(Error::SlotOffBoard));
    assert_eq!(board.simulate(usize::MAX, &[Direction::Left]), Err(Error::SlotOffBoard));
}

#[test]
fn spent_moves_are_refused() {
    let board = Board::new(b"*.\n.*", RowBits::Bits64).unwrap();
    assert_eq!(board.simulate(0, &[]), Err(Error::OutOfMoves));
    let board = Board::new(b"..\n..", RowBits::Bits64).unwrap();
    assert_eq!(board.simulate(0, &[]), Ok(1));
}

#[test]
fn boards_are_as_wide_as_their_rows_allow() {
    let wide = [b'*'; 64];
    let wider = [b'*'; 65];
    let narrow = [b'.'; 33];
    assert!(Board::new(&wide, RowBits::Bits64).is_ok());
    assert!(matches!(Board::new(&wider, RowBits::Bits64), Err(Error::BoardTooWide)));
    assert!(matches!(Board::new(&narrow, RowBits::Bits32), Err(Error::BoardTooWide)));
    assert!(Board::new(&narrow[..32], RowBits::Bits32).is_ok());
    assert!(matches!(Board::new(b"", RowBits::Bits64), Err(Error::EmptyBoard)));
    assert!(matches!(Board::new(b"**\n*", RowBits::Bits64), Err(Error::RaggedBoard)));
    let board = Board::new(&wide, RowBits::Bits64).unwrap();
    assert!(board.has_nail(63, 0));
    assert!(!board.has_nail(64, 0));
    assert!(!board.has_nail(0, 1));
    assert_eq!(RowBits::Bits32.count(), 32);
    assert_eq!(RowBits::Bits64.count(), 64);
}

#[test]
fn moves_are_letters() {
    assert_eq!(parse_moves(b"LR"), Ok(vec![Direction::Left, Direction::Right]));
    assert_eq!(parse_moves(b""), Ok(vec![]));
    assert_eq!(parse_moves(b"Lr"), Err(Error::BadMove));
}

#[test]
fn lines_and_blank_lines() {
    assert_eq!(split_lines(b"ab\ncd\r\n\nef\r"), vec![&b"ab"[..], b"cd", b"", b"ef\r"]);
    assert_eq!(split_lines(b"ab\n"), vec![&b"ab"[..]]);
    assert!(split_lines(b"").is_empty());
    assert_eq!(split_emptyline(b"ab\n\ncd\n\nef"), Some((&b"ab"[..], &b"cd\n\nef"[..])));
    assert_eq!(split_emptyline(b"ab\r\n\r\ncd"), Some((&b"ab"[..], &b"cd"[..])));
    assert_eq!(split_emptyline(b"a\r\n\r\nb\n\nc"), Some((&b"a\r\n\r\nb"[..], &b"c"[..])));
    assert_eq!(split_emptyline(b"ab\ncd"), None);
}
