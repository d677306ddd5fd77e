use sudoku::{Block, Board, BoardError, Col, Number, ParseError, Row, Square};

fn parse_ok(s: &str) -> Board {
    Board::parse(s.as_bytes()).expect("expected a valid grid")
}

fn text_of(b: &Board) -> String {
    String::from_utf8(b.to_text()).expect("board text is ASCII")
}

const PUZZLE: &str =
    "530070000600195000098000060800060003400803001700020006060000280000419005000080079";

#[test]
fn number_constructors() {
    assert!(Number::new(0).is_none());
    assert!(Number::new(10).is_none());
    for d in 1..=9u8 {
        assert_eq!(Number::new(d).unwrap().get(), d);
    }
    let all = Number::all();
    assert_eq!(all.len(), 9);
    assert_eq!(all[0].get(), 1);
    assert_eq!(all[8].get(), 9);
}

#[test]
fn square_constructors_and_groups() {
    assert!(Square::new(81).is_none());
    assert_eq!(Square::new(80).unwrap().get(), 80);
    let sq = Square::new(40).unwrap();
    assert_eq!(sq.row().get(), 4);
    assert_eq!(sq.col().get(), 4);
    assert_eq!(sq.block().get(), 4);
    let sq2 = Square::new(20).unwrap();
    assert_eq!(sq2.row().get(), 2);
    assert_eq!(sq2.col().get(), 2);
    assert_eq!(sq2.block().get(), 0);
    assert_eq!(Square::from_col_row(Col::new(2).unwrap(), Row::new(2).unwrap()).get(), 20);
    assert_eq!(Square::all().len(), 81);
    assert_eq!(Col::all().len(), 9);
    assert_eq!(Row::all().len(), 9);
    assert_eq!(Block::all().len(), 9);
    let col_cells = Square::col_all(Col::new(3).unwrap());
    assert_eq!(col_cells.len(), 9);
    assert_eq!(col_cells[0].get(), 3);
    assert_eq!(col_cells[8].get(), 75);
    let row_cells = Square::row_all(Row::new(3).unwrap());
    assert_eq!(row_cells[0].get(), 27);
    assert_eq!(row_cells[8].get(), 35);
    let block_cells = Square::block_all(Block::new(4).unwrap());
    assert_eq!(block_cells[0].get(), 30);
    assert_eq!(block_cells[8].get(), 50);
}

#[test]
fn empty_board_is_all_vacant() {
    let b = Board::empty();
    assert!(!b.is_solved());
    for sq in Square::all() {
        assert!(b.get(sq).is_none());
    }
}

#[test]
fn new_rejects_duplicate_in_column() {
    let mut cells: Vec<Option<Number>> = vec![None; 81];
    cells[0] = Number::new(7);
    cells[9] = Number::new(7);
    match Board::new(cells) {
        Err(BoardError::IllegalCol(0)) => {}
        other => panic!("expected IllegalCol(0), got {:?}", other),
    }
}

#[test]
fn new_rejects_duplicate_in_block_only() {
    // cells 0 and 10 share only the block.
    let mut cells: Vec<Option<Number>> = vec![None; 81];
    cells[0] = Number::new(7);
    cells[10] = Number::new(7);
    match Board::new(cells) {
        Err(BoardError::IllegalBlock(0)) => {}
        other => panic!("expected IllegalBlock(0), got {:?}", other),
    }
}

#[test]
fn new_accepts_valid_cells() {
    let mut cells: Vec<Option<Number>> = vec![None; 81];
    cells[0] = Number::new(1);
    cells[1] = Number::new(2);
    cells[80] = Number::new(1);
    let b = Board::new(cells).unwrap();
    assert_eq!(b.get(Square::new(0).unwrap()).unwrap().get(), 1);
    assert_eq!(b.get(Square::new(1).unwrap()).unwrap().get(), 2);
    assert_eq!(b.get(Square::new(80).unwrap()).unwrap().get(), 1);
    assert!(b.get(Square::new(2).unwrap()).is_none());
}

#[test]
fn parse_reads_81_digits_ignoring_whitespace() {
    let b = parse_ok(PUZZLE);
    assert_eq!(b.get(Square::new(0).unwrap()).unwrap().get(), 5);
    assert_eq!(b.get(Square::new(1).unwrap()).unwrap().get(), 3);
    assert!(b.get(Square::new(2).unwrap()).is_none());
    // The same digits with interleaved whitespace parse to the same grid.
    let spaced: String = PUZZLE
        .chars()
        .flat_map(|c| [c, ' '])
        .collect::<String>()
        .replace("0 0", "0\n0");
    let b2 = Board::parse(spaced.as_bytes()).unwrap();
    assert_eq!(text_of(&b), text_of(&b2));
}

#[test]
fn parse_rejects_too_few_digits() {
    assert_eq!(Board::parse(b"123").unwrap_err(), ParseError::TooFewNumbers);
}

#[test]
fn parse_rejects_too_many_digits() {
    let long = format!("{}5", PUZZLE);
    assert_eq!(Board::parse(long.as_bytes()).unwrap_err(), ParseError::TooManyNumbers);
}

#[test]
fn parse_rejects_invalid_character() {
    let bad = format!("x{}", &PUZZLE[1..]);
    assert_eq!(Board::parse(bad.as_bytes()).unwrap_err(), ParseError::InvalidChar(b'x'));
}

#[test]
fn parse_rejects_duplicate_in_row() {
    // Two fives in the first row; that row is also the first offending group
    // of its kind, after all columns check out.
    let dup = format!("55{}", &PUZZLE[2..]);
    assert_eq!(
        Board::parse(dup.as_bytes()).unwrap_err(),
        ParseError::IllegalGrid(BoardError::IllegalRow(0))
    );
}

#[test]
fn text_format_is_nine_spaced_lines() {
    let empty_text = text_of(&Board::empty());
    let expected = "0 0 0 0 0 0 0 0 0\n".repeat(9);
    assert_eq!(empty_text, expected);
    let b = parse_ok(PUZZLE);
    let text = text_of(&b);
    assert!(text.starts_with("5 3 0 0 7 0 0 0 0\n6 0 0 1 9 5 0 0 0\n"));
    assert_eq!(text.len(), 162);
}

#[test]
fn text_round_trip_reparses_equal() {
    let b = parse_ok(PUZZLE);
    let text = text_of(&b);
    let b2 = Board::parse(text.as_bytes()).unwrap();
    assert_eq!(text_of(&b2), text);
    for sq in Square::all() {
        assert_eq!(b.get(sq), b2.get(sq));
    }
}
