use sudoku::{Board, Number, Square, Sudoku};

fn parse_ok(s: &str) -> Board {
    Board::parse(s.as_bytes()).expect("expected a valid grid")
}

fn text_of(s: &Sudoku) -> String {
    String::from_utf8(s.board().to_text()).expect("board text is ASCII")
}

const PUZZLE: &str =
    "530070000600195000098000060800060003400803001700020006060000280000419005000080079";

const SOLUTION: &str =
    "534678912672195348198342567859761423426853791713924856961537284287419635345286179";

#[test]
fn is_legal_matches_row_col_block_contents() {
    let sudoku = Sudoku::new(parse_ok(PUZZLE));
    let cell2 = Square::new(2).unwrap();
    // Digit 4 appears nowhere in row 0, column 2, or block 0.
    assert!(sudoku.is_legal(cell2, Number::new(4).unwrap()));
    // Digit 5 already sits in row 0.
    assert!(!sudoku.is_legal(cell2, Number::new(5).unwrap()));
    // Digit 8 already sits in column 2 and block 0.
    assert!(!sudoku.is_legal(cell2, Number::new(8).unwrap()));
    // Digit 9 already sits in block 0.
    assert!(!sudoku.is_legal(cell2, Number::new(9).unwrap()));
}

#[test]
fn put_places_only_legal_digits_on_vacant_cells() {
    let mut sudoku = Sudoku::new(parse_ok(PUZZLE));
    let cell2 = Square::new(2).unwrap();
    let before = text_of(&sudoku);
    // Illegal digit: refused, state unchanged.
    assert!(!sudoku.put(cell2, Number::new(5).unwrap()));
    assert_eq!(text_of(&sudoku), before);
    // Occupied cell: refused even for an otherwise unseen digit.
    let cell0 = Square::new(0).unwrap();
    assert!(!sudoku.put(cell0, Number::new(2).unwrap()));
    assert_eq!(text_of(&sudoku), before);
    // Legal digit: placed.
    assert!(sudoku.put(cell2, Number::new(4).unwrap()));
    assert_eq!(sudoku.board().get(cell2).unwrap().get(), 4);
}

#[test]
fn solve_reproduces_known_unique_solution() {
    let mut sudoku = Sudoku::new(parse_ok(PUZZLE));
    assert!(!sudoku.is_solved());
    assert!(sudoku.solve());
    assert!(sudoku.is_solved());
    let expected = text_of(&Sudoku::new(parse_ok(SOLUTION)));
    assert_eq!(text_of(&sudoku), expected);
}

#[test]
fn is_solvable_leaves_grid_unchanged() {
    let mut sudoku = Sudoku::new(parse_ok(PUZZLE));
    let before = text_of(&sudoku);
    assert!(sudoku.is_solvable());
    assert_eq!(text_of(&sudoku), before);
}

#[test]
fn is_unique_solvable_leaves_grid_unchanged() {
    let mut sudoku = Sudoku::new(parse_ok(PUZZLE));
    let before = text_of(&sudoku);
    assert!(sudoku.is_unique_solvable());
    assert_eq!(text_of(&sudoku), before);
}

#[test]
fn empty_grid_is_solvable_but_not_unique() {
    let mut sudoku = Sudoku::new(Board::empty());
    assert!(sudoku.is_solvable());
    // Many completions exist, so uniqueness fails.
    assert!(!sudoku.is_unique_solvable());
}

#[test]
fn full_grid_is_trivially_unique() {
    let mut sudoku = Sudoku::new(parse_ok(SOLUTION));
    assert!(sudoku.is_solved());
    assert!(sudoku.is_solvable());
    assert!(sudoku.is_unique_solvable());
}

#[test]
fn unsolvable_grid_reports_false_and_is_unchanged() {
    // Cell (0,2) of row 0 "5 3 _ ..." has no candidate: 1,2,4,6,7,8,9 all
    // collide through its column and block, 3 and 5 through its row.
    let grid = "530400000\
                600000000\
                798000000\
                001000000\
                002000000\
                000000000\
                000000000\
                000000000\
                000000000";
    let mut sudoku = Sudoku::new(parse_ok(grid));
    let before = text_of(&sudoku);
    assert!(!sudoku.is_solvable());
    assert!(!sudoku.is_unique_solvable());
    assert!(!sudoku.solve());
    assert_eq!(text_of(&sudoku), before);
}

#[test]
fn limited_search_with_zero_budget_gives_up_unchanged() {
    let mut sudoku = Sudoku::new(parse_ok(PUZZLE));
    let before = text_of(&sudoku);
    assert_eq!(sudoku.is_solvable_limited(0), None);
    assert_eq!(text_of(&sudoku), before);
}

#[test]
fn limited_search_with_large_budget_agrees_with_is_solvable() {
    let mut sudoku = Sudoku::new(parse_ok(PUZZLE));
    assert_eq!(sudoku.is_solvable_limited(1_000_000), Some(true));
    let before = text_of(&sudoku);
    assert_eq!(text_of(&sudoku), before);
}

#[test]
fn grid_with_two_completions_is_not_unique() {
    // Blank a swappable rectangle of the known solution: cells (3,5), (3,8),
    // (4,5), (4,8) hold 1,3,3,1, and swapping the pair gives a second valid
    // completion, so uniqueness must fail while solvability holds.
    let mut chars: Vec<u8> = SOLUTION.bytes().collect();
    for idx in [32usize, 35, 41, 44] {
        chars[idx] = b'0';
    }
    let grid = String::from_utf8(chars).unwrap();
    let mut sudoku = Sudoku::new(parse_ok(&grid));
    assert!(sudoku.is_solvable());
    assert!(!sudoku.is_unique_solvable());
}

#[test]
fn limited_search_budget_margin_on_full_grid() {
    // A full grid is one search node. The counter reaches a budget of 1 on
    // that very node, so the search gives up; a budget of 2 answers.
    let mut sudoku = Sudoku::new(parse_ok(SOLUTION));
    assert_eq!(sudoku.is_solvable_limited(1), None);
    assert_eq!(sudoku.is_solvable_limited(2), Some(true));
}

#[test]
fn solve_is_deterministic_on_equal_grids() {
    let mut a = Sudoku::new(parse_ok(PUZZLE));
    let mut b = Sudoku::new(parse_ok(PUZZLE));
    assert_eq!(a.solve(), b.solve());
    assert_eq!(text_of(&a), text_of(&b));
}
