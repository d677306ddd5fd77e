use sudoku::{Square, Sudoku};

fn text_of(s: &Sudoku) -> String {
    String::from_utf8(s.board().to_text()).expect("board text is ASCII")
}

#[test]
fn generate_unique_with_full_hint_floor_keeps_every_cell() {
    let (puzzle, solution) = Sudoku::generate_unique(81);
    assert_eq!(text_of(&puzzle), text_of(&solution));
    let mut check = puzzle;
    assert!(check.is_solved());
    assert!(check.is_unique_solvable());
}

#[test]
fn generate_unique_puzzle_has_exactly_one_completion() {
    let (puzzle, solution) = Sudoku::generate_unique(0);
    let mut check = puzzle;
    assert!(check.is_unique_solvable());
    // Solving a copy of the puzzle reproduces exactly the paired solution.
    assert!(check.solve());
    assert_eq!(text_of(&check), text_of(&solution));
}

#[test]
fn generate_unique_solution_completes_the_puzzle() {
    let (puzzle, solution) = Sudoku::generate_unique(40);
    let mut solved = solution;
    assert!(solved.is_solved());
    let mut filled = 0;
    for sq in Square::all() {
        if let Some(n) = puzzle.board().get(sq) {
            filled += 1;
            assert_eq!(solved.board().get(sq), Some(n));
        }
    }
    // The hint floor is respected: at least 40 cells stay filled.
    assert!(filled >= 40);
}

#[test]
fn generate_unique_keeps_only_critical_cells() {
    // With no hint floor, every cell the pass kept is critical: blanking it
    // loses uniqueness.
    let (puzzle, _solution) = Sudoku::generate_unique(0);
    let text = puzzle.board().to_text();
    for sq in Square::all() {
        if puzzle.board().get(sq).is_some() {
            let mut blanked = text.clone();
            let row = (sq.get() / 9) as usize;
            let col = (sq.get() % 9) as usize;
            blanked[18 * row + 2 * col] = b'0';
            let board = sudoku::Board::parse(&blanked).unwrap();
            let mut probe = Sudoku::new(board);
            assert!(probe.is_solvable());
            assert!(!probe.is_unique_solvable());
        }
    }
}
