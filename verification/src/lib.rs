//! A verified Sudoku engine: validated grid construction, a bit-packed
//! constraint tracker, backtracking search (solve, solvability, uniqueness,
//! node-budgeted solvability), and randomized unique-puzzle generation.

mod bitboard;
mod bits;
mod board;
mod model;
mod number;
mod square;
mod sudoku;
mod used_mask;

pub use self::board::{
    digit_of, digits_of, encoded, is_digit_byte, is_ws, lemma_text_round_trip, non_ws,
    parsed_digits, render, rendered_digits, Board, BoardError, ParseError,
};
pub use self::model::{
    best_vacant, best_vacant_from, block_cell, block_of, block_slot, col_of, count_legal,
    count_legal_from, digit_in_block, digit_in_col, digit_in_row,
    dup_in_block, dup_in_col, dup_in_row, empty_grid, filled_count, first_solution,
    first_solution_from, full_grid, grid_extends, is_completion, legal_at,
    lemma_best_vacant_from, lemma_blank_keeps_valid, lemma_block_cell, lemma_block_decompose,
    lemma_cell_decompose, lemma_completion_digit_legal, lemma_completion_of_update,
    lemma_completion_to_update, lemma_empty_solvable, lemma_first_solution_from_sound,
    lemma_first_solution_sound, lemma_full_unique, lemma_no_dups_iff,
    lemma_place_keeps_valid, lemma_search_nodes_from_lb, lemma_search_nodes_pos,
    lemma_search_skip, lemma_unique_completion, lemma_vacant_finite,
    lemma_vacant_update_removes, no_dups, pattern_digit, pattern_grid, row_of, same_group,
    search_nodes, search_nodes_from, solvable, two_completions, uniquely_solvable, vacant_cells,
    valid_grid, wf_grid,
};
pub use self::number::Number;
pub use self::sudoku::Sudoku;
pub use self::square::{Block, Col, Row, Square};
