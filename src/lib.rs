//! A 9x9 sudoku solver by chronological backtracking.
//!
//! The board is addressed by validated indices; each write goes through a
//! reversible action; the search is a state machine whose every move is
//! proved equal to a mathematical `step`, shown to terminate, to be
//! deterministic, to have completed the puzzle when it ends solved, and to
//! have missed no completion when it ends exhausted.

mod actions;
mod coordinate;
mod grid;
mod index;
mod iter;
mod solver;
mod text;

pub use actions::{lemma_revert_then_apply, AppliedAction, UnappliedAction};
pub use coordinate::{on_board, scan_position, Coordinate, SquareCoordinate};
pub use grid::{
    clash, col_has_duplicate, col_holds, empty_slots, empty_slots_upto, holds, in_square,
    is_full_board, is_solved_board, lemma_clear_keeps_valid, lemma_solved_board_has_each_digit_once,
    lemma_write_keeps_valid, row_has_duplicate, row_holds, square_has_duplicate, square_holds,
    valid_at, Board, Grid, SudokuValue, SudokuValueConversionError,
};
pub use index::{IndexConversionError, SquareIndex, SudokuIndex};
pub use iter::{square_position, ColIter, IndexIter, RowIter, SquareIter};
pub use solver::{
    agrees, checked_board, checked_count, comes_before, completes, consistent_with, digits_along,
    extends, follows_order, history_digits, initial_state, is_completion, is_terminal, iterate,
    lemma_exhausted_search_has_no_completion, lemma_solved_empty_board,
    lemma_solved_search_completes, lemma_solving_is_deterministic, nothing_skipped,
    phase_after_write, runs_to, solve, step, visit_order, well_formed, written_cells, MainError,
    Phase, SearchState, Solver,
};
pub use text::{cell_of_char, has_bad_row, parse_rows, ParseGridError};
