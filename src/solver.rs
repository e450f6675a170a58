use vstd::prelude::*;
use crate::actions::{AppliedAction, UnappliedAction};
use crate::coordinate::{on_board, Coordinate};
use crate::grid::{
    empty_slots, is_full_board, lemma_clear_keeps_valid, lemma_empty_slots_upto,
    lemma_broken_rule_persists, lemma_scan_covers, lemma_solved_board_has_each_digit_once, lemma_write_keeps_valid, offset,
    col_holds, is_solved_board, row_holds, square_holds, valid_at, Board, Grid, SudokuValue,
};

verus! {

broadcast use {SudokuValue::lemma_from_nat, SudokuValue::lemma_from_view};

/// Where the search stands.
#[derive(Clone, Copy, Debug, PartialEq, Eq, Structural)]
pub enum Phase {
    /// Cells remain to be filled and the board is valid around the last write.
    Seeking,
    /// The last write broke a rule; the most recent writes are being undone.
    Repairing,
    /// Every cell is filled and the last write broke no rule.
    Solved,
    /// Every candidate has been tried: the puzzle has no completion.
    Exhausted,
}

/// How a run of the solver can fail.
#[derive(Clone, Copy, Debug, PartialEq, Eq, Structural)]
pub enum MainError {
    /// The puzzle as given already breaks a rule.
    InvalidPartialPuzzle,
    /// Every candidate was tried and none completes the puzzle.
    NoSolutionFound,
}

/// The search as a mathematical object: the board, the writes made so far
/// (oldest first), the cells still to fill (the next one last), and the phase.
pub struct SearchState {
    pub board: Board,
    pub history: Seq<((nat, nat), SudokuValue)>,
    pub worklist: Seq<(nat, nat)>,
    pub phase: Phase,
}

/// Whether the search has come to an end.
pub open spec fn is_terminal(s: SearchState) -> bool {
    s.phase == Phase::Solved || s.phase == Phase::Exhausted
}

/// The search at its start on board `b`: nothing written, every empty cell
/// still to fill.
pub open spec fn initial_state(b: Board) -> SearchState {
    SearchState { board: b, history: Seq::empty(), worklist: empty_slots(b), phase: Phase::Seeking }
}

/// The phase after a write at `p` has left the board as `b`.
pub open spec fn phase_after_write(b: Board, p: (nat, nat), worklist: Seq<(nat, nat)>) -> Phase {
    if !valid_at(b, p) {
        Phase::Repairing
    } else if worklist.len() == 0 {
        Phase::Solved
    } else {
        Phase::Seeking
    }
}

/// One move of the search.
///
/// Seeking: take the last cell of the worklist, write the digit 1 there and
/// record the write. Repairing: undo the latest write; if its digit can grow,
/// write the next digit instead, else return the cell to the worklist and stay
/// in repair, or give up when nothing is left to undo.
pub open spec fn step(s: SearchState) -> SearchState {
    match s.phase {
        Phase::Seeking => {
            if s.worklist.len() == 0 {
                SearchState { phase: Phase::Solved, ..s }
            } else {
                let p = s.worklist.last();
                let v = SudokuValue::from_nat(1);
                let board = s.board.insert(p, Some(v));
                let worklist = s.worklist.drop_last();
                SearchState {
                    board,
                    history: s.history.push((p, v)),
                    worklist,
                    phase: phase_after_write(board, p, worklist),
                }
            }
        },
        Phase::Repairing => {
            if s.history.len() == 0 {
                SearchState { phase: Phase::Exhausted, ..s }
            } else {
                let (p, v) = s.history.last();
                let rest = s.history.drop_last();
                if v@ < 9 {
                    let w = SudokuValue::from_nat(v@ + 1);
                    let board = s.board.insert(p, None).insert(p, Some(w));
                    SearchState {
                        board,
                        history: rest.push((p, w)),
                        worklist: s.worklist,
                        phase: phase_after_write(board, p, s.worklist),
                    }
                } else {
                    SearchState {
                        board: s.board.insert(p, None),
                        history: rest,
                        worklist: s.worklist.push(p),
                        phase: if rest.len() == 0 {
                            Phase::Exhausted
                        } else {
                            Phase::Repairing
                        },
                    }
                }
            }
        },
        _ => s,
    }
}

/// The state after `n` moves from `s`.
pub open spec fn iterate(s: SearchState, n: nat) -> SearchState
    decreases n,
{
    if n == 0 {
        s
    } else {
        iterate(step(s), (n - 1) as nat)
    }
}

/// The search from `s` comes to an end in state `t`.
pub open spec fn runs_to(s: SearchState, t: SearchState) -> bool {
    is_terminal(t) && exists|n: nat| #[trigger] iterate(s, n) == t
}

/// Every recorded digit is one of `1..=9`, a repair has a write to undo, and
/// a solved search has no cell left to fill.
pub open spec fn well_formed(s: SearchState) -> bool {
    &&& forall|i: int| 0 <= i < s.history.len() ==> 1 <= (#[trigger] s.history[i]).1@ <= 9
    &&& s.phase == Phase::Repairing ==> s.history.len() > 0
    &&& s.phase == Phase::Solved ==> s.worklist.len() == 0
}

/// The number of nodes in a complete 9-ary tree of depth `d`.
spec fn subtree_size(d: nat) -> nat
    decreases d,
{
    if d == 0 {
        1
    } else {
        1 + 9 * subtree_size((d - 1) as nat)
    }
}

/// The position of the write sequence `h` in a preorder walk of all write
/// sequences over `n` cells.
spec fn preorder_rank(h: Seq<((nat, nat), SudokuValue)>, n: nat) -> int
    decreases h.len(),
{
    if h.len() == 0 {
        0
    } else {
        preorder_rank(h.drop_last(), n) + 1 + (h.last().1@ - 1) * subtree_size((n - h.len()) as nat)
    }
}

/// The rank of the last sequence in the preorder walk that extends `h`.
spec fn subtree_end(h: Seq<((nat, nat), SudokuValue)>, n: nat) -> int {
    preorder_rank(h, n) + subtree_size((n - h.len()) as nat) - 1
}

/// The number of cells the search decides over.
spec fn cells_in_play(s: SearchState) -> nat {
    s.history.len() + s.worklist.len()
}

/// How far the search still may go: it shrinks with every move, or stays
/// while the history shrinks.
spec fn remaining(s: SearchState) -> int {
    let n = cells_in_play(s);
    match s.phase {
        Phase::Seeking => subtree_size(n) - preorder_rank(s.history, n),
        Phase::Repairing => subtree_size(n) - subtree_end(s.history, n),
        _ => 0,
    }
}

proof fn lemma_subtree_size_positive(d: nat)
    ensures
        subtree_size(d) >= 1,
    decreases d,
{
    if d > 0 {
        lemma_subtree_size_positive((d - 1) as nat);
    }
}

/// The subtree of `h` ends no later than that of its parent, so no later than
/// the whole walk.
proof fn lemma_subtree_end_bound(h: Seq<((nat, nat), SudokuValue)>, n: nat)
    requires
        h.len() <= n,
        forall|i: int| 0 <= i < h.len() ==> 1 <= (#[trigger] h[i]).1@ <= 9,
    ensures
        preorder_rank(h, n) <= subtree_end(h, n),
        subtree_end(h, n) <= subtree_size(n) - 1,
    decreases h.len(),
{
    lemma_subtree_size_positive((n - h.len()) as nat);
    if h.len() > 0 {
        let p = h.drop_last();
        assert forall|i: int| 0 <= i < p.len() implies 1 <= (#[trigger] p[i]).1@ <= 9 by {
            assert(p[i] == h[i]);
        }
        lemma_subtree_end_bound(p, n);
        lemma_last_child(h, n);
        let v = h.last().1@ as int;
        let t = subtree_size((n - h.len()) as nat) as int;
        assert(v * t <= 9 * t) by (nonlinear_arith)
            requires
                v <= 9,
                t >= 1,
        ;
    }
}

/// The rank of `h` and the end of its subtree, in terms of its parent.
proof fn lemma_last_child(h: Seq<((nat, nat), SudokuValue)>, n: nat)
    requires
        0 < h.len() <= n,
    ensures
        subtree_end(h, n) == preorder_rank(h.drop_last(), n) + h.last().1@ * subtree_size(
            (n - h.len()) as nat,
        ),
        subtree_end(h.drop_last(), n) == preorder_rank(h.drop_last(), n) + 9 * subtree_size(
            (n - h.len()) as nat,
        ),
{
    let v = h.last().1@ as int;
    let t = subtree_size((n - h.len()) as nat) as int;
    assert((v - 1) * t + t == v * t) by (nonlinear_arith);
    assert(subtree_size((n - h.drop_last().len()) as nat) == 1 + 9 * t);
}

/// Each move keeps the state well formed, and either shrinks what remains or
/// keeps it while undoing a write.
proof fn lemma_step_progress(s: SearchState)
    requires
        well_formed(s),
        !is_terminal(s),
    ensures
        well_formed(step(s)),
        cells_in_play(step(s)) == cells_in_play(s),
        0 <= remaining(step(s)) < remaining(s) || (remaining(step(s)) == remaining(s)
            && step(s).history.len() < s.history.len()),
{
    let n = cells_in_play(s);
    let t = step(s);
    let h = s.history;
    lemma_subtree_end_bound(h, n);
    if s.phase == Phase::Seeking {
        if s.worklist.len() > 0 {
            let h2 = t.history;
            assert(h2.drop_last() =~= h);
            assert forall|i: int| 0 <= i < h2.len() implies 1 <= (#[trigger] h2[i]).1@ <= 9 by {
                if i < h.len() {
                    assert(h2[i] == h[i]);
                }
            }
            lemma_subtree_end_bound(h2, n);
        }
    } else {
        let p = h.drop_last();
        let v = h.last().1@;
        lemma_last_child(h, n);
        if v < 9 {
            let h2 = t.history;
            assert(h2.drop_last() =~= p);
            assert forall|i: int| 0 <= i < h2.len() implies 1 <= (#[trigger] h2[i]).1@ <= 9 by {
                if i < p.len() {
                    assert(h2[i] == h[i]);
                }
            }
            lemma_subtree_end_bound(h2, n);
            let d = subtree_size((n - h.len()) as nat) as int;
            assert((v + 1 - 1) * d == v * d) by (nonlinear_arith);
        } else {
            assert forall|i: int| 0 <= i < p.len() implies 1 <= (#[trigger] p[i]).1@ <= 9 by {
                assert(p[i] == h[i]);
            }
            lemma_subtree_end_bound(p, n);
        }
    }
}

/// One more move after `k` moves is the move from the state after `k`.
proof fn lemma_iterate_last(s: SearchState, k: nat)
    ensures
        iterate(s, k + 1) == step(iterate(s, k)),
    decreases k,
{
    assert(iterate(s, k + 1) == iterate(step(s), k));
    if k > 0 {
        lemma_iterate_last(step(s), (k - 1) as nat);
        assert(iterate(s, k) == iterate(step(s), (k - 1) as nat));
    }
}

/// The cells written so far, oldest first.
pub open spec fn written_cells(h: Seq<((nat, nat), SudokuValue)>) -> Seq<(nat, nat)> {
    h.map_values(|e: ((nat, nat), SudokuValue)| e.0)
}

/// The board that the rules were last checked against: in repair, the latest
/// write is not counted.
pub open spec fn checked_board(s: SearchState) -> Board {
    if s.phase == Phase::Repairing {
        s.board.insert(s.history.last().0, None)
    } else {
        s.board
    }
}

/// The number of writes whose cells are known to break no rule.
pub open spec fn checked_count(s: SearchState) -> int {
    if s.phase == Phase::Repairing {
        s.history.len() - 1
    } else {
        s.history.len() as int
    }
}

/// How a search state stands to the board `start` it began on: the given
/// cells are untouched; each cell that was empty is either written, holding
/// its recorded digit, or still to fill and empty, never both and never
/// twice; and the rules hold around every checked write.
pub open spec fn consistent_with(s: SearchState, start: Board) -> bool {
    let w = written_cells(s.history);
    &&& is_full_board(s.board)
    &&& forall|p: (nat, nat)| on_board(p) && start[p] is Some ==> #[trigger] s.board[p] == start[p]
    &&& forall|i: int|
        0 <= i < s.history.len() ==> {
            let e = #[trigger] s.history[i];
            on_board(e.0) && start[e.0] is None && s.board[e.0] == Some(e.1)
        }
    &&& forall|j: int|
        0 <= j < s.worklist.len() ==> {
            let p = #[trigger] s.worklist[j];
            on_board(p) && start[p] is None && s.board[p] is None
        }
    &&& forall|p: (nat, nat)|
        on_board(p) && start[p] is None ==> #[trigger] w.contains(p) || s.worklist.contains(p)
    &&& w.no_duplicates()
    &&& s.worklist.no_duplicates()
    &&& forall|p: (nat, nat)| #[trigger] w.contains(p) ==> !s.worklist.contains(p)
    &&& forall|i: int| 0 <= i < checked_count(s) ==> valid_at(checked_board(s), (#[trigger] s.history[i]).0)
}

proof fn lemma_initial_consistent(b: Board)
    requires
        is_full_board(b),
    ensures
        consistent_with(initial_state(b), b),
{
    let s = initial_state(b);
    let e = empty_slots(b);
    lemma_empty_slots_upto(b, 81);
    assert(written_cells(s.history) =~= Seq::empty());
    assert forall|p: (nat, nat)| on_board(p) && b[p] is None implies #[trigger] written_cells(s.history).contains(p)
        || s.worklist.contains(p) by {
        lemma_scan_covers(p);
    }
    assert forall|i: int, j: int| 0 <= i < e.len() && 0 <= j < e.len() && i != j implies e[i] != e[j] by {
        if i < j {
            assert(offset(e[i]) < offset(e[j]));
        } else {
            assert(offset(e[j]) < offset(e[i]));
        }
    }
}

/// Each move keeps the search consistent with the board it began on.
proof fn lemma_step_consistent(s: SearchState, start: Board)
    requires
        consistent_with(s, start),
        well_formed(s),
        !is_terminal(s),
    ensures
        consistent_with(step(s), start),
{
    let t = step(s);
    let w = written_cells(s.history);
    let w2 = written_cells(t.history);
    if s.phase == Phase::Seeking {
        if s.worklist.len() > 0 {
            let p = s.worklist.last();
            let v = SudokuValue::from_nat(1);
            let wl = s.worklist.drop_last();
            assert(s.worklist[s.worklist.len() - 1] == p);
            assert(w2 =~= w.push(p));
            assert(!w.contains(p));
            assert forall|j: int| 0 <= j < wl.len() implies wl[j] != p by {
                assert(s.worklist[j] == wl[j]);
            }
            assert forall|i: int| 0 <= i < s.history.len() implies s.history[i].0 != p by {
                assert(w[i] == s.history[i].0);
            }
            assert forall|q: (nat, nat)| on_board(q) && start[q] is None implies #[trigger] w2.contains(q)
                || wl.contains(q) by {
                if w.contains(q) {
                    let i = choose|i: int| 0 <= i < w.len() && w[i] == q;
                    assert(w2[i] == q);
                } else if q == p {
                    assert(w2[w.len() as int] == p);
                } else {
                    assert(s.worklist.contains(q));
                    let j = choose|j: int| 0 <= j < s.worklist.len() && s.worklist[j] == q;
                    assert(wl[j] == q);
                }
            }
            assert forall|q: (nat, nat)| #[trigger] w2.contains(q) implies !wl.contains(q) by {
                let i = choose|i: int| 0 <= i < w2.len() && w2[i] == q;
                if i < w.len() {
                    assert(w[i] == q);
                    if wl.contains(q) {
                        let j = choose|j: int| 0 <= j < wl.len() && wl[j] == q;
                        assert(s.worklist[j] == q);
                    }
                }
            }
            assert forall|i: int| 0 <= i < checked_count(t) implies valid_at(checked_board(t), (#[trigger] t.history[i]).0) by {
                if i < s.history.len() {
                    assert(t.history[i] == s.history[i]);
                    if t.phase == Phase::Repairing {
                        assert(checked_board(t) =~= s.board);
                    } else {
                        lemma_write_keeps_valid(s.board, p, v, s.history[i].0);
                    }
                } else {
                    assert(t.history[i] == (p, v));
                }
            }
        }
    } else {
        let (p, v) = s.history.last();
        let rest = s.history.drop_last();
        let base = s.board.insert(p, None);
        let wr = written_cells(rest);
        assert(w[w.len() - 1] == p);
        assert(wr =~= w.drop_last());
        assert forall|i: int| 0 <= i < rest.len() implies rest[i].0 != p by {
            assert(w[i] == rest[i].0);
        }
        assert(!s.worklist.contains(p));
        assert forall|i: int| 0 <= i < rest.len() implies valid_at(base, (#[trigger] rest[i]).0) by {
            assert(rest[i] == s.history[i]);
        }
        if v@ < 9 {
            let x = SudokuValue::from_nat(v@ + 1);
            assert(w2 =~= w);
            assert forall|i: int| 0 <= i < checked_count(t) implies valid_at(checked_board(t), (#[trigger] t.history[i]).0) by {
                if i < rest.len() {
                    assert(t.history[i] == rest[i]);
                    if t.phase == Phase::Repairing {
                        assert(checked_board(t) =~= base);
                    } else {
                        assert(t.board =~= base.insert(p, Some(x)));
                        lemma_write_keeps_valid(base, p, x, rest[i].0);
                    }
                } else {
                    assert(t.history[i] == (p, x));
                }
            }
        } else {
            let wl = s.worklist.push(p);
            assert(wl[s.worklist.len() as int] == p);
            assert forall|q: (nat, nat)| on_board(q) && start[q] is None implies #[trigger] wr.contains(q)
                || wl.contains(q) by {
                if w.contains(q) {
                    let i = choose|i: int| 0 <= i < w.len() && w[i] == q;
                    if i < wr.len() {
                        assert(wr[i] == q);
                    }
                } else {
                    let j = choose|j: int| 0 <= j < s.worklist.len() && s.worklist[j] == q;
                    assert(wl[j] == q);
                }
            }
            assert forall|q: (nat, nat)| #[trigger] wr.contains(q) implies !wl.contains(q) by {
                let i = choose|i: int| 0 <= i < wr.len() && wr[i] == q;
                assert(w[i] == q);
                if wl.contains(q) {
                    let j = choose|j: int| 0 <= j < wl.len() && wl[j] == q;
                    if j < s.worklist.len() {
                        assert(s.worklist[j] == q);
                    }
                }
            }
            assert forall|i: int, j: int| 0 <= i < wl.len() && 0 <= j < wl.len() && i != j implies wl[i] != wl[j] by {
                if i < s.worklist.len() && j < s.worklist.len() {
                    assert(s.worklist[i] == wl[i]);
                    assert(s.worklist[j] == wl[j]);
                } else if i < s.worklist.len() {
                    assert(s.worklist[i] == wl[i]);
                    assert(s.worklist.contains(wl[i]));
                } else {
                    assert(s.worklist[j] == wl[j]);
                    assert(s.worklist.contains(wl[j]));
                }
            }
            assert forall|i: int| 0 <= i < checked_count(t) implies valid_at(checked_board(t), (#[trigger] t.history[i]).0) by {
                assert(t.history[i] == rest[i]);
                lemma_clear_keeps_valid(base, rest.last().0, rest[i].0);
            }
        }
    }
}

/// The board `b` completes the puzzle `start`: every given cell is kept,
/// every empty cell is filled, and no row, column or square around a filled
/// cell holds a digit twice.
pub open spec fn completes(b: Board, start: Board) -> bool {
    forall|p: (nat, nat)|
        on_board(p) ==> (start[p] is Some ==> #[trigger] b[p] == start[p]) && (start[p] is None ==> b[p] is Some
            && valid_at(b, p))
}

/// A solved search that stayed consistent with its puzzle has completed it.
proof fn lemma_solved_state_completes(t: SearchState, start: Board)
    requires
        consistent_with(t, start),
        well_formed(t),
        t.phase == Phase::Solved,
    ensures
        completes(t.board, start),
{
    let w = written_cells(t.history);
    assert forall|p: (nat, nat)| on_board(p) && start[p] is None implies #[trigger] t.board[p] is Some
        && valid_at(t.board, p) by {
        assert(w.contains(p) || t.worklist.contains(p));
        if t.worklist.contains(p) {
            let j = choose|j: int| 0 <= j < t.worklist.len() && t.worklist[j] == p;
            assert(t.worklist[j] == p);
        }
        let i = choose|i: int| 0 <= i < w.len() && w[i] == p;
        assert(w[i] == t.history[i].0);
    }
}

/// Consistency and well-formedness last through any number of moves.
proof fn lemma_iterate_consistent(s: SearchState, start: Board, n: nat)
    requires
        consistent_with(s, start),
        well_formed(s),
    ensures
        consistent_with(iterate(s, n), start),
        well_formed(iterate(s, n)),
    decreases n,
{
    if n > 0 {
        if !is_terminal(s) {
            lemma_step_consistent(s, start);
            lemma_step_progress(s);
        }
        lemma_iterate_consistent(step(s), start, (n - 1) as nat);
    }
}

/// A search that ends solved has completed its puzzle: the given cells are as
/// they were, and each cell that was empty holds a digit that repeats in none
/// of its row, column and square.
pub proof fn lemma_solved_search_completes(start: Board, t: SearchState)
    requires
        is_full_board(start),
        runs_to(initial_state(start), t),
        t.phase == Phase::Solved,
    ensures
        completes(t.board, start),
{
    let n = choose|n: nat| #[trigger] iterate(initial_state(start), n) == t;
    lemma_initial_consistent(start);
    lemma_iterate_consistent(initial_state(start), start, n);
    lemma_solved_state_completes(t, start);
}

/// Solving the empty board, when it ends solved, fills every row, every
/// column and every square with each digit from 1 to 9 exactly once.
pub proof fn lemma_solved_empty_board(start: Board, t: SearchState)
    requires
        is_full_board(start),
        forall|p: (nat, nat)| on_board(p) ==> (#[trigger] start[p]) is None,
        runs_to(initial_state(start), t),
        t.phase == Phase::Solved,
    ensures
        is_solved_board(t.board),
        forall|r: nat, d: nat| r < 9 && 1 <= d <= 9 ==> #[trigger] row_holds(t.board, r, d),
        forall|c: nat, d: nat| c < 9 && 1 <= d <= 9 ==> #[trigger] col_holds(t.board, c, d),
        forall|sq: (nat, nat), d: nat| sq.0 < 3 && sq.1 < 3 && 1 <= d <= 9 ==> #[trigger] square_holds(t.board, sq, d),
{
    let n = choose|n: nat| #[trigger] iterate(initial_state(start), n) == t;
    lemma_initial_consistent(start);
    lemma_iterate_consistent(initial_state(start), start, n);
    lemma_solved_state_completes(t, start);
    let w = written_cells(t.history);
    assert forall|p: (nat, nat)| on_board(p) implies (#[trigger] t.board[p]) is Some && 1 <= t.board[p]->Some_0@ <= 9
        && valid_at(t.board, p) by {
        assert(start[p] is None);
        assert(w.contains(p) || t.worklist.contains(p));
        if t.worklist.contains(p) {
            let j = choose|j: int| 0 <= j < t.worklist.len() && t.worklist[j] == p;
            assert(t.worklist[j] == p);
        }
        let i = choose|i: int| 0 <= i < w.len() && w[i] == p;
        assert(w[i] == t.history[i].0);
        assert(t.board[p] == Some(t.history[i].1));
    }
    lemma_solved_board_has_each_digit_once(t.board);
}

/// The order in which the search takes up the cells that start empty: the
/// last empty cell of a row-major scan first.
pub open spec fn visit_order(start: Board) -> Seq<(nat, nat)> {
    let w = empty_slots(start);
    Seq::new(w.len(), |i: int| w[w.len() - 1 - i])
}

/// The writes cover the first cells of the order `o`, and the worklist holds
/// the rest with the next one last.
pub open spec fn follows_order(s: SearchState, o: Seq<(nat, nat)>) -> bool {
    &&& s.history.len() + s.worklist.len() == o.len()
    &&& forall|i: int| 0 <= i < s.history.len() ==> (#[trigger] s.history[i]).0 == o[i]
    &&& forall|j: int| 0 <= j < s.worklist.len() ==> #[trigger] s.worklist[j] == o[o.len() - 1 - j]
}

/// A board that completes `start`, each filled-in digit numbered from 1 to 9.
pub open spec fn is_completion(c: Board, start: Board) -> bool {
    &&& completes(c, start)
    &&& forall|p: (nat, nat)| on_board(p) && start[p] is None ==> 1 <= (#[trigger] c[p])->Some_0@ <= 9
}

/// The digits that `c` puts in the cells of `o`, in that order.
pub open spec fn digits_along(c: Board, o: Seq<(nat, nat)>) -> Seq<nat> {
    Seq::new(o.len(), |i: int| c[o[i]]->Some_0@)
}

/// The digits of the writes, oldest first.
pub open spec fn history_digits(h: Seq<((nat, nat), SudokuValue)>) -> Seq<nat> {
    h.map_values(|e: ((nat, nat), SudokuValue)| e.1@)
}

/// `a` and `h` agree on their first `j` entries.
pub open spec fn agrees(a: Seq<nat>, h: Seq<nat>, j: int) -> bool {
    forall|i: int| 0 <= i < j ==> #[trigger] a[i] == h[i]
}

/// `a` comes before every sequence that starts with `h` in lexicographic order.
pub open spec fn comes_before(a: Seq<nat>, h: Seq<nat>) -> bool {
    exists|j: int| 0 <= j < h.len() && #[trigger] agrees(a, h, j) && a[j] < h[j]
}

/// `a` starts with `h`.
pub open spec fn extends(a: Seq<nat>, h: Seq<nat>) -> bool {
    agrees(a, h, h.len() as int)
}

/// No completion of `start` lies among the candidates already given up: each
/// comes no earlier than the current writes, and none extends them while
/// they are being repaired; once exhausted, there is none.
pub open spec fn nothing_skipped(s: SearchState, start: Board) -> bool {
    forall|c: Board|
        #[trigger] is_completion(c, start) ==> {
            let a = digits_along(c, visit_order(start));
            let h = history_digits(s.history);
            match s.phase {
                Phase::Exhausted => false,
                Phase::Repairing => !comes_before(a, h) && !extends(a, h),
                _ => !comes_before(a, h),
            }
        }
}

/// A completion that extends the writes keeps every filled cell of the board.
proof fn lemma_extension_keeps_board(t: SearchState, start: Board, c: Board)
    requires
        consistent_with(t, start),
        follows_order(t, visit_order(start)),
        is_completion(c, start),
        extends(digits_along(c, visit_order(start)), history_digits(t.history)),
    ensures
        forall|x: (nat, nat)| on_board(x) && (#[trigger] t.board[x]) is Some ==> c[x] == t.board[x],
{
    let o = visit_order(start);
    let a = digits_along(c, o);
    let hd = history_digits(t.history);
    let w = written_cells(t.history);
    assert forall|x: (nat, nat)| on_board(x) && (#[trigger] t.board[x]) is Some implies c[x] == t.board[x] by {
        if start[x] is None {
            assert(w.contains(x) || t.worklist.contains(x));
            if t.worklist.contains(x) {
                let j = choose|j: int| 0 <= j < t.worklist.len() && t.worklist[j] == x;
                assert(t.worklist[j] == x);
            }
            let i = choose|i: int| 0 <= i < w.len() && w[i] == x;
            assert(w[i] == t.history[i].0);
            assert(t.history[i].0 == o[i]);
            assert(a[i] == hd[i]);
            assert(hd[i] == t.history[i].1@);
            assert(c[x] is Some);
            c[x]->Some_0.lemma_view_injective(t.history[i].1);
        }
    }
}

proof fn lemma_initial_skips_nothing(start: Board)
    requires
        is_full_board(start),
    ensures
        follows_order(initial_state(start), visit_order(start)),
        nothing_skipped(initial_state(start), start),
{
    let s = initial_state(start);
    assert(history_digits(s.history) =~= Seq::<nat>::empty());
}

/// Each move keeps the writes in order and gives up no completion.
proof fn lemma_step_skips_nothing(s: SearchState, start: Board)
    requires
        consistent_with(s, start),
        well_formed(s),
        follows_order(s, visit_order(start)),
        nothing_skipped(s, start),
        !is_terminal(s),
    ensures
        follows_order(step(s), visit_order(start)),
        nothing_skipped(step(s), start),
{
    let o = visit_order(start);
    let t = step(s);
    let hd = history_digits(s.history);
    let hd2 = history_digits(t.history);
    let k = s.history.len() as int;
    lemma_step_consistent(s, start);
    if s.phase == Phase::Seeking {
        if s.worklist.len() > 0 {
            let p = s.worklist.last();
            assert(s.worklist[s.worklist.len() - 1] == p);
            assert(p == o[k]);
            assert(start[p] is None);
            assert(hd2 =~= hd.push(1));
            assert forall|c: Board| #[trigger] is_completion(c, start) implies {
                let a = digits_along(c, o);
                match t.phase {
                    Phase::Exhausted => false,
                    Phase::Repairing => !comes_before(a, hd2) && !extends(a, hd2),
                    _ => !comes_before(a, hd2),
                }
            } by {
                let a = digits_along(c, o);
                assert(!comes_before(a, hd));
                if comes_before(a, hd2) {
                    let j = choose|j: int| 0 <= j < hd2.len() && #[trigger] agrees(a, hd2, j) && a[j] < hd2[j];
                    if j < k {
                        assert(agrees(a, hd, j));
                    } else {
                        assert(a[k] == c[o[k]]->Some_0@);
                        assert(on_board(p));
                    }
                }
                if t.phase == Phase::Repairing && extends(a, hd2) {
                    lemma_extension_keeps_board(t, start, c);
                    lemma_broken_rule_persists(t.board, c, p);
                }
            }
        }
    } else {
        let (q, v) = s.history.last();
        let rest = s.history.drop_last();
        assert(s.history[k - 1] == (q, v));
        assert(q == o[k - 1]);
        assert(start[q] is None && on_board(q));
        assert(hd[k - 1] == v@);
        if v@ < 9 {
            assert forall|i: int| 0 <= i < k - 1 implies hd2[i] == hd[i] by {
                assert(t.history[i] == s.history[i]);
            }
            assert(hd2[k - 1] == v@ + 1);
            assert forall|c: Board| #[trigger] is_completion(c, start) implies {
                let a = digits_along(c, o);
                match t.phase {
                    Phase::Exhausted => false,
                    Phase::Repairing => !comes_before(a, hd2) && !extends(a, hd2),
                    _ => !comes_before(a, hd2),
                }
            } by {
                let a = digits_along(c, o);
                assert(!comes_before(a, hd) && !extends(a, hd));
                if comes_before(a, hd2) {
                    let j = choose|j: int| 0 <= j < hd2.len() && #[trigger] agrees(a, hd2, j) && a[j] < hd2[j];
                    assert(agrees(a, hd, j));
                    if j == k - 1 && a[j] == v@ {
                        assert(agrees(a, hd, k));
                    }
                }
                if t.phase == Phase::Repairing && extends(a, hd2) {
                    lemma_extension_keeps_board(t, start, c);
                    lemma_broken_rule_persists(t.board, c, q);
                }
            }
        } else {
            assert(hd2 =~= hd.drop_last());
            assert forall|c: Board| #[trigger] is_completion(c, start) implies {
                let a = digits_along(c, o);
                match t.phase {
                    Phase::Exhausted => false,
                    Phase::Repairing => !comes_before(a, hd2) && !extends(a, hd2),
                    _ => !comes_before(a, hd2),
                }
            } by {
                let a = digits_along(c, o);
                assert(!comes_before(a, hd) && !extends(a, hd));
                if comes_before(a, hd2) {
                    let j = choose|j: int| 0 <= j < hd2.len() && #[trigger] agrees(a, hd2, j) && a[j] < hd2[j];
                    assert(agrees(a, hd, j));
                }
                if extends(a, hd2) {
                    assert(a[k - 1] == c[q]->Some_0@);
                    if a[k - 1] < 9 {
                        assert(agrees(a, hd, k - 1));
                    } else {
                        assert(agrees(a, hd, k));
                    }
                }
            }
        }
    }
}

/// The order of writes and the completions not yet given up last through any
/// number of moves.
proof fn lemma_iterate_skips_nothing(s: SearchState, start: Board, n: nat)
    requires
        consistent_with(s, start),
        well_formed(s),
        follows_order(s, visit_order(start)),
        nothing_skipped(s, start),
    ensures
        nothing_skipped(iterate(s, n), start),
    decreases n,
{
    if n > 0 {
        if !is_terminal(s) {
            lemma_step_consistent(s, start);
            lemma_step_progress(s);
            lemma_step_skips_nothing(s, start);
        }
        lemma_iterate_skips_nothing(step(s), start, (n - 1) as nat);
    }
}

/// A search that ends exhausted has missed nothing: no board completes its
/// puzzle. Backtracking with every candidate tried in each cell is complete,
/// and a rule broken by some writes stays broken whatever is added to them.
pub proof fn lemma_exhausted_search_has_no_completion(start: Board, t: SearchState)
    requires
        is_full_board(start),
        runs_to(initial_state(start), t),
        t.phase == Phase::Exhausted,
    ensures
        forall|c: Board| !is_completion(c, start),
{
    let n = choose|n: nat| #[trigger] iterate(initial_state(start), n) == t;
    lemma_initial_consistent(start);
    lemma_initial_skips_nothing(start);
    lemma_iterate_skips_nothing(initial_state(start), start, n);
    assert forall|c: Board| !is_completion(c, start) by {
        if is_completion(c, start) {
            assert(nothing_skipped(t, start));
        }
    }
}

/// A finished search stays where it is.
proof fn lemma_iterate_terminal(t: SearchState, m: nat)
    requires
        is_terminal(t),
    ensures
        iterate(t, m) == t,
    decreases m,
{
    if m > 0 {
        lemma_iterate_terminal(step(t), (m - 1) as nat);
    }
}

/// `a + b` moves are `a` moves followed by `b` moves.
proof fn lemma_iterate_add(s: SearchState, a: nat, b: nat)
    ensures
        iterate(s, a + b) == iterate(iterate(s, a), b),
    decreases a,
{
    if a > 0 {
        lemma_iterate_add(step(s), (a - 1) as nat, b);
        assert(iterate(s, a + b) == iterate(step(s), (a - 1 + b) as nat));
    }
}

/// Solving is deterministic: two runs of the search on the same board end in
/// the same state, with the same writes in the same order and the same board.
pub proof fn lemma_solving_is_deterministic(b: Board, first: SearchState, second: SearchState)
    requires
        runs_to(initial_state(b), first),
        runs_to(initial_state(b), second),
    ensures
        first == second,
{
    let s = initial_state(b);
    let n1 = choose|n: nat| #[trigger] iterate(s, n) == first;
    let n2 = choose|n: nat| #[trigger] iterate(s, n) == second;
    if n1 <= n2 {
        lemma_iterate_add(s, n1, (n2 - n1) as nat);
        lemma_iterate_terminal(first, (n2 - n1) as nat);
    } else {
        lemma_iterate_add(s, n2, (n1 - n2) as nat);
        lemma_iterate_terminal(second, (n1 - n2) as nat);
    }
}

/// A backtracking search over a board, one write at a time.
pub struct Solver {
    grid: Grid,
    history: Vec<AppliedAction>,
    empty_slots: Vec<Coordinate>,
    phase: Phase,
}

impl Solver {
    /// The search as a mathematical object.
    pub closed spec fn view(&self) -> SearchState {
        SearchState {
            board: self.grid@,
            history: self.history@.map_values(|a: AppliedAction| (a@.0@, a@.1)),
            worklist: self.empty_slots@.map_values(|c: Coordinate| c@),
            phase: self.phase,
        }
    }

    /// Starts a search on `grid`.
    pub fn new(grid: Grid) -> (r: Solver)
        ensures
            r@ == initial_state(grid@),
    {
        let empty_slots = grid.all_empty_slots();
        let r = Solver { grid, history: Vec::new(), empty_slots, phase: Phase::Seeking };
        proof {
            assert(r@.history =~= Seq::empty());
        }
        r
    }

    pub fn grid(&self) -> (r: &Grid)
        ensures
            r@ == self@.board,
    {
        &self.grid
    }

    pub fn history(&self) -> (r: &Vec<AppliedAction>)
        ensures
            r@.map_values(|a: AppliedAction| (a@.0@, a@.1)) == self@.history,
    {
        &self.history
    }

    pub fn phase(&self) -> (r: Phase)
        ensures
            r == self@.phase,
    {
        self.phase
    }

    /// What a finished search reports: success when solved, and
    /// `NoSolutionFound` when exhausted.
    pub fn outcome(&self) -> (r: Result<(), MainError>)
        requires
            is_terminal(self@),
        ensures
            r is Ok <==> self@.phase == Phase::Solved,
            r is Err ==> r == Err::<(), MainError>(MainError::NoSolutionFound),
    {
        match self.phase {
            Phase::Solved => Ok(()),
            _ => Err(MainError::NoSolutionFound),
        }
    }

    /// Makes one move of the search.
    pub fn step(&mut self)
        ensures
            final(self)@ == step(old(self)@),
    {
        match self.phase {
            Phase::Seeking => {
                match self.empty_slots.pop() {
                    None => {
                        self.phase = Phase::Solved;
                    },
                    Some(slot) => {
                        let action = UnappliedAction::new(slot);
                        let applied = action.apply(&mut self.grid);
                        self.history.push(applied);
                        self.phase = self.phase_after_write(&slot);
                        proof {
                            assert(self@.history =~= step(old(self)@).history);
                            assert(self@.worklist =~= step(old(self)@).worklist);
                        }
                    },
                }
            },
            Phase::Repairing => {
                match self.history.pop() {
                    None => {
                        self.phase = Phase::Exhausted;
                    },
                    Some(last) => {
                        let mut reverted = last.revert(&mut self.grid);
                        if reverted.increment() {
                            let applied = reverted.apply(&mut self.grid);
                            let slot = *applied.coordinate();
                            self.history.push(applied);
                            self.phase = self.phase_after_write(&slot);
                            proof {
                                assert(self@.history =~= step(old(self)@).history);
                            }
                        } else {
                            let slot = reverted.into_coordinate();
                            self.empty_slots.push(slot);
                            self.phase = if self.history.len() == 0 {
                                Phase::Exhausted
                            } else {
                                Phase::Repairing
                            };
                            proof {
                                assert(self@.history =~= step(old(self)@).history);
                                assert(self@.worklist =~= step(old(self)@).worklist);
                            }
                        }
                    },
                }
            },
            _ => {},
        }
    }

    /// The phase that follows a write at `slot`.
    fn phase_after_write(&self, slot: &Coordinate) -> (r: Phase)
        ensures
            r == phase_after_write(self@.board, slot@, self@.worklist),
    {
        if !self.grid.is_valid(slot) {
            Phase::Repairing
        } else if self.empty_slots.len() == 0 {
            Phase::Solved
        } else {
            Phase::Seeking
        }
    }
}

/// Runs the search on `grid` until it is solved or exhausted.
pub fn solve(grid: Grid) -> (r: Solver)
    ensures
        runs_to(initial_state(grid@), r@),
        r@.phase == Phase::Solved ==> completes(r@.board, grid@),
        r@.phase == Phase::Exhausted ==> forall|c: Board| !is_completion(c, grid@),
{
    let ghost puzzle = grid@;
    let ghost start = initial_state(grid@);
    proof {
        grid.lemma_domain();
        lemma_initial_consistent(puzzle);
        lemma_initial_skips_nothing(puzzle);
    }
    let mut solver = Solver::new(grid);
    let ghost mut k: nat = 0;
    while solver.phase == Phase::Seeking || solver.phase == Phase::Repairing
        invariant
            solver@ == iterate(start, k),
            well_formed(solver@),
            consistent_with(solver@, puzzle),
            follows_order(solver@, visit_order(puzzle)),
            nothing_skipped(solver@, puzzle),
        decreases remaining(solver@), solver@.history.len(),
    {
        proof {
            lemma_step_progress(solver@);
            lemma_step_consistent(solver@, puzzle);
            lemma_step_skips_nothing(solver@, puzzle);
            lemma_iterate_last(start, k);
        }
        solver.step();
        proof {
            k = k + 1;
        }
    }
    proof {
        if solver@.phase == Phase::Solved {
            lemma_solved_state_completes(solver@, puzzle);
        }
        assert forall|c: Board| solver@.phase == Phase::Exhausted implies !is_completion(c, puzzle) by {
            if is_completion(c, puzzle) {
                assert(nothing_skipped(solver@, puzzle));
            }
        }
    }
    solver
}

} // verus!
