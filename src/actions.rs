use vstd::prelude::*;
use crate::coordinate::{on_board, Coordinate};
use crate::grid::{Grid, SudokuValue};

verus! {

/// A write whose digit is currently on the board at its cell.
#[derive(Debug)]
pub struct AppliedAction {
    coordinate: Coordinate,
    value: SudokuValue,
}

impl AppliedAction {
    /// The cell and the digit of the action.
    pub closed spec fn view(self) -> (Coordinate, SudokuValue) {
        (self.coordinate, self.value)
    }

    pub fn coordinate(&self) -> (r: &Coordinate)
        ensures
            *r == self@.0,
    {
        &self.coordinate
    }

    pub fn value(&self) -> (r: SudokuValue)
        ensures
            r == self@.1,
    {
        self.value
    }

    /// Clears the action's cell and hands the action back, unapplied, with
    /// the same cell and digit.
    pub fn revert(self, grid: &mut Grid) -> (r: UnappliedAction)
        ensures
            r@ == self@,
            on_board(self@.0@),
            final(grid)@ == old(grid)@.insert(self@.0@, None),
    {
        grid.write(&self.coordinate, None);
        UnappliedAction { coordinate: self.coordinate, value: self.value }
    }
}

/// A write that is not on the board yet: a cell and a candidate digit.
#[derive(Debug)]
pub struct UnappliedAction {
    coordinate: Coordinate,
    value: SudokuValue,
}

impl UnappliedAction {
    /// The cell and the candidate digit of the action.
    pub closed spec fn view(self) -> (Coordinate, SudokuValue) {
        (self.coordinate, self.value)
    }

    /// The action that would put the smallest digit at `coordinate`.
    pub fn new(coordinate: Coordinate) -> (r: Self)
        ensures
            r@.0 == coordinate,
            r@.1@ == 1,
    {
        Self { coordinate, value: SudokuValue::one() }
    }

    /// Writes the candidate digit into the board and hands the action back,
    /// applied.
    pub fn apply(self, grid: &mut Grid) -> (r: AppliedAction)
        ensures
            r@ == self@,
            on_board(self@.0@),
            final(grid)@ == old(grid)@.insert(self@.0@, Some(self@.1)),
    {
        grid.write(&self.coordinate, Some(self.value));
        AppliedAction { coordinate: self.coordinate, value: self.value }
    }

    /// Moves the candidate to the next digit; returns false, changing
    /// nothing, when the candidate is already the largest digit.
    pub fn increment(&mut self) -> (r: bool)
        ensures
            r == (old(self)@.1@ < 9),
            final(self)@.0 == old(self)@.0,
            r ==> final(self)@.1@ == old(self)@.1@ + 1,
            !r ==> final(self)@ == old(self)@,
    {
        self.value.inc()
    }

    /// Gives up the action, keeping only its cell.
    pub fn into_coordinate(self) -> (r: Coordinate)
        ensures
            r == self@.0,
    {
        self.coordinate
    }
}

impl From<UnappliedAction> for Coordinate {
    fn from(action: UnappliedAction) -> (r: Coordinate) {
        action.into_coordinate()
    }
}

impl vstd::std_specs::convert::FromSpecImpl<UnappliedAction> for Coordinate {
    open spec fn obeys_from_spec() -> bool {
        true
    }

    open spec fn from_spec(action: UnappliedAction) -> Coordinate {
        action@.0
    }
}

/// Reverting an applied action and applying it again at once leaves the board
/// as it was before the revert: the revert clears the action's cell, the apply
/// writes back the very digit that was there.
pub proof fn lemma_revert_then_apply(
    action: AppliedAction,
    before: Grid,
    reverted: Grid,
    back: UnappliedAction,
    after: Grid,
)
    requires
        on_board(action@.0@),
        before@[action@.0@] == Some(action@.1),
        back@ == action@,
        reverted@ == before@.insert(action@.0@, None),
        after@ == reverted@.insert(back@.0@, Some(back@.1)),
    ensures
        after@ == before@,
{
    before.lemma_domain();
    assert(after@ =~= before@);
}

} // verus!
