use vstd::prelude::*;
use crate::index::{SquareIndex, SudokuIndex};

verus! {

/// Whether a position lies on the 9x9 board.
pub open spec fn on_board(p: (nat, nat)) -> bool {
    p.0 < 9 && p.1 < 9
}

/// The position visited at step `k` of a row-major scan of the board.
pub open spec fn scan_position(k: int) -> (nat, nat) {
    ((k / 9) as nat, (k % 9) as nat)
}

/// A cell of the board, addressed by its row and its column.
#[derive(Clone, Copy, Debug, PartialEq, Eq, Structural, Hash)]
pub struct Coordinate {
    row: SudokuIndex,
    col: SudokuIndex,
}

impl Coordinate {
    /// The position as a (row, column) pair.
    pub closed spec fn view(self) -> (nat, nat) {
        (self.row@, self.col@)
    }

    /// Two coordinates are equal exactly when their positions are.
    pub proof fn lemma_view_injective(self, other: Self)
        ensures
            self@ == other@ <==> self == other,
    {
        self.row.lemma_view_injective(other.row);
        self.col.lemma_view_injective(other.col);
    }

    pub fn new(row: SudokuIndex, col: SudokuIndex) -> (r: Coordinate)
        ensures
            r@ == (row@, col@),
    {
        Coordinate { row, col }
    }

    /// Every cell of the board, row by row, each row from left to right.
    pub fn all_coordinates() -> (r: Vec<Coordinate>)
        ensures
            r.len() == 81,
            forall|k: int| 0 <= k < 81 ==> #[trigger] r@[k]@ == scan_position(k),
            forall|k: int| 0 <= k < 81 ==> on_board(#[trigger] r@[k]@),
            forall|i: int, j: int|
                0 <= i < j < 81 ==> #[trigger] r@[i]@ != #[trigger] r@[j]@,
    {
        let mut r: Vec<Coordinate> = Vec::new();
        let mut row: usize = 0;
        while row < 9
            invariant
                row <= 9,
                r.len() == 9 * row,
                forall|k: int| 0 <= k < r.len() ==> #[trigger] r@[k]@ == scan_position(k),
            decreases 9 - row,
        {
            let mut col: usize = 0;
            while col < 9
                invariant
                    row < 9,
                    col <= 9,
                    r.len() == 9 * row + col,
                    forall|k: int| 0 <= k < r.len() ==> #[trigger] r@[k]@ == scan_position(k),
                decreases 9 - col,
            {
                let ri = SudokuIndex::try_from(row);
                let ci = SudokuIndex::try_from(col);
                match (ri, ci) {
                    (Ok(ri), Ok(ci)) => {
                        r.push(Coordinate::new(ri, ci));
                    },
                    _ => {},
                }
                col = col + 1;
            }
            row = row + 1;
        }
        assert forall|i: int, j: int| 0 <= i < j < 81 implies #[trigger] r@[i]@ != #[trigger] r@[j]@ by {
            assert(r@[i]@ == scan_position(i));
            assert(r@[j]@ == scan_position(j));
        }
        r
    }

    pub fn row(&self) -> (r: &SudokuIndex)
        ensures
            r@ == self@.0,
    {
        &self.row
    }

    pub fn col(&self) -> (r: &SudokuIndex)
        ensures
            r@ == self@.1,
    {
        &self.col
    }

    /// The position as plain integers, both below 9.
    pub fn position(&self) -> (r: (usize, usize))
        ensures
            r.0 == self@.0,
            r.1 == self@.1,
            on_board(self@),
    {
        (self.row.get(), self.col.get())
    }
}

/// One of the nine 3x3 squares, addressed by its band along the rows (`x`)
/// and its band along the columns (`y`).
#[derive(Clone, Copy, Debug, PartialEq, Eq, Structural)]
pub struct SquareCoordinate {
    x: SquareIndex,
    y: SquareIndex,
}

impl SquareCoordinate {
    /// The square as a (row band, column band) pair.
    pub closed spec fn view(self) -> (nat, nat) {
        (self.x@, self.y@)
    }

    /// Two squares are equal exactly when their band pairs are.
    pub proof fn lemma_view_injective(self, other: Self)
        ensures
            self@ == other@ <==> self == other,
    {
        self.x.lemma_view_injective(other.x);
        self.y.lemma_view_injective(other.y);
    }

    pub fn new(x: SquareIndex, y: SquareIndex) -> (r: Self)
        ensures
            r@ == (x@, y@),
    {
        Self { x, y }
    }

    pub fn x(&self) -> (r: &SquareIndex)
        ensures
            r@ == self@.0,
    {
        &self.x
    }

    pub fn y(&self) -> (r: &SquareIndex)
        ensures
            r@ == self@.1,
    {
        &self.y
    }

    /// The square that contains `coor`, as a value.
    pub closed spec fn square_of(coor: Coordinate) -> SquareCoordinate {
        SquareCoordinate { x: SquareIndex::band_of(coor.row), y: SquareIndex::band_of(coor.col) }
    }

    /// The square that contains `coor`.
    pub fn containing(coor: &Coordinate) -> (r: Self)
        ensures
            r@ == (coor@.0 / 3, coor@.1 / 3),
            r == Self::square_of(*coor),
    {
        let x = SquareIndex::of_index(coor.row);
        let y = SquareIndex::of_index(coor.col);
        SquareCoordinate { x, y }
    }
}

impl From<&Coordinate> for SquareCoordinate {
    fn from(coor: &Coordinate) -> (r: SquareCoordinate) {
        SquareCoordinate::containing(coor)
    }
}

impl vstd::std_specs::convert::FromSpecImpl<&Coordinate> for SquareCoordinate {
    open spec fn obeys_from_spec() -> bool {
        true
    }

    open spec fn from_spec(coor: &Coordinate) -> SquareCoordinate {
        SquareCoordinate::square_of(*coor)
    }
}

} // verus!
