use vstd::prelude::*;
use crate::coordinate::{on_board, Coordinate};
use crate::grid::{Grid, SudokuValue};
use crate::index::SudokuIndex;

verus! {

broadcast use {SudokuValue::lemma_from_nat, SudokuValue::lemma_from_view};

/// Why a puzzle could not be read.
#[derive(Clone, Copy, Debug, PartialEq, Eq, Structural)]
pub enum ParseGridError {
    /// The puzzle's source could not be opened.
    OpenFileError,
    /// Fewer than nine rows were given.
    MissingRowError,
    /// One of the nine rows does not have exactly nine characters.
    RowLengthError,
    /// Reading the puzzle's source failed.
    ReadError,
}

/// What a character of the puzzle text puts in its cell: the digits `1` to
/// `9` fill it, anything else leaves it empty.
pub open spec fn cell_of_char(ch: char) -> Option<SudokuValue> {
    if '1' <= ch && ch <= '9' {
        Some(SudokuValue::from_nat((ch as nat - '0' as nat) as nat))
    } else {
        None
    }
}

/// Whether one of the first nine rows does not have nine characters.
pub open spec fn has_bad_row(rows: Seq<Vec<char>>) -> bool {
    exists|i: int| 0 <= i < 9 && (#[trigger] rows[i]).len() != 9
}

/// Builds the board described by nine rows of nine characters, one per cell.
/// Rows after the ninth are not read.
pub fn parse_rows(rows: &Vec<Vec<char>>) -> (r: Result<Grid, ParseGridError>)
    ensures
        r is Ok <==> (rows.len() >= 9 && !has_bad_row(rows@)),
        rows.len() < 9 <==> r == Err::<Grid, ParseGridError>(ParseGridError::MissingRowError),
        (rows.len() >= 9 && has_bad_row(rows@)) <==> r == Err::<Grid, ParseGridError>(
            ParseGridError::RowLengthError,
        ),
        r is Ok ==> forall|p: (nat, nat)|
            on_board(p) ==> #[trigger] r->Ok_0@[p] == cell_of_char(rows@[p.0 as int]@[p.1 as int]),
{
    if rows.len() < 9 {
        return Err(ParseGridError::MissingRowError);
    }
    let mut i: usize = 0;
    while i < 9
        invariant
            rows.len() >= 9,
            i <= 9,
            forall|k: int| 0 <= k < i ==> (#[trigger] rows@[k]).len() == 9,
        decreases 9 - i,
    {
        if rows[i].len() != 9 {
            return Err(ParseGridError::RowLengthError);
        }
        i = i + 1;
    }
    let mut grid = Grid::new();
    let mut row: usize = 0;
    while row < 9
        invariant
            rows.len() >= 9,
            forall|k: int| 0 <= k < 9 ==> (#[trigger] rows@[k]).len() == 9,
            row <= 9,
            forall|p: (nat, nat)|
                on_board(p) ==> #[trigger] grid@[p] == if p.0 < row {
                    cell_of_char(rows@[p.0 as int]@[p.1 as int])
                } else {
                    None
                },
        decreases 9 - row,
    {
        let mut col: usize = 0;
        while col < 9
            invariant
                rows.len() >= 9,
                forall|k: int| 0 <= k < 9 ==> (#[trigger] rows@[k]).len() == 9,
                row < 9,
                col <= 9,
                forall|p: (nat, nat)|
                    on_board(p) ==> #[trigger] grid@[p] == if p.0 < row || (p.0 == row && p.1 < col) {
                        cell_of_char(rows@[p.0 as int]@[p.1 as int])
                    } else {
                        None
                    },
            decreases 9 - col,
        {
            let ch = rows[row][col];
            match (SudokuIndex::try_from(row), SudokuIndex::try_from(col)) {
                (Ok(ri), Ok(ci)) => {
                    let coordinate = Coordinate::new(ri, ci);
                    match SudokuValue::try_from(ch) {
                        Ok(value) => grid.write(&coordinate, Some(value)),
                        Err(_) => {},
                    }
                },
                _ => {},
            }
            col = col + 1;
        }
        row = row + 1;
    }
    Ok(grid)
}

} // verus!
