use sudoku::{Coordinate, Grid, SquareCoordinate, SudokuIndex, SudokuValue, SudokuValueConversionError};

fn at(r: usize, c: usize) -> Coordinate {
    Coordinate::new(SudokuIndex::try_from(r).unwrap(), SudokuIndex::try_from(c).unwrap())
}

fn digit(d: char) -> SudokuValue {
    SudokuValue::try_from(d).unwrap()
}

#[test]
fn all_coordinates_are_81_distinct_cells_in_row_major_order() {
    let all = Coordinate::all_coordinates();
    assert_eq!(all.len(), 81);
    for (k, c) in all.iter().enumerate() {
        assert_eq!((c.row().get(), c.col().get()), (k / 9, k % 9));
        assert!(c.row().get() < 9 && c.col().get() < 9);
    }
    for i in 0..81 {
        for j in (i + 1)..81 {
            assert_ne!(all[i], all[j]);
        }
    }
}

#[test]
fn sudoku_value_reads_digits_only() {
    assert_eq!(digit('1').get(), 1);
    assert_eq!(digit('9').get(), 9);
    assert_eq!(SudokuValue::try_from('0'), Err(SudokuValueConversionError));
    assert_eq!(SudokuValue::try_from('.'), Err(SudokuValueConversionError));
    assert_eq!(SudokuValue::try_from('a'), Err(SudokuValueConversionError));
}

#[test]
fn sudoku_value_inc_stops_at_nine() {
    let mut v = SudokuValue::one();
    for expected in 2..=9 {
        assert!(v.inc());
        assert_eq!(v.get(), expected);
    }
    assert!(!v.inc());
    assert_eq!(v.get(), 9);
}

#[test]
fn new_grid_is_empty_and_write_reads_back() {
    let mut g = Grid::new();
    assert_eq!(g.all_empty_slots().len(), 81);
    g.write(&at(2, 5), Some(digit('7')));
    assert_eq!(g.read(&at(2, 5)), Some(digit('7')));
    assert_eq!(g.read(&at(5, 2)), None);
    g.write(&at(2, 5), None);
    assert_eq!(g.read(&at(2, 5)), None);
}

#[test]
fn all_empty_slots_skips_filled_cells_in_scan_order() {
    let mut g = Grid::new();
    g.write(&at(0, 0), Some(digit('1')));
    g.write(&at(4, 4), Some(digit('2')));
    let slots = g.all_empty_slots();
    assert_eq!(slots.len(), 79);
    assert_eq!(slots[0], at(0, 1));
    assert_eq!(slots[38], at(4, 3));
    assert_eq!(slots[39], at(4, 5));
    assert_eq!(slots[78], at(8, 8));
}

#[test]
fn is_valid_sees_a_repeat_in_the_row() {
    let mut g = Grid::new();
    g.write(&at(3, 0), Some(digit('5')));
    g.write(&at(3, 8), Some(digit('5')));
    assert!(!g.is_valid(&at(3, 4)));
    assert!(!g.is_valid(&at(3, 0)));
    assert!(g.is_valid(&at(4, 4)));
}

#[test]
fn is_valid_sees_a_repeat_in_the_column() {
    let mut g = Grid::new();
    g.write(&at(0, 6), Some(digit('2')));
    g.write(&at(8, 6), Some(digit('2')));
    assert!(!g.is_valid(&at(4, 6)));
    assert!(g.is_valid(&at(4, 5)));
}

#[test]
fn is_valid_sees_a_repeat_in_the_square() {
    let mut g = Grid::new();
    g.write(&at(6, 0), Some(digit('9')));
    g.write(&at(8, 2), Some(digit('9')));
    assert!(!g.is_valid(&at(7, 1)));
    assert!(!g.is_valid(&at(6, 0)));
    assert!(g.is_valid(&at(3, 1)));
    assert!(g.is_valid(&at(7, 3)));
}

#[test]
fn is_valid_accepts_distinct_digits() {
    let mut g = Grid::new();
    g.write(&at(0, 0), Some(digit('1')));
    g.write(&at(0, 1), Some(digit('2')));
    g.write(&at(1, 0), Some(digit('3')));
    g.write(&at(1, 1), Some(digit('4')));
    assert!(g.is_valid(&at(0, 0)));
    assert!(g.is_valid(&at(1, 1)));
}

#[test]
fn square_coordinate_of_a_cell() {
    let s = SquareCoordinate::containing(&at(4, 8));
    assert_eq!(s.x().get(), 1);
    assert_eq!(s.y().get(), 2);
}

#[test]
fn square_coordinate_from_a_cell() {
    let s = SquareCoordinate::from(&at(2, 3));
    assert_eq!(s.x().get(), 0);
    assert_eq!(s.y().get(), 1);
    assert_eq!(s, SquareCoordinate::containing(&at(0, 5)));
}
