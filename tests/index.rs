use sudoku::{IndexConversionError, SquareIndex, SudokuIndex};

#[test]
fn square_index_from_sudoku_index() {
    struct Arg {
        index_val: usize,
        square_val: usize,
    }

    let args = [
        Arg { index_val: 0, square_val: 0 },
        Arg { index_val: 8, square_val: 2 },
        Arg { index_val: 2, square_val: 0 },
        Arg { index_val: 3, square_val: 1 },
    ];

    for a in args.iter() {
        let sudoku_index = SudokuIndex::try_from(a.index_val).unwrap();
        let actual_square_index: SquareIndex = sudoku_index.into();
        let expected_square_index = SquareIndex::try_from(a.square_val).unwrap();
        assert_eq!(actual_square_index, expected_square_index);
    }
}

#[test]
fn top_left_sudoku_index_from_square_index() {
    struct Arg {
        square_val: usize,
        index_val: usize,
    }

    let args = [
        Arg { square_val: 0, index_val: 0 },
        Arg { square_val: 1, index_val: 3 },
        Arg { square_val: 2, index_val: 6 },
    ];

    for a in args.iter() {
        let square_index = SquareIndex::try_from(a.square_val).unwrap();
        let actual_index = square_index.start();
        let expected_index = SudokuIndex::try_from(a.index_val).unwrap();
        assert_eq!(actual_index, expected_index);
    }
}

#[test]
fn sudoku_index_rejects_values_from_nine_up() {
    assert_eq!(SudokuIndex::try_from(9), Err(IndexConversionError));
    assert_eq!(SudokuIndex::try_from(100), Err(IndexConversionError));
    assert_eq!(SudokuIndex::try_from(8).unwrap().get(), 8);
}

#[test]
fn square_index_rejects_values_from_three_up() {
    assert_eq!(SquareIndex::try_from(3), Err(IndexConversionError));
    assert_eq!(SquareIndex::try_from(2).unwrap().get(), 2);
}

#[test]
fn sudoku_index_inc_stops_at_the_bound() {
    let mut i = SudokuIndex::zero();
    assert!(i.inc(5));
    assert_eq!(i.get(), 5);
    assert!(!i.inc(4));
    assert_eq!(i.get(), 5);
    assert!(i.inc(3));
    assert_eq!(i.get(), 8);
    assert!(!i.inc(1));
}

#[test]
fn square_index_inc_stops_at_the_last_band() {
    let mut s = SquareIndex::zero();
    assert!(s.inc());
    assert!(s.inc());
    assert_eq!(s.get(), 2);
    assert!(!s.inc());
    assert_eq!(s.get(), 2);
}
