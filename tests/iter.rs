use sudoku::{ColIter, Coordinate, IndexIter, RowIter, SquareIndex, SquareIter, SudokuIndex};

fn idx(v: usize) -> SudokuIndex {
    SudokuIndex::try_from(v).unwrap()
}

fn positions(mut next: impl FnMut() -> Option<Coordinate>) -> Vec<(usize, usize)> {
    let mut out = Vec::new();
    while let Some(c) = next() {
        out.push((c.row().get(), c.col().get()));
    }
    out
}

#[test]
fn index_iter_count_test() {
    assert_eq!(9, IndexIter::new().count());
}

#[test]
fn index_iter_yields_zero_to_eight() {
    let mut it = IndexIter::new();
    for expected in 0..9 {
        assert_eq!(it.next().map(|i| i.get()), Some(expected));
    }
    assert!(it.next().is_none());
    assert_eq!(it.count(), 0);
}

#[test]
fn row_iter_walks_a_row() {
    let mut it = RowIter::new(idx(4));
    let got = positions(|| it.next());
    let expected: Vec<(usize, usize)> = (0..9).map(|c| (4, c)).collect();
    assert_eq!(got, expected);
}

#[test]
fn col_iter_walks_a_column() {
    let mut it = ColIter::new(idx(7));
    let got = positions(|| it.next());
    let expected: Vec<(usize, usize)> = (0..9).map(|r| (r, 7)).collect();
    assert_eq!(got, expected);
}

#[test]
fn square_iter_walks_a_square_row_by_row() {
    let mut it = SquareIter::new(SquareIndex::try_from(1).unwrap(), SquareIndex::try_from(2).unwrap());
    let got = positions(|| it.next());
    assert_eq!(
        got,
        vec![(3, 6), (3, 7), (3, 8), (4, 6), (4, 7), (4, 8), (5, 6), (5, 7), (5, 8)]
    );
}
