use sudoku::{Coordinate, Grid, SudokuIndex, SudokuValue, UnappliedAction};

fn at(r: usize, c: usize) -> Coordinate {
    Coordinate::new(SudokuIndex::try_from(r).unwrap(), SudokuIndex::try_from(c).unwrap())
}

#[test]
fn new_action_applies_the_digit_one() {
    let mut g = Grid::new();
    let applied = UnappliedAction::new(at(1, 2)).apply(&mut g);
    assert_eq!(g.read(&at(1, 2)), Some(SudokuValue::one()));
    assert_eq!(*applied.coordinate(), at(1, 2));
    assert_eq!(applied.value().get(), 1);
}

#[test]
fn revert_clears_the_cell_and_keeps_the_digit() {
    let mut g = Grid::new();
    let mut action = UnappliedAction::new(at(6, 3));
    assert!(action.increment());
    assert!(action.increment());
    let applied = action.apply(&mut g);
    assert_eq!(g.read(&at(6, 3)).map(|v| v.get()), Some(3));
    let reverted = applied.revert(&mut g);
    assert_eq!(g.read(&at(6, 3)), None);
    let again = reverted.apply(&mut g);
    assert_eq!(again.value().get(), 3);
    assert_eq!(g.read(&at(6, 3)).map(|v| v.get()), Some(3));
}

#[test]
fn revert_then_apply_restores_the_board() {
    let mut g = Grid::new();
    UnappliedAction::new(at(0, 0)).apply(&mut g);
    let mut other = UnappliedAction::new(at(4, 7));
    for _ in 0..4 {
        assert!(other.increment());
    }
    let applied = other.apply(&mut g);
    let before: Vec<Option<u8>> =
        Coordinate::all_coordinates().iter().map(|c| g.read(c).map(|v| v.get())).collect();
    let back = applied.revert(&mut g);
    back.apply(&mut g);
    let after: Vec<Option<u8>> =
        Coordinate::all_coordinates().iter().map(|c| g.read(c).map(|v| v.get())).collect();
    assert_eq!(before, after);
    assert_eq!(g.read(&at(4, 7)).map(|v| v.get()), Some(5));
}

#[test]
fn increment_succeeds_eight_times_then_fails() {
    let mut action = UnappliedAction::new(at(8, 8));
    let mut successes = 0;
    for _ in 0..8 {
        if action.increment() {
            successes += 1;
        }
    }
    assert_eq!(successes, 8);
    assert!(!action.increment());
    let mut g = Grid::new();
    let applied = action.apply(&mut g);
    assert_eq!(applied.value().get(), 9);
}

#[test]
fn giving_up_an_action_keeps_its_cell() {
    let action = UnappliedAction::new(at(3, 5));
    let c: Coordinate = action.into();
    assert_eq!(c, at(3, 5));
    assert_eq!(UnappliedAction::new(at(2, 2)).into_coordinate(), at(2, 2));
}
