use sudoku::{parse_rows, solve, Coordinate, Grid, ParseGridError, Phase, Solver, SudokuIndex};

fn at(r: usize, c: usize) -> Coordinate {
    Coordinate::new(SudokuIndex::try_from(r).unwrap(), SudokuIndex::try_from(c).unwrap())
}

fn grid_of(lines: &[&str]) -> Grid {
    let rows: Vec<Vec<char>> = lines.iter().map(|l| l.chars().collect()).collect();
    parse_rows(&rows).unwrap()
}

fn digits(g: &Grid) -> Vec<Vec<u8>> {
    (0..9)
        .map(|r| (0..9).map(|c| g.read(&at(r, c)).map(|v| v.get()).unwrap_or(0)).collect())
        .collect()
}

fn each_group_holds_one_to_nine(d: &[Vec<u8>]) -> bool {
    let full = |cells: Vec<u8>| {
        let mut sorted = cells;
        sorted.sort();
        sorted == (1..=9).collect::<Vec<u8>>()
    };
    (0..9).all(|r| full(d[r].clone()))
        && (0..9).all(|c| full((0..9).map(|r| d[r][c]).collect()))
        && (0..9).all(|s| {
            full((0..9).map(|k| d[3 * (s / 3) + k / 3][3 * (s % 3) + k % 3]).collect())
        })
}

const PUZZLE: [&str; 9] = [
    "53..7....",
    "6..195...",
    ".98....6.",
    "8...6...3",
    "4..8.3..1",
    "7...2...6",
    ".6....28.",
    "...419..5",
    "....8..79",
];

const SOLUTION: [&str; 9] = [
    "534678912",
    "672195348",
    "198342567",
    "859761423",
    "426853791",
    "713924856",
    "961537284",
    "287419635",
    "345286179",
];

#[test]
fn empty_grid_is_solved_with_every_group_complete() {
    let solver = solve(Grid::new());
    assert_eq!(solver.phase(), Phase::Solved);
    assert_eq!(solver.history().len(), 81);
    assert!(each_group_holds_one_to_nine(&digits(solver.grid())));
}

#[test]
fn known_puzzle_is_solved_to_its_unique_solution() {
    let solver = solve(grid_of(&PUZZLE));
    assert_eq!(solver.phase(), Phase::Solved);
    assert_eq!(digits(solver.grid()), digits(&grid_of(&SOLUTION)));
}

#[test]
fn repeated_digit_in_a_row_exhausts_the_search() {
    let mut broken: Vec<String> = SOLUTION.iter().map(|s| s.to_string()).collect();
    broken[0] = "..6678912".to_string();
    let lines: Vec<&str> = broken.iter().map(|s| s.as_str()).collect();
    let solver = solve(grid_of(&lines));
    assert_eq!(solver.phase(), Phase::Exhausted);
    assert!(solver.history().is_empty());
    assert_eq!(solver.grid().read(&at(0, 0)), None);
    assert_eq!(solver.grid().read(&at(0, 1)), None);
}

#[test]
fn solving_twice_gives_the_same_history_and_board() {
    let first = solve(grid_of(&PUZZLE));
    let second = solve(grid_of(&PUZZLE));
    let trail = |s: &Solver| -> Vec<((usize, usize), u8)> {
        s.history()
            .iter()
            .map(|a| ((a.coordinate().row().get(), a.coordinate().col().get()), a.value().get()))
            .collect()
    };
    assert_eq!(trail(&first), trail(&second));
    assert_eq!(digits(first.grid()), digits(second.grid()));
    assert_eq!(first.phase(), second.phase());
}

#[test]
fn full_grid_is_solved_without_moves() {
    let solver = solve(grid_of(&SOLUTION));
    assert_eq!(solver.phase(), Phase::Solved);
    assert!(solver.history().is_empty());
}

#[test]
fn one_step_places_one_in_the_last_empty_cell() {
    let mut solver = Solver::new(grid_of(&PUZZLE));
    assert_eq!(solver.phase(), Phase::Seeking);
    solver.step();
    assert_eq!(solver.history().len(), 1);
    assert_eq!(*solver.history()[0].coordinate(), at(8, 6));
    assert_eq!(solver.grid().read(&at(8, 6)).map(|v| v.get()), Some(1));
    assert_eq!(solver.phase(), Phase::Seeking);
}

#[test]
fn parse_rejects_missing_rows() {
    let rows: Vec<Vec<char>> = PUZZLE[..8].iter().map(|l| l.chars().collect()).collect();
    assert_eq!(parse_rows(&rows).err(), Some(ParseGridError::MissingRowError));
}

#[test]
fn parse_rejects_short_rows() {
    let mut rows: Vec<Vec<char>> = PUZZLE.iter().map(|l| l.chars().collect()).collect();
    rows[4].pop();
    assert_eq!(parse_rows(&rows).err(), Some(ParseGridError::RowLengthError));
}

#[test]
fn parse_reads_digits_and_leaves_others_empty() {
    let g = grid_of(&PUZZLE);
    assert_eq!(g.read(&at(0, 0)).map(|v| v.get()), Some(5));
    assert_eq!(g.read(&at(0, 2)), None);
    assert_eq!(g.read(&at(8, 8)).map(|v| v.get()), Some(9));
    assert_eq!(g.all_empty_slots().len(), 51);
}
