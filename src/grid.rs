use vstd::prelude::*;
use vstd::set_lib::{lemma_int_range, lemma_map_size, lemma_subset_equality, set_int_range};
use crate::coordinate::{on_board, scan_position, Coordinate, SquareCoordinate};
use crate::index::SudokuIndex;
use crate::iter::{square_position, ColIter, RowIter, SquareIter};

verus! {

/// Error returned when a character is not one of the digits `1` to `9`.
#[derive(Clone, Copy, Debug, PartialEq, Eq, Structural)]
pub struct SudokuValueConversionError;

/// A digit that can occupy a cell, always in `1..=9`.
#[derive(Clone, Copy, Debug, PartialEq, Eq, Structural, Hash)]
pub struct SudokuValue(u8);

impl SudokuValue {
    /// The largest digit.
    pub const MAX_VALUE: u8 = 9;

    #[verifier::type_invariant]
    spec fn inv(self) -> bool {
        1 <= self.0 <= 9
    }

    /// The digit as a natural number.
    pub closed spec fn view(self) -> nat {
        self.0 as nat
    }

    /// The smallest digit.
    pub fn one() -> (r: Self)
        ensures
            r@ == 1,
    {
        SudokuValue(1)
    }

    /// The digit as a plain integer.
    pub fn get(&self) -> (r: u8)
        ensures
            r == self@,
            1 <= r <= 9,
    {
        proof {
            use_type_invariant(self);
        }
        self.0
    }

    /// Moves to the next digit; returns false, leaving the digit as it is,
    /// when it is already the largest.
    pub fn inc(&mut self) -> (r: bool)
        ensures
            r == (old(self)@ < 9),
            r ==> final(self)@ == old(self)@ + 1,
            !r ==> *final(self) == *old(self),
    {
        proof {
            use_type_invariant(&*self);
        }
        if self.0 < Self::MAX_VALUE {
            self.0 = self.0 + 1;
            true
        } else {
            false
        }
    }

    /// Reads a digit character; any other character is refused.
    pub fn try_from(value: char) -> (r: Result<SudokuValue, SudokuValueConversionError>)
        ensures
            ('1' <= value && value <= '9') <==> r is Ok,
            r is Ok ==> r->Ok_0@ == (value as nat) - ('0' as nat),
    {
        if '1' <= value && value <= '9' {
            let d = (value as u32) - ('0' as u32);
            Ok(SudokuValue(d as u8))
        } else {
            Err(SudokuValueConversionError)
        }
    }

    /// Two digits are equal exactly when their numbers are.
    pub proof fn lemma_view_injective(self, other: Self)
        ensures
            self@ == other@ <==> self == other,
    {
    }

    /// The digit numbered `n`, for `n` in `1..=9`.
    pub closed spec fn from_nat(n: nat) -> SudokuValue {
        SudokuValue(n as u8)
    }

    /// `from_nat` gives back the number it was given.
    pub broadcast proof fn lemma_from_nat(n: nat)
        requires
            n <= 9,
        ensures
            (#[trigger] Self::from_nat(n))@ == n,
    {
    }

    /// Each digit is `from_nat` of its own number.
    pub broadcast proof fn lemma_from_view(v: SudokuValue)
        ensures
            Self::from_nat(#[trigger] v@) == v,
    {
    }
}

/// The position of `p` in the row-major layout of the board.
pub open spec fn offset(p: (nat, nat)) -> int {
    (9 * p.0 + p.1) as int
}

/// Whether `p` lies in the square of row band `sq.0` and column band `sq.1`.
pub open spec fn in_square(p: (nat, nat), sq: (nat, nat)) -> bool {
    on_board(p) && p.0 / 3 == sq.0 && p.1 / 3 == sq.1
}

/// The contents of a board, keyed by (row, column).
pub type Board = Map<(nat, nat), Option<SudokuValue>>;

/// Two distinct cells of the board hold the same digit.
pub open spec fn clash(b: Board, p: (nat, nat), q: (nat, nat)) -> bool {
    &&& p != q
    &&& on_board(p)
    &&& on_board(q)
    &&& b[p] is Some
    &&& b[p] == b[q]
}

pub open spec fn row_has_duplicate(b: Board, row: nat) -> bool {
    exists|c1: nat, c2: nat| #[trigger] clash(b, (row, c1), (row, c2))
}

pub open spec fn col_has_duplicate(b: Board, col: nat) -> bool {
    exists|r1: nat, r2: nat| #[trigger] clash(b, (r1, col), (r2, col))
}

pub open spec fn square_has_duplicate(b: Board, sq: (nat, nat)) -> bool {
    exists|p: (nat, nat), q: (nat, nat)| in_square(p, sq) && in_square(q, sq) && #[trigger] clash(b, p, q)
}

/// No duplicate digit in the row, the column or the square of `p`.
pub open spec fn valid_at(b: Board, p: (nat, nat)) -> bool {
    &&& !row_has_duplicate(b, p.0)
    &&& !col_has_duplicate(b, p.1)
    &&& !square_has_duplicate(b, (p.0 / 3, p.1 / 3))
}

/// The empty cells among the first `k` positions of a row-major scan, in
/// scan order.
pub open spec fn empty_slots_upto(b: Board, k: nat) -> Seq<(nat, nat)>
    decreases k,
{
    if k == 0 {
        Seq::empty()
    } else {
        let prev = empty_slots_upto(b, (k - 1) as nat);
        let p = scan_position(k - 1);
        if b[p] is None {
            prev.push(p)
        } else {
            prev
        }
    }
}

/// The empty cells of the board, in row-major order.
pub open spec fn empty_slots(b: Board) -> Seq<(nat, nat)> {
    empty_slots_upto(b, 81)
}

/// Whether cell `p` holds the digit numbered `v`.
pub open spec fn holds(b: Board, p: (nat, nat), v: nat) -> bool {
    b[p] is Some && b[p]->Some_0@ == v
}

/// Whether one of the first `n` members of `group` holds the digit numbered `v`.
pub open spec fn seen_before(b: Board, group: Seq<Coordinate>, n: int, v: nat) -> bool {
    exists|k: int| 0 <= k < n && #[trigger] holds(b, group[k]@, v)
}

/// Cell `x` holds a digit and cell `y` holds the same one.
pub open spec fn repeats(b: Board, x: (nat, nat), y: (nat, nat)) -> bool {
    b[x] is Some && b[x] == b[y]
}

/// Whether two entries of `group`, at different places in it, hold the same
/// digit. A filled cell listed twice counts as a repeat.
pub open spec fn group_has_duplicate(b: Board, group: Seq<Coordinate>) -> bool {
    exists|i: int, j: int|
        0 <= i < group.len() && 0 <= j < group.len() && i != j && #[trigger] repeats(b, group[i]@, group[j]@)
}

/// The positions of the 9x9 board as a domain.
pub open spec fn is_full_board(b: Board) -> bool {
    forall|p: (nat, nat)| #[trigger] b.dom().contains(p) <==> on_board(p)
}

/// A rule broken on a board stays broken on any board that keeps its
/// filled cells: more digits never remove a repeat.
pub proof fn lemma_broken_rule_persists(b: Board, c: Board, p: (nat, nat))
    requires
        forall|x: (nat, nat)| on_board(x) && (#[trigger] b[x]) is Some ==> c[x] == b[x],
        !valid_at(b, p),
    ensures
        !valid_at(c, p),
{
    if row_has_duplicate(b, p.0) {
        let (c1, c2) = choose|c1: nat, c2: nat| #[trigger] clash(b, (p.0, c1), (p.0, c2));
        assert(clash(c, (p.0, c1), (p.0, c2)));
    } else if col_has_duplicate(b, p.1) {
        let (r1, r2) = choose|r1: nat, r2: nat| #[trigger] clash(b, (r1, p.1), (r2, p.1));
        assert(clash(c, (r1, p.1), (r2, p.1)));
    } else {
        let sq = (p.0 / 3, p.1 / 3);
        let (x, y) = choose|x: (nat, nat), y: (nat, nat)|
            in_square(x, sq) && in_square(y, sq) && #[trigger] clash(b, x, y);
        assert(clash(c, x, y));
    }
}

/// Emptying a cell never breaks a rule that held.
pub proof fn lemma_clear_keeps_valid(b: Board, p: (nat, nat), q: (nat, nat))
    requires
        valid_at(b, q),
    ensures
        valid_at(b.insert(p, None), q),
{
    let b2 = b.insert(p, None);
    assert forall|x: (nat, nat), y: (nat, nat)| #[trigger] clash(b2, x, y) implies clash(b, x, y) by {}
}

/// A write that is valid where it happened leaves every other cell as valid
/// as it was: only the write's own row, column and square change.
pub proof fn lemma_write_keeps_valid(b: Board, p: (nat, nat), v: SudokuValue, q: (nat, nat))
    requires
        on_board(p),
        valid_at(b, q),
        valid_at(b.insert(p, Some(v)), p),
    ensures
        valid_at(b.insert(p, Some(v)), q),
{
    let b2 = b.insert(p, Some(v));
    if row_has_duplicate(b2, q.0) {
        let (c1, c2) = choose|c1: nat, c2: nat| #[trigger] clash(b2, (q.0, c1), (q.0, c2));
        if (q.0, c1) != p && (q.0, c2) != p {
            assert(clash(b, (q.0, c1), (q.0, c2)));
        } else {
            assert(clash(b2, (p.0, c1), (p.0, c2)));
        }
    }
    if col_has_duplicate(b2, q.1) {
        let (r1, r2) = choose|r1: nat, r2: nat| #[trigger] clash(b2, (r1, q.1), (r2, q.1));
        if (r1, q.1) != p && (r2, q.1) != p {
            assert(clash(b, (r1, q.1), (r2, q.1)));
        } else {
            assert(clash(b2, (r1, p.1), (r2, p.1)));
        }
    }
    let sq = (q.0 / 3, q.1 / 3);
    if square_has_duplicate(b2, sq) {
        let (x, y) = choose|x: (nat, nat), y: (nat, nat)|
            in_square(x, sq) && in_square(y, sq) && #[trigger] clash(b2, x, y);
        if x != p && y != p {
            assert(clash(b, x, y));
        } else {
            assert(in_square(x, (p.0 / 3, p.1 / 3)));
            assert(in_square(y, (p.0 / 3, p.1 / 3)));
        }
    }
}

/// The empty cells found by a scan of the first `k` positions lie on the
/// board, are empty, come in strictly increasing scan order, and include
/// every empty cell among those positions.
pub proof fn lemma_empty_slots_upto(b: Board, k: nat)
    requires
        k <= 81,
    ensures
        forall|i: int| 0 <= i < empty_slots_upto(b, k).len() ==> {
            let e = #[trigger] empty_slots_upto(b, k)[i];
            on_board(e) && b[e] is None && offset(e) < k
        },
        forall|i: int, j: int|
            0 <= i < j < empty_slots_upto(b, k).len() ==> offset(#[trigger] empty_slots_upto(b, k)[i])
                < offset(#[trigger] empty_slots_upto(b, k)[j]),
        forall|m: int|
            0 <= m < k && b[#[trigger] scan_position(m)] is None ==> empty_slots_upto(b, k).contains(
                scan_position(m),
            ),
    decreases k,
{
    if k > 0 {
        let prev = empty_slots_upto(b, (k - 1) as nat);
        lemma_empty_slots_upto(b, (k - 1) as nat);
        let p = scan_position(k - 1);
        assert(on_board(p) && offset(p) == k - 1);
        if b[p] is None {
            let e = prev.push(p);
            assert(e[prev.len() as int] == p);
            assert(e.contains(p));
            assert forall|m: int| 0 <= m < k && b[#[trigger] scan_position(m)] is None implies e.contains(
                scan_position(m),
            ) by {
                if m < k - 1 {
                    let i = choose|i: int| 0 <= i < prev.len() && prev[i] == scan_position(m);
                    assert(e[i] == scan_position(m));
                }
            }
        }
    }
}

/// Every cell of the board is visited by the row-major scan.
pub proof fn lemma_scan_covers(p: (nat, nat))
    requires
        on_board(p),
    ensures
        scan_position(offset(p)) == p,
        0 <= offset(p) < 81,
{
}

/// Whether one of the nine cells numbered by `f` holds the digit `d`.
spec fn takes_digit(f: spec_fn(int) -> int, d: int) -> bool {
    exists|k: int| 0 <= k < 9 && #[trigger] f(k) == d
}

/// Nine cells holding nine different digits hold every digit.
proof fn lemma_nine_distinct_digits(f: spec_fn(int) -> int)
    requires
        forall|k: int| 0 <= k < 9 ==> 1 <= #[trigger] f(k) <= 9,
        forall|k1: int, k2: int| 0 <= k1 < 9 && 0 <= k2 < 9 && k1 != k2 ==> #[trigger] f(k1) != #[trigger] f(k2),
    ensures
        forall|d: int| 1 <= d <= 9 ==> #[trigger] takes_digit(f, d),
{
    let cells = set_int_range(0, 9);
    let digits = set_int_range(1, 10);
    lemma_int_range(0, 9);
    lemma_int_range(1, 10);
    let held = cells.map(f);
    lemma_map_size(cells, held, f);
    assert(held.subset_of(digits));
    lemma_subset_equality(held, digits);
    assert forall|d: int| 1 <= d <= 9 implies #[trigger] takes_digit(f, d) by {
        assert(digits.contains(d));
        assert(held.contains(d));
    }
}

/// Whether row `r` holds the digit numbered `d`.
pub open spec fn row_holds(b: Board, r: nat, d: nat) -> bool {
    exists|c: nat| c < 9 && #[trigger] holds(b, (r, c), d)
}

/// Whether column `c` holds the digit numbered `d`.
pub open spec fn col_holds(b: Board, c: nat, d: nat) -> bool {
    exists|r: nat| r < 9 && #[trigger] holds(b, (r, c), d)
}

/// Whether square `sq` holds the digit numbered `d`.
pub open spec fn square_holds(b: Board, sq: (nat, nat), d: nat) -> bool {
    exists|p: (nat, nat)| in_square(p, sq) && #[trigger] holds(b, p, d)
}

/// Whether every cell of `b` holds a digit numbered from 1 to 9 that repeats
/// in none of its row, column and square.
pub open spec fn is_solved_board(b: Board) -> bool {
    forall|p: (nat, nat)|
        on_board(p) ==> (#[trigger] b[p]) is Some && 1 <= b[p]->Some_0@ <= 9 && valid_at(b, p)
}

/// On a board where every cell is filled and breaks no rule, each row, each
/// column and each square holds every digit from 1 to 9 exactly once.
pub proof fn lemma_solved_board_has_each_digit_once(b: Board)
    requires
        is_solved_board(b),
    ensures
        forall|r: nat, d: nat| r < 9 && 1 <= d <= 9 ==> #[trigger] row_holds(b, r, d),
        forall|c: nat, d: nat| c < 9 && 1 <= d <= 9 ==> #[trigger] col_holds(b, c, d),
        forall|sq: (nat, nat), d: nat| sq.0 < 3 && sq.1 < 3 && 1 <= d <= 9 ==> #[trigger] square_holds(b, sq, d),
        forall|p: (nat, nat), q: (nat, nat), d: nat|
            on_board(p) && on_board(q) && (p.0 == q.0 || p.1 == q.1 || (p.0 / 3 == q.0 / 3 && p.1 / 3 == q.1 / 3))
                && #[trigger] holds(b, p, d) && #[trigger] holds(b, q, d) ==> p == q,
{
    assert forall|r: nat, d: nat| r < 9 && 1 <= d <= 9 implies #[trigger] row_holds(b, r, d) by {
        let f = |k: int| b[(r, k as nat)]->Some_0@ as int;
        assert forall|k1: int, k2: int| 0 <= k1 < 9 && 0 <= k2 < 9 && k1 != k2 implies #[trigger] f(k1) != #[trigger] f(k2) by {
            assert(valid_at(b, (r, 0)));
            if f(k1) == f(k2) {
                b[(r, k1 as nat)]->Some_0.lemma_view_injective(b[(r, k2 as nat)]->Some_0);
                assert(clash(b, (r, k1 as nat), (r, k2 as nat)));
            }
        }
        assert forall|k: int| 0 <= k < 9 implies 1 <= #[trigger] f(k) <= 9 by {
            assert(on_board((r, k as nat)));
        }
        lemma_nine_distinct_digits(f);
        assert(takes_digit(f, d as int));
        let k = choose|k: int| 0 <= k < 9 && #[trigger] f(k) == d;
        assert(holds(b, (r, k as nat), d));
    }
    assert forall|c: nat, d: nat| c < 9 && 1 <= d <= 9 implies #[trigger] col_holds(b, c, d) by {
        let f = |k: int| b[(k as nat, c)]->Some_0@ as int;
        assert forall|k1: int, k2: int| 0 <= k1 < 9 && 0 <= k2 < 9 && k1 != k2 implies #[trigger] f(k1) != #[trigger] f(k2) by {
            assert(valid_at(b, (0, c)));
            if f(k1) == f(k2) {
                b[(k1 as nat, c)]->Some_0.lemma_view_injective(b[(k2 as nat, c)]->Some_0);
                assert(clash(b, (k1 as nat, c), (k2 as nat, c)));
            }
        }
        assert forall|k: int| 0 <= k < 9 implies 1 <= #[trigger] f(k) <= 9 by {
            assert(on_board((k as nat, c)));
        }
        lemma_nine_distinct_digits(f);
        assert(takes_digit(f, d as int));
        let k = choose|k: int| 0 <= k < 9 && #[trigger] f(k) == d;
        assert(holds(b, (k as nat, c), d));
    }
    assert forall|sq: (nat, nat), d: nat| sq.0 < 3 && sq.1 < 3 && 1 <= d <= 9 implies #[trigger] square_holds(b, sq, d) by {
        let at = |k: int| square_position(3 * sq.0, 3 * sq.1, k);
        let f = |k: int| b[at(k)]->Some_0@ as int;
        let corner = (3 * sq.0, 3 * sq.1);
        assert(valid_at(b, corner));
        assert forall|k1: int, k2: int| 0 <= k1 < 9 && 0 <= k2 < 9 && k1 != k2 implies #[trigger] f(k1) != #[trigger] f(k2) by {
            assert(in_square(at(k1), sq));
            assert(in_square(at(k2), sq));
            assert(at(k1) != at(k2));
            if f(k1) == f(k2) {
                b[at(k1)]->Some_0.lemma_view_injective(b[at(k2)]->Some_0);
                assert(clash(b, at(k1), at(k2)));
            }
        }
        assert forall|k: int| 0 <= k < 9 implies 1 <= #[trigger] f(k) <= 9 by {
            assert(on_board(at(k)));
        }
        lemma_nine_distinct_digits(f);
        assert(takes_digit(f, d as int));
        let k = choose|k: int| 0 <= k < 9 && #[trigger] f(k) == d;
        assert(in_square(at(k), sq));
        assert(holds(b, at(k), d));
    }
    assert forall|p: (nat, nat), q: (nat, nat), d: nat|
        on_board(p) && on_board(q) && (p.0 == q.0 || p.1 == q.1 || (p.0 / 3 == q.0 / 3 && p.1 / 3 == q.1 / 3))
            && #[trigger] holds(b, p, d) && #[trigger] holds(b, q, d) implies p == q by {
        if p != q {
            b[p]->Some_0.lemma_view_injective(b[q]->Some_0);
            assert(clash(b, p, q));
            assert(valid_at(b, p));
            if p.0 == q.0 {
                assert(clash(b, (p.0, p.1), (p.0, q.1)));
            } else if p.1 == q.1 {
                assert(clash(b, (p.0, p.1), (q.0, p.1)));
            } else {
                assert(in_square(p, (p.0 / 3, p.1 / 3)));
                assert(in_square(q, (p.0 / 3, p.1 / 3)));
            }
        }
    }
}

/// The 9x9 board: each cell empty or holding a digit.
pub struct Grid {
    cells: [Option<SudokuValue>; 81],
}

impl Grid {
    /// The contents of each cell of the board, keyed by (row, column).
    pub closed spec fn view(&self) -> Board {
        Map::new(|p: (nat, nat)| on_board(p), |p: (nat, nat)| self.cells@[offset(p)])
    }

    /// The board's cells are exactly the positions of its view.
    pub proof fn lemma_domain(&self)
        ensures
            forall|p: (nat, nat)| #[trigger] self@.dom().contains(p) <==> on_board(p),
    {
    }

    /// A board with every cell empty.
    pub fn new() -> (r: Grid)
        ensures
            forall|p: (nat, nat)| on_board(p) ==> (#[trigger] r@[p]) is None,
    {
        let cells: [Option<SudokuValue>; 81] = [None; 81];
        assert forall|k: int| 0 <= k < 81 implies (#[trigger] cells@[k]) is None by {}
        Grid { cells }
    }

    /// The contents of the cell at `coordinate`.
    pub fn read(&self, coordinate: &Coordinate) -> (r: Option<SudokuValue>)
        ensures
            on_board(coordinate@),
            r == self@[coordinate@],
    {
        let (row, col) = coordinate.position();
        self.cells[9 * row + col]
    }

    /// Sets the cell at `coordinate`; `None` clears it.
    pub fn write(&mut self, coordinate: &Coordinate, value: Option<SudokuValue>)
        ensures
            on_board(coordinate@),
            final(self)@ == old(self)@.insert(coordinate@, value),
    {
        let (row, col) = coordinate.position();
        self.cells[9 * row + col] = value;
        proof {
            let p = coordinate@;
            assert forall|q: (nat, nat)| on_board(q) && q != p implies offset(q) != offset(p) by {}
            assert(self@ =~= old(self)@.insert(p, value));
        }
    }

    /// The cells that are empty, in row-major order.
    pub fn all_empty_slots(&self) -> (r: Vec<Coordinate>)
        ensures
            r@.map_values(|c: Coordinate| c@) == empty_slots(self@),
    {
        let all = Coordinate::all_coordinates();
        let mut r: Vec<Coordinate> = Vec::new();
        let mut i: usize = 0;
        while i < all.len()
            invariant
                all.len() == 81,
                forall|k: int| 0 <= k < 81 ==> #[trigger] all@[k]@ == scan_position(k),
                i <= 81,
                r@.map_values(|c: Coordinate| c@) == empty_slots_upto(self@, i as nat),
            decreases 81 - i,
        {
            let c = all[i];
            if self.read(&c).is_none() {
                r.push(c);
            }
            proof {
                assert(r@.map_values(|c: Coordinate| c@) =~= empty_slots_upto(self@, (i + 1) as nat));
            }
            i = i + 1;
        }
        r
    }

    /// Whether a list of cells holds some digit twice. Stops at the first
    /// repeated digit.
    fn contains_duplicate(&self, group: &Vec<Coordinate>) -> (r: bool)
        requires
            forall|i: int| 0 <= i < group.len() ==> on_board(#[trigger] group@[i]@),
        ensures
            r == group_has_duplicate(self@, group@),
    {
        let mut seen: Vec<bool> = vec![false; 10];
        let mut i: usize = 0;
        while i < group.len()
            invariant
                forall|i: int| 0 <= i < group.len() ==> on_board(#[trigger] group@[i]@),
                i <= group.len(),
                seen.len() == 10,
                forall|v: int| 1 <= v <= 9 ==> #[trigger] seen@[v] == seen_before(self@, group@, i as int, v as nat),
                forall|k1: int, k2: int|
                    0 <= k1 < i && 0 <= k2 < i && k1 != k2 ==> !#[trigger] repeats(self@, group@[k1]@, group@[k2]@),
            decreases group.len() - i,
        {
            let c = group[i];
            match self.read(&c) {
                Some(val) => {
                    let d = val.get() as usize;
                    if seen[d] {
                        proof {
                            assert(seen_before(self@, group@, i as int, d as nat));
                            let k = choose|k: int| 0 <= k < i && #[trigger] holds(self@, group@[k]@, d as nat);
                            assert(holds(self@, group@[k]@, d as nat));
                            self@[group@[k]@]->Some_0.lemma_view_injective(val);
                            assert(repeats(self@, group@[k]@, group@[i as int]@));
                        }
                        return true;
                    }
                    let ghost before = seen@;
                    seen.set(d, true);
                    proof {
                        assert(holds(self@, group@[i as int]@, d as nat));
                        assert forall|k1: int, k2: int|
                            0 <= k1 < i + 1 && 0 <= k2 < i + 1 && k1 != k2 implies !#[trigger] repeats(self@, group@[k1]@, group@[k2]@) by {
                            if k1 == i && k2 < i && repeats(self@, group@[k1]@, group@[k2]@) {
                                assert(self@[group@[k2]@] == Some(val));
                                assert(val@ == d);
                                assert(holds(self@, group@[k2]@, d as nat));
                                assert(seen_before(self@, group@, i as int, d as nat));
                                assert(before[d as int]);
                            }
                            if k2 == i && k1 < i && repeats(self@, group@[k1]@, group@[k2]@) {
                                assert(holds(self@, group@[k1]@, d as nat));
                                assert(seen_before(self@, group@, i as int, d as nat));
                                assert(before[d as int]);
                            }
                        }
                    }
                },
                None => {
                    proof {
                        assert forall|k1: int, k2: int|
                            0 <= k1 < i + 1 && 0 <= k2 < i + 1 && k1 != k2 implies !#[trigger] repeats(self@, group@[k1]@, group@[k2]@) by {
                            if k1 == i || k2 == i {
                                if repeats(self@, group@[k1]@, group@[k2]@) {
                                    assert(self@[group@[k1]@] is Some);
                                }
                            }
                        }
                    }
                },
            }
            i = i + 1;
        }
        false
    }

    fn row_is_valid(&self, dirty_row: SudokuIndex) -> (r: bool)
        ensures
            r == !row_has_duplicate(self@, dirty_row@),
    {
        let row = dirty_row.get();
        let mut it = RowIter::new(dirty_row);
        let mut group: Vec<Coordinate> = Vec::new();
        let mut k: usize = 0;
        while k < 9
            invariant
                row == dirty_row@,
                row < 9,
                k <= 9,
                it.row() == row,
                it.produced() == k,
                group.len() == k,
                forall|j: int| 0 <= j < k ==> #[trigger] group@[j]@ == (row as nat, j as nat),
            decreases 9 - k,
        {
            match it.next() {
                Some(c) => group.push(c),
                None => {},
            }
            k = k + 1;
        }
        let dup = self.contains_duplicate(&group);
        proof {
            if row_has_duplicate(self@, dirty_row@) {
                let (c1, c2) = choose|c1: nat, c2: nat| #[trigger] clash(self@, (row as nat, c1), (row as nat, c2));
                assert(group@[c1 as int]@ == (row as nat, c1));
                assert(group@[c2 as int]@ == (row as nat, c2));
                assert(repeats(self@, group@[c1 as int]@, group@[c2 as int]@));
            }
            if group_has_duplicate(self@, group@) {
                let (i, j) = choose|i: int, j: int|
                    0 <= i < group.len() && 0 <= j < group.len() && i != j
                        && #[trigger] repeats(self@, group@[i]@, group@[j]@);
                assert(clash(self@, (row as nat, i as nat), (row as nat, j as nat)));
            }
        }
        !dup
    }

    fn col_is_valid(&self, dirty_col: SudokuIndex) -> (r: bool)
        ensures
            r == !col_has_duplicate(self@, dirty_col@),
    {
        let col = dirty_col.get();
        let mut it = ColIter::new(dirty_col);
        let mut group: Vec<Coordinate> = Vec::new();
        let mut k: usize = 0;
        while k < 9
            invariant
                col == dirty_col@,
                col < 9,
                k <= 9,
                it.col() == col,
                it.produced() == k,
                group.len() == k,
                forall|j: int| 0 <= j < k ==> #[trigger] group@[j]@ == (j as nat, col as nat),
            decreases 9 - k,
        {
            match it.next() {
                Some(c) => group.push(c),
                None => {},
            }
            k = k + 1;
        }
        let dup = self.contains_duplicate(&group);
        proof {
            if col_has_duplicate(self@, dirty_col@) {
                let (r1, r2) = choose|r1: nat, r2: nat| #[trigger] clash(self@, (r1, col as nat), (r2, col as nat));
                assert(group@[r1 as int]@ == (r1, col as nat));
                assert(group@[r2 as int]@ == (r2, col as nat));
                assert(repeats(self@, group@[r1 as int]@, group@[r2 as int]@));
            }
            if group_has_duplicate(self@, group@) {
                let (i, j) = choose|i: int, j: int|
                    0 <= i < group.len() && 0 <= j < group.len() && i != j
                        && #[trigger] repeats(self@, group@[i]@, group@[j]@);
                assert(clash(self@, (i as nat, col as nat), (j as nat, col as nat)));
            }
        }
        !dup
    }

    fn square_is_valid(&self, dirty_square: SquareCoordinate) -> (r: bool)
        ensures
            r == !square_has_duplicate(self@, dirty_square@),
    {
        let x = dirty_square.x().get();
        let y = dirty_square.y().get();
        let mut it = SquareIter::new(*dirty_square.x(), *dirty_square.y());
        let mut group: Vec<Coordinate> = Vec::new();
        let mut k: usize = 0;
        while k < 9
            invariant
                x == dirty_square@.0,
                y == dirty_square@.1,
                x < 3,
                y < 3,
                k <= 9,
                it.top() == 3 * x,
                it.left() == 3 * y,
                it.produced() == k,
                group.len() == k,
                forall|j: int| 0 <= j < k ==> #[trigger] group@[j]@ == square_position((3 * x) as nat, (3 * y) as nat, j),
            decreases 9 - k,
        {
            match it.next() {
                Some(c) => group.push(c),
                None => {},
            }
            k = k + 1;
        }
        let ghost sq = dirty_square@;
        proof {
            assert forall|i: int| 0 <= i < 9 implies in_square(#[trigger] group@[i]@, sq) by {}
            assert forall|i: int, j: int| 0 <= i < 9 && 0 <= j < 9 && i != j implies #[trigger] group@[i]@ != #[trigger] group@[j]@ by {}
        }
        let dup = self.contains_duplicate(&group);
        proof {
            if square_has_duplicate(self@, sq) {
                let (a, b) = choose|a: (nat, nat), b: (nat, nat)|
                    in_square(a, sq) && in_square(b, sq) && #[trigger] clash(self@, a, b);
                let i = 3 * (a.0 - 3 * x) + (a.1 - 3 * y);
                let j = 3 * (b.0 - 3 * x) + (b.1 - 3 * y);
                assert(group@[i]@ == a);
                assert(group@[j]@ == b);
                assert(i != j);
                assert(repeats(self@, group@[i]@, group@[j]@));
            }
            if group_has_duplicate(self@, group@) {
                let (i, j) = choose|i: int, j: int|
                    0 <= i < group.len() && 0 <= j < group.len() && i != j
                        && #[trigger] repeats(self@, group@[i]@, group@[j]@);
                assert(in_square(group@[i]@, sq));
                assert(in_square(group@[j]@, sq));
                assert(group@[i]@ != group@[j]@);
                assert(clash(self@, group@[i]@, group@[j]@));
            }
        }
        !dup
    }

    /// Whether the row, the column and the square of `dirty_coordinate` are
    /// free of repeated digits. Only these three groups can have changed after
    /// a write to that cell, so the rest of the board is not looked at.
    pub fn is_valid(&self, dirty_coordinate: &Coordinate) -> (r: bool)
        ensures
            r == valid_at(self@, dirty_coordinate@),
    {
        if !self.row_is_valid(*dirty_coordinate.row()) {
            false
        } else if !self.col_is_valid(*dirty_coordinate.col()) {
            false
        } else if !self.square_is_valid(SquareCoordinate::containing(dirty_coordinate)) {
            false
        } else {
            true
        }
    }
}

} // verus!
