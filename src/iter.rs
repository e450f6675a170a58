use vstd::prelude::*;
use crate::coordinate::Coordinate;
use crate::index::{SquareIndex, SudokuIndex};

verus! {

/// The position at step `k` of a row-major walk over the square whose top-left
/// cell is `(x, y)`.
pub open spec fn square_position(x: nat, y: nat, k: int) -> (nat, nat) {
    ((x + k / 3) as nat, (y + k % 3) as nat)
}

/// Walks the indices `0..9` in increasing order.
pub struct IndexIter {
    next: SudokuIndex,
    has_next: bool,
}

impl IndexIter {
    /// How many indices have been handed out so far.
    pub closed spec fn produced(self) -> nat {
        if self.has_next {
            self.next@
        } else {
            9
        }
    }

    pub fn new() -> (r: Self)
        ensures
            r.produced() == 0,
    {
        IndexIter { next: SudokuIndex::zero(), has_next: true }
    }

    /// Hands out the next index, or `None` once all nine have been seen.
    pub fn next(&mut self) -> (r: Option<SudokuIndex>)
        ensures
            old(self).produced() < 9 ==> r is Some && r->Some_0@ == old(self).produced()
                && final(self).produced() == old(self).produced() + 1,
            old(self).produced() >= 9 ==> r is None && final(self).produced() == old(self).produced(),
            final(self).produced() <= 9,
    {
        if self.has_next && self.next.get() < SudokuIndex::INDEX_MAX {
            let next = self.next;
            self.has_next = self.next.inc(1);
            Some(next)
        } else {
            None
        }
    }

    /// Consumes the walk and reports how many indices were left in it.
    pub fn count(self) -> (r: usize)
        requires
            self.produced() <= 9,
        ensures
            r == 9 - self.produced(),
    {
        let mut it = self;
        let mut n: usize = 0;
        loop
            invariant
                it.produced() <= 9,
                self.produced() <= it.produced(),
                n == it.produced() - self.produced(),
            ensures
                n == 9 - self.produced(),
            decreases 9 - it.produced(),
        {
            match it.next() {
                Some(_) => {
                    n = n + 1;
                },
                None => {
                    break;
                },
            }
        }
        n
    }
}

/// Walks the nine cells of one row, from left to right.
pub struct RowIter {
    row: SudokuIndex,
    iter: IndexIter,
}

impl RowIter {
    /// The row being walked.
    pub closed spec fn row(self) -> nat {
        self.row@
    }

    /// How many cells have been handed out so far.
    pub closed spec fn produced(self) -> nat {
        self.iter.produced()
    }

    pub fn new(row: SudokuIndex) -> (r: Self)
        ensures
            r.row() == row@,
            r.produced() == 0,
    {
        RowIter { row, iter: IndexIter::new() }
    }

    /// Hands out the next cell of the row, or `None` at its end.
    pub fn next(&mut self) -> (r: Option<Coordinate>)
        ensures
            final(self).row() == old(self).row(),
            old(self).produced() < 9 ==> r is Some && r->Some_0@ == (old(self).row(), old(self).produced())
                && final(self).produced() == old(self).produced() + 1,
            old(self).produced() >= 9 ==> r is None && final(self).produced() == old(self).produced(),
            final(self).produced() <= 9,
    {
        match self.iter.next() {
            Some(col) => Some(Coordinate::new(self.row, col)),
            None => None,
        }
    }
}

/// Walks the nine cells of one column, from top to bottom.
pub struct ColIter {
    col: SudokuIndex,
    iter: IndexIter,
}

impl ColIter {
    /// The column being walked.
    pub closed spec fn col(self) -> nat {
        self.col@
    }

    /// How many cells have been handed out so far.
    pub closed spec fn produced(self) -> nat {
        self.iter.produced()
    }

    pub fn new(col: SudokuIndex) -> (r: Self)
        ensures
            r.col() == col@,
            r.produced() == 0,
    {
        ColIter { col, iter: IndexIter::new() }
    }

    /// Hands out the next cell of the column, or `None` at its end.
    pub fn next(&mut self) -> (r: Option<Coordinate>)
        ensures
            final(self).col() == old(self).col(),
            old(self).produced() < 9 ==> r is Some && r->Some_0@ == (old(self).produced(), old(self).col())
                && final(self).produced() == old(self).produced() + 1,
            old(self).produced() >= 9 ==> r is None && final(self).produced() == old(self).produced(),
            final(self).produced() <= 9,
    {
        match self.iter.next() {
            Some(row) => Some(Coordinate::new(row, self.col)),
            None => None,
        }
    }
}

/// Walks the nine cells of one 3x3 square, row by row.
pub struct SquareIter {
    x: SudokuIndex,
    y: SudokuIndex,
    counter: usize,
}

impl SquareIter {
    #[verifier::type_invariant]
    spec fn inv(self) -> bool {
        &&& self.x@ % 3 == 0
        &&& self.y@ % 3 == 0
        &&& self.x@ <= 6
        &&& self.y@ <= 6
        &&& self.counter <= 9
    }

    /// The first row of the square.
    pub closed spec fn top(self) -> nat {
        self.x@
    }

    /// The first column of the square.
    pub closed spec fn left(self) -> nat {
        self.y@
    }

    /// How many cells have been handed out so far.
    pub closed spec fn produced(self) -> nat {
        self.counter as nat
    }

    /// The walk over the square in row band `x` and column band `y`.
    pub fn new(x: SquareIndex, y: SquareIndex) -> (r: Self)
        ensures
            r.top() == 3 * x@,
            r.left() == 3 * y@,
            r.produced() == 0,
    {
        Self { x: x.start(), y: y.start(), counter: 0 }
    }

    /// Hands out the next cell of the square, or `None` at its end.
    pub fn next(&mut self) -> (r: Option<Coordinate>)
        ensures
            final(self).top() == old(self).top(),
            final(self).left() == old(self).left(),
            old(self).produced() < 9 ==> r is Some
                && r->Some_0@ == square_position(old(self).top(), old(self).left(), old(self).produced() as int)
                && final(self).produced() == old(self).produced() + 1,
            old(self).produced() >= 9 ==> r is None && final(self).produced() == old(self).produced(),
            final(self).produced() <= 9,
    {
        proof {
            use_type_invariant(&*self);
        }
        if self.counter < SudokuIndex::INDEX_MAX {
            let raw_x = self.x.get() + self.counter / 3;
            let raw_y = self.y.get() + self.counter % 3;
            let x = SudokuIndex::try_from(raw_x);
            let y = SudokuIndex::try_from(raw_y);
            match (x, y) {
                (Ok(x), Ok(y)) => {
                    self.counter = self.counter + 1;
                    Some(Coordinate::new(x, y))
                },
                _ => None,
            }
        } else {
            None
        }
    }
}

} // verus!
