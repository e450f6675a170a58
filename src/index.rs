use vstd::prelude::*;

verus! {

/// Error returned when a raw integer lies outside the range of an index.
#[derive(Clone, Copy, Debug, PartialEq, Eq, Structural)]
pub struct IndexConversionError;

/// A row or column position on the board, always in `0..9`.
#[derive(Clone, Copy, Debug, PartialEq, Eq, Structural, Hash)]
pub struct SudokuIndex(usize);

impl SudokuIndex {
    /// The exclusive upper bound of an index.
    pub const INDEX_MAX: usize = 9;

    #[verifier::type_invariant]
    spec fn inv(self) -> bool {
        self.0 < 9
    }

    /// The position as a natural number.
    pub closed spec fn view(self) -> nat {
        self.0 as nat
    }

    /// Two indices are equal exactly when their positions are.
    pub proof fn lemma_view_injective(self, other: Self)
        ensures
            self@ == other@ <==> self == other,
    {
    }

    /// Creates the index zero.
    pub fn zero() -> (r: Self)
        ensures
            r@ == 0,
    {
        SudokuIndex(0)
    }

    /// The position as a plain integer.
    pub fn get(&self) -> (r: usize)
        ensures
            r == self@,
            r < 9,
    {
        proof {
            use_type_invariant(self);
        }
        self.0
    }

    /// Builds an index from a raw integer, failing outside `0..9`.
    pub fn try_from(val: usize) -> (r: Result<SudokuIndex, IndexConversionError>)
        ensures
            val < 9 <==> r is Ok,
            r is Ok ==> r->Ok_0@ == val,
    {
        if val < Self::INDEX_MAX {
            Ok(SudokuIndex(val))
        } else {
            Err(IndexConversionError)
        }
    }

    /// Advances the index by `amount` if the result stays below the bound;
    /// reports whether it moved.
    pub fn inc(&mut self, amount: usize) -> (r: bool)
        ensures
            r == (old(self)@ + amount < 9),
            r ==> final(self)@ == old(self)@ + amount,
            !r ==> *final(self) == *old(self),
    {
        proof {
            use_type_invariant(&*self);
        }
        if amount < Self::INDEX_MAX - self.0 {
            self.0 = self.0 + amount;
            true
        } else {
            false
        }
    }
}

/// One of the three 3-wide bands along an axis, always in `0..3`.
#[derive(Clone, Copy, Debug, PartialEq, Eq, Structural)]
pub struct SquareIndex(usize);

impl SquareIndex {
    /// The largest square index.
    pub const INDEX_MAX: usize = 2;

    #[verifier::type_invariant]
    spec fn inv(self) -> bool {
        self.0 <= 2
    }

    /// The band number as a natural number.
    pub closed spec fn view(self) -> nat {
        self.0 as nat
    }

    /// Two square indices are equal exactly when their band numbers are.
    pub proof fn lemma_view_injective(self, other: Self)
        ensures
            self@ == other@ <==> self == other,
    {
    }

    /// Creates the square index zero.
    pub fn zero() -> (r: Self)
        ensures
            r@ == 0,
    {
        SquareIndex(0)
    }

    /// The band number as a plain integer.
    pub fn get(&self) -> (r: usize)
        ensures
            r == self@,
            r < 3,
    {
        proof {
            use_type_invariant(self);
        }
        self.0
    }

    /// Builds a square index from a raw integer, failing outside `0..3`.
    pub fn try_from(value: usize) -> (r: Result<SquareIndex, IndexConversionError>)
        ensures
            value <= 2 <==> r is Ok,
            r is Ok ==> r->Ok_0@ == value,
    {
        if value <= Self::INDEX_MAX {
            Ok(SquareIndex(value))
        } else {
            Err(IndexConversionError)
        }
    }

    /// Advances to the next band if there is one; reports whether it moved.
    pub fn inc(&mut self) -> (r: bool)
        ensures
            r == (old(self)@ < 2),
            r ==> final(self)@ == old(self)@ + 1,
            !r ==> *final(self) == *old(self),
    {
        proof {
            use_type_invariant(&*self);
        }
        if self.0 < Self::INDEX_MAX {
            self.0 = self.0 + 1;
            true
        } else {
            false
        }
    }

    /// The index of the first row (or column) of this band.
    pub fn start(&self) -> (r: SudokuIndex)
        ensures
            r@ == 3 * self@,
            r@ <= 6,
    {
        proof {
            use_type_invariant(self);
        }
        SudokuIndex(self.0 * 3)
    }

    /// The band that contains `index`, as a value.
    pub closed spec fn band_of(index: SudokuIndex) -> SquareIndex {
        SquareIndex(index.0 / 3)
    }

    /// The band that contains `index`.
    pub fn of_index(index: SudokuIndex) -> (r: SquareIndex)
        ensures
            r@ == index@ / 3,
            r == Self::band_of(index),
    {
        let i = index.get();
        SquareIndex(i / 3)
    }
}

impl From<SudokuIndex> for SquareIndex {
    fn from(index: SudokuIndex) -> (r: SquareIndex) {
        SquareIndex::of_index(index)
    }
}

impl vstd::std_specs::convert::FromSpecImpl<SudokuIndex> for SquareIndex {
    open spec fn obeys_from_spec() -> bool {
        true
    }

    open spec fn from_spec(v: SudokuIndex) -> SquareIndex {
        SquareIndex::band_of(v)
    }
}

} // verus!
