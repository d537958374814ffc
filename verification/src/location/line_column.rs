//! Positions given as line and column, counted from zero or from one.
//!
//! The two ways of counting are two types. A position counted from one
//! holds no zero: there is no way to make one that does.

use std::cmp::Ordering;
use vstd::prelude::*;
use vstd::std_specs::cmp::PartialOrdSpecImpl;
use vstd::std_specs::convert::FromSpecImpl;

verus! {

/// The order of two pairs that are compared by their first parts, and by
/// their second parts where the first are equal.
pub open spec fn lexicographic(a: (usize, usize), b: (usize, usize)) -> Ordering {
    if a.0 < b.0 || (a.0 == b.0 && a.1 < b.1) {
        Ordering::Less
    } else if a.0 == b.0 && a.1 == b.1 {
        Ordering::Equal
    } else {
        Ordering::Greater
    }
}

/// The order of pairs is a total order: a pair is equal to itself and to no
/// other; of two different pairs one is less, and then the other is
/// greater; and what is less than a lesser pair is less.
pub proof fn lemma_lexicographic_total(a: (usize, usize), b: (usize, usize), c: (usize, usize))
    ensures
        lexicographic(a, b) == Ordering::Equal <==> a == b,
        lexicographic(a, b) == Ordering::Less <==> lexicographic(b, a) == Ordering::Greater,
        lexicographic(a, b) == Ordering::Less && lexicographic(b, c) == Ordering::Less
            ==> lexicographic(a, c) == Ordering::Less,
{
}

/// Compares two pairs by their first parts, and by their second parts where
/// the first are equal.
fn compare(a: (usize, usize), b: (usize, usize)) -> (order: Ordering)
    ensures
        order == lexicographic(a, b),
{
    if a.0 < b.0 {
        Ordering::Less
    } else if a.0 > b.0 {
        Ordering::Greater
    } else if a.1 < b.1 {
        Ordering::Less
    } else if a.1 > b.1 {
        Ordering::Greater
    } else {
        Ordering::Equal
    }
}

/// A position whose line and column are counted from zero. Positions are
/// ordered by line, and by column within a line.
#[derive(Debug, Clone, Copy, PartialEq, Eq, Structural, Ord, Hash)]
pub struct ZeroBased {
    pub line: usize,
    pub column: usize,
}

impl ZeroBased {
    /// The position in column `column` of line `line`.
    pub fn new(line: usize, column: usize) -> (position: Self)
        ensures
            position.line == line,
            position.column == column,
    {
        ZeroBased { line, column }
    }

    /// Line and column, in this order.
    pub fn raw(&self) -> (raw: (usize, usize))
        ensures
            raw == (self.line, self.column),
    {
        (self.line, self.column)
    }

    /// The same position counted from one. A line or a column of
    /// `usize::MAX` has no successor to be counted as.
    pub fn one_based(&self) -> (position: OneBased)
        requires
            self.line < usize::MAX,
            self.column < usize::MAX,
        ensures
            position.line() == self.line + 1,
            position.column() == self.column + 1,
    {
        OneBased::positive(self.line + 1, self.column + 1)
    }
}

impl PartialOrdSpecImpl for ZeroBased {
    open spec fn obeys_partial_cmp_spec() -> bool {
        true
    }

    open spec fn partial_cmp_spec(&self, other: &Self) -> Option<Ordering> {
        Some(lexicographic((self.line, self.column), (other.line, other.column)))
    }
}

impl PartialOrd for ZeroBased {
    fn partial_cmp(&self, other: &Self) -> (order: Option<Ordering>) {
        Some(compare((self.line, self.column), (other.line, other.column)))
    }
}

impl FromSpecImpl<(usize, usize)> for ZeroBased {
    open spec fn obeys_from_spec() -> bool {
        true
    }

    open spec fn from_spec(pair: (usize, usize)) -> Self {
        ZeroBased { line: pair.0, column: pair.1 }
    }
}

impl From<(usize, usize)> for ZeroBased {
    fn from(pair: (usize, usize)) -> (position: Self) {
        ZeroBased { line: pair.0, column: pair.1 }
    }
}

/// A position whose line and column are counted from one, as they are
/// shown to people. Neither is ever 0. Positions are ordered by line, and
/// by column within a line.
#[derive(Debug, Clone, Copy, PartialEq, Eq, Structural, Ord, Hash)]
pub struct OneBased {
    line: usize,
    column: usize,
}

impl OneBased {
    /// Neither the line nor the column is 0.
    #[verifier::type_invariant]
    pub closed spec fn is_positive(&self) -> bool {
        self.line > 0 && self.column > 0
    }

    /// The line, counted from one.
    pub closed spec fn line(&self) -> usize {
        self.line
    }

    /// The column, counted from one.
    pub closed spec fn column(&self) -> usize {
        self.column
    }

    /// The position in column `column` of line `line`, for a line and a
    /// column that are known not to be 0. This is the one place where a
    /// position is made without a test, and only the conversion from a
    /// position counted from zero comes here.
    fn positive(line: usize, column: usize) -> (position: Self)
        requires
            line > 0,
            column > 0,
        ensures
            position.line() == line,
            position.column() == column,
    {
        OneBased { line, column }
    }

    /// The position in column `column` of line `line`, both counted from
    /// one; none if either is 0.
    pub fn new(line: usize, column: usize) -> (position: Option<Self>)
        ensures
            match position {
                Some(p) => line > 0 && column > 0 && p.line() == line && p.column() == column,
                None => line == 0 || column == 0,
            },
    {
        if line == 0 || column == 0 {
            None
        } else {
            Some(OneBased { line, column })
        }
    }

    /// Line and column, in this order. Neither is 0.
    pub fn raw(&self) -> (raw: (usize, usize))
        ensures
            raw == (self.line(), self.column()),
            raw.0 > 0,
            raw.1 > 0,
    {
        proof {
            use_type_invariant(self);
        }
        (self.line, self.column)
    }

    /// The same position counted from zero.
    pub fn zero_based(&self) -> (position: ZeroBased)
        ensures
            position.line == self.line() - 1,
            position.column == self.column() - 1,
    {
        proof {
            use_type_invariant(self);
        }
        ZeroBased { line: self.line - 1, column: self.column - 1 }
    }
}

impl PartialOrdSpecImpl for OneBased {
    open spec fn obeys_partial_cmp_spec() -> bool {
        true
    }

    open spec fn partial_cmp_spec(&self, other: &Self) -> Option<Ordering> {
        Some(lexicographic((self.line(), self.column()), (other.line(), other.column())))
    }
}

impl PartialOrd for OneBased {
    fn partial_cmp(&self, other: &Self) -> (order: Option<Ordering>) {
        Some(compare((self.line, self.column), (other.line, other.column)))
    }
}

} // verus!
