//! Byte offsets, and positions given as line and column.

use std::cmp::Ordering;
use vstd::prelude::*;
use vstd::std_specs::cmp::PartialOrdSpecImpl;
use vstd::std_specs::convert::FromSpecImpl;

pub mod line_column;

verus! {

/// Zero-based count of bytes from the start of a source. Offsets are
/// ordered as their counts are.
#[derive(Debug, Clone, Copy, PartialEq, Eq, Structural, Ord, Hash)]
pub struct Offset(pub usize);

impl Offset {
    /// The offset `raw` bytes into the source.
    pub fn new(raw: usize) -> (offset: Self)
        ensures
            offset.0 == raw,
    {
        Offset(raw)
    }

    /// The number of bytes that precede this offset.
    pub fn raw(&self) -> (raw: usize)
        ensures
            raw == self.0,
    {
        self.0
    }
}

impl PartialOrdSpecImpl for Offset {
    open spec fn obeys_partial_cmp_spec() -> bool {
        true
    }

    open spec fn partial_cmp_spec(&self, other: &Self) -> Option<Ordering> {
        if self.0 < other.0 {
            Some(Ordering::Less)
        } else if self.0 == other.0 {
            Some(Ordering::Equal)
        } else {
            Some(Ordering::Greater)
        }
    }
}

impl PartialOrd for Offset {
    fn partial_cmp(&self, other: &Self) -> (order: Option<Ordering>) {
        if self.0 < other.0 {
            Some(Ordering::Less)
        } else if self.0 == other.0 {
            Some(Ordering::Equal)
        } else {
            Some(Ordering::Greater)
        }
    }
}

impl FromSpecImpl<usize> for Offset {
    open spec fn obeys_from_spec() -> bool {
        true
    }

    open spec fn from_spec(value: usize) -> Self {
        Offset(value)
    }
}

impl From<usize> for Offset {
    fn from(value: usize) -> (offset: Self) {
        Offset::new(value)
    }
}

} // verus!
