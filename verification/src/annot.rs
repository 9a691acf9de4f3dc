//! Values tagged with the range they were read from.

use vstd::prelude::*;
use crate::loc::Loc;

verus! {

/// A value together with the range of the text it was read from.
#[derive(Debug, Clone, PartialEq, Eq, Hash)]
pub struct Annot<T> {
    pub value: T,
    pub loc: Loc,
}

impl<T> Annot<T> {
    /// Pairs `value` with `loc`.
    pub fn new(value: T, loc: Loc) -> (annot: Self)
        ensures
            annot.value == value,
            annot.loc == loc,
    {
        Self { value, loc }
    }
}

} // verus!
