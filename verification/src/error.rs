//! The errors that stop a scan.

use vstd::prelude::*;
use crate::annot::Annot;
use crate::loc::Loc;

verus! {

/// Why a scan stopped.
#[derive(Debug, Clone, PartialEq, Eq, Hash)]
pub enum LexErrorKind {
    /// A byte that starts no token, or that is not the byte that was
    /// asked for.
    InvalidChar(char),
    /// The text ended where one more byte was asked for.
    Eof,
    /// A run of digits whose value does not fit in 64 bits. Such a number
    /// is rejected as a whole; it is never truncated or wrapped.
    Overflow,
}

/// An error kind with the range of the text that caused it.
pub type LexError = Annot<LexErrorKind>;

impl LexError {
    /// The byte `c`, read from `loc`, starts no token or is not the one asked for.
    pub fn invalid_char(c: char, loc: Loc) -> (error: Self)
        ensures
            error == (Annot { value: LexErrorKind::InvalidChar(c), loc }),
    {
        Self::new(LexErrorKind::InvalidChar(c), loc)
    }

    /// The text ended at `loc`, where one more byte was asked for.
    pub fn eof(loc: Loc) -> (error: Self)
        ensures
            error == (Annot { value: LexErrorKind::Eof, loc }),
    {
        Self::new(LexErrorKind::Eof, loc)
    }

    /// The digits at `loc` denote a number that does not fit in 64 bits.
    pub fn overflow(loc: Loc) -> (error: Self)
        ensures
            error == (Annot { value: LexErrorKind::Overflow, loc }),
    {
        Self::new(LexErrorKind::Overflow, loc)
    }
}

} // verus!
