//! Ranges of positions in the text.

use vstd::prelude::*;

verus! {

/// A half-open range of byte offsets: `Loc(start, end)` stands for the
/// positions `start, start + 1, .., end - 1` of the text that was scanned.
#[derive(Debug, Clone, PartialEq, Eq, Hash)]
pub struct Loc(pub usize, pub usize);

impl Loc {
    /// A range is well formed when it does not end before it starts.
    pub open spec fn wf(self) -> bool {
        self.0 <= self.1
    }

    /// `self` reaches at least as far as `other` on both sides.
    pub open spec fn contains(self, other: Loc) -> bool {
        self.0 <= other.0 && other.1 <= self.1
    }

    /// The range from the smaller of the two starts to the larger of the
    /// two ends.
    pub open spec fn hull(self, other: Loc) -> Loc {
        Loc(
            if self.0 <= other.0 { self.0 } else { other.0 },
            if self.1 >= other.1 { self.1 } else { other.1 },
        )
    }

    /// The smallest range that contains both `self` and `other`, whether
    /// or not they overlap and whichever comes first.
    pub fn merge(&self, other: &Loc) -> (merged: Loc)
        ensures
            merged == self.hull(*other),
            merged.contains(*self),
            merged.contains(*other),
            self.wf() || other.wf() ==> merged.wf(),
    {
        let start: usize = if self.0 <= other.0 { self.0 } else { other.0 };
        let end: usize = if self.1 >= other.1 { self.1 } else { other.1 };
        Loc(start, end)
    }
}

/// The hull of two ranges contains both of them, and every range that
/// contains both contains the hull: it is the smallest such range.
pub proof fn lemma_hull_is_least_upper_bound(a: Loc, b: Loc, c: Loc)
    ensures
        a.hull(b).contains(a),
        a.hull(b).contains(b),
        c.contains(a) && c.contains(b) ==> c.contains(a.hull(b)),
{
}

/// Merging a range with itself gives the range back.
pub proof fn lemma_hull_idempotent(a: Loc)
    ensures
        a.hull(a) == a,
{
}

} // verus!
