use vstd::prelude::*;

verus! {

/// A location `(x, y)` on a board. The top left corner is `Location(0, 0)`;
/// `x` grows to the right and `y` grows downward.
#[derive(Clone, Copy, PartialEq, Eq, Structural, Hash, Debug)]
pub struct Location(pub usize, pub usize);

/// An unsigned coordinate offset by a signed delta, wrapping around the
/// `usize` range. Out-of-board results of a step wrap to huge values that
/// callers reject with bounds checks.
pub open spec fn coord_offset(a: usize, d: isize) -> usize {
    vstd::wrapping::usize_specs::wrapping_add_signed(a, d)
}

impl Location {
    /// The `(row, column)` index of this location in a row-major grid.
    pub fn as_index(&self) -> (r: (usize, usize))
        ensures
            r == (self.1, self.0),
    {
        (self.1, self.0)
    }

    /// Offset both coordinates, wrapping around the `usize` range.
    pub fn offset_by(self, rhs: (isize, isize)) -> (r: Self)
        ensures
            r == (Location(coord_offset(self.0, rhs.0), coord_offset(self.1, rhs.1))),
    {
        Self(self.0.wrapping_add_signed(rhs.0), self.1.wrapping_add_signed(rhs.1))
    }
}

/// When the offset stays inside the `usize` range, `coord_offset` is the
/// ordinary sum.
pub proof fn lemma_coord_offset_in_range(a: usize, d: isize)
    requires
        0 <= a + d <= usize::MAX,
    ensures
        coord_offset(a, d) == a + d,
{
}

} // verus!
