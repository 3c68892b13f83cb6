//! Orientation of the floorplan and the axis swap that brings every point
//! into the frame in which lanes run along the second axis.

use vstd::prelude::*;

verus! {

/// Direction in which the shelving lanes run.
#[derive(Clone, Copy, Debug, PartialEq, Eq, Structural)]
pub enum Orientation {
    /// Lanes are strips of constant first coordinate: the frame all geometry is computed in.
    Vertical,
    /// Lanes are strips of constant second coordinate; the two axes are swapped on the way in and out.
    Horizontal,
}

/// The pair `(x, y)` as seen in the other frame of `orientation`.
pub open spec fn swapped<T>(orientation: Orientation, x: T, y: T) -> (T, T) {
    match orientation {
        Orientation::Horizontal => (y, x),
        Orientation::Vertical => (x, y),
    }
}

impl Orientation {
    /// Carries a coordinate pair between the caller's frame and the frame in
    /// which lanes are vertical. The same call serves both directions.
    pub fn transform_coords<T>(self, x: T, y: T) -> (out: (T, T))
        ensures
            out == swapped(self, x, y),
    {
        match self {
            Orientation::Horizontal => (y, x),
            Orientation::Vertical => (x, y),
        }
    }

    /// True for the orientation that swaps the axes.
    pub fn is_horizontal(self) -> (out: bool)
        ensures
            out == (self == Orientation::Horizontal),
    {
        match self {
            Orientation::Horizontal => true,
            Orientation::Vertical => false,
        }
    }
}

/// Applying the frame change twice gives back the pair it started from, for either
/// orientation.
pub proof fn transform_coords_twice_is_identity<T>(orientation: Orientation, x: T, y: T)
    ensures
        swapped(orientation, swapped(orientation, x, y).0, swapped(orientation, x, y).1) == (x, y),
{
}

/// Under the horizontal orientation a single application swaps the two
/// coordinates, so it is the identity only on pairs whose coordinates agree.
pub proof fn transform_coords_horizontal_swaps<T>(x: T, y: T)
    ensures
        swapped(Orientation::Horizontal, x, y) == (y, x),
        swapped(Orientation::Vertical, x, y) == (x, y),
        (swapped(Orientation::Horizontal, x, y) == (x, y)) <==> x == y,
{
}

} // verus!
