use vstd::prelude::*;

verus! {

/// Whether a shape's boundary is part of the set it describes.
#[derive(Debug, Copy, Clone, PartialEq, Eq, Structural, Default)]
pub enum Boundary {
    /// The shape includes its boundary (a closed set).
    #[default]
    Include,
    /// The shape excludes its boundary (an open set).
    Exclude,
}

/// Touching at a boundary counts as intersection only when both shapes
/// include their boundaries.
pub fn both_include(a: Boundary, b: Boundary) -> (r: bool)
    ensures
        r == (a == Boundary::Include && b == Boundary::Include),
{
    a == Boundary::Include && b == Boundary::Include
}

} // verus!
