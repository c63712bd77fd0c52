use vstd::prelude::*;

verus! {

/// A point on the integer lattice: a pair of signed 64-bit coordinates.
#[derive(Debug, Default, PartialEq, Eq, Structural, Hash, Copy, Clone)]
pub struct PtI {
    pub x: i64,
    pub y: i64,
}

impl PtI {
    pub fn new(x: i64, y: i64) -> (p: Self)
        ensures
            p.x == x,
            p.y == y,
    {
        Self { x, y }
    }

    /// The origin.
    pub fn zero() -> (p: Self)
        ensures
            p.x == 0,
            p.y == 0,
    {
        Self::new(0, 0)
    }

    pub fn is_zero(&self) -> (r: bool)
        ensures
            r == (self.x == 0 && self.y == 0),
    {
        *self == Self::zero()
    }

    /// The squared magnitude of the vector from the origin to this point.
    pub fn mag2(&self) -> (r: i64)
        requires
            self.x * self.x + self.y * self.y <= i64::MAX,
        ensures
            r == self.x * self.x + self.y * self.y,
    {
        proof {
            assert(self.x * self.x >= 0 && self.y * self.y >= 0) by (nonlinear_arith);
        }
        self.x * self.x + self.y * self.y
    }
}

/// Shorthand constructor for an integer point.
pub fn pti(x: i64, y: i64) -> (p: PtI)
    ensures
        p.x == x,
        p.y == y,
{
    PtI::new(x, y)
}

} // verus!
