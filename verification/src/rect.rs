use vstd::prelude::*;

use crate::point::{pti, PtI};

verus! {

/// An axis-aligned rectangle on the integer lattice, stored as an origin
/// `(x, y)` and a non-negative extent `(w, h)`.
#[derive(Debug, Default, PartialEq, Eq, Structural, Copy, Clone)]
pub struct RtI {
    x: i64,
    y: i64,
    w: i64,
    h: i64,
}

/// How far one side of a rectangle of size `sz` moves under an inset by `d`:
/// `d` itself, unless `2 * d` reaches the whole size, in which case both
/// sides meet at the centre.
pub open spec fn inset_shift(sz: int, d: int) -> int {
    if 2 * d < sz {
        d
    } else {
        sz / 2
    }
}

/// The size left after insetting a side of size `sz` by `d` on both ends.
pub open spec fn inset_size(sz: int, d: int) -> int {
    if 2 * d < sz {
        sz - 2 * d
    } else {
        0
    }
}

impl RtI {
    pub closed spec fn sx(self) -> int {
        self.x as int
    }

    pub closed spec fn sy(self) -> int {
        self.y as int
    }

    pub closed spec fn sw(self) -> int {
        self.w as int
    }

    pub closed spec fn sh(self) -> int {
        self.h as int
    }

    /// A well-formed rectangle has non-negative extent, so its right edge is
    /// never left of its left edge and its top never below its bottom.
    pub open spec fn wf(self) -> bool {
        self.sw() >= 0 && self.sh() >= 0
    }

    pub fn new(x: i64, y: i64, w: i64, h: i64) -> (r: Self)
        requires
            w >= 0,
            h >= 0,
        ensures
            r.sx() == x,
            r.sy() == y,
            r.sw() == w,
            r.sh() == h,
            r.wf(),
    {
        Self { x, y, w, h }
    }

    pub fn w(&self) -> (r: i64)
        ensures
            r == self.sw(),
    {
        self.w
    }

    pub fn h(&self) -> (r: i64)
        ensures
            r == self.sh(),
    {
        self.h
    }

    pub fn l(&self) -> (r: i64)
        ensures
            r == self.sx(),
    {
        self.x
    }

    pub fn t(&self) -> (r: i64)
        requires
            i64::MIN <= self.sy() + self.sh() <= i64::MAX,
        ensures
            r == self.sy() + self.sh(),
    {
        self.y + self.h
    }

    pub fn r(&self) -> (r: i64)
        requires
            i64::MIN <= self.sx() + self.sw() <= i64::MAX,
        ensures
            r == self.sx() + self.sw(),
    {
        self.x + self.w
    }

    pub fn b(&self) -> (r: i64)
        ensures
            r == self.sy(),
    {
        self.y
    }

    /// The bottom-left corner.
    pub fn bl(&self) -> (p: PtI)
        ensures
            p.x == self.sx(),
            p.y == self.sy(),
    {
        pti(self.l(), self.b())
    }

    /// The bottom-right corner.
    pub fn br(&self) -> (p: PtI)
        requires
            i64::MIN <= self.sx() + self.sw() <= i64::MAX,
        ensures
            p.x == self.sx() + self.sw(),
            p.y == self.sy(),
    {
        pti(self.r(), self.b())
    }

    /// The top-left corner.
    pub fn tl(&self) -> (p: PtI)
        requires
            i64::MIN <= self.sy() + self.sh() <= i64::MAX,
        ensures
            p.x == self.sx(),
            p.y == self.sy() + self.sh(),
    {
        pti(self.l(), self.t())
    }

    /// The top-right corner.
    pub fn tr(&self) -> (p: PtI)
        requires
            i64::MIN <= self.sx() + self.sw() <= i64::MAX,
            i64::MIN <= self.sy() + self.sh() <= i64::MAX,
        ensures
            p.x == self.sx() + self.sw(),
            p.y == self.sy() + self.sh(),
    {
        pti(self.r(), self.t())
    }

    /// Moves each edge inward by `dx` horizontally and `dy` vertically.
    /// Insetting by more than the size leaves the single centre point.
    pub fn inset(&self, dx: i64, dy: i64) -> (r: RtI)
        requires
            self.wf(),
            i64::MIN <= 2 * dx <= i64::MAX,
            i64::MIN <= 2 * dy <= i64::MAX,
            i64::MIN <= self.sx() + inset_shift(self.sw(), dx as int) <= i64::MAX,
            i64::MIN <= self.sy() + inset_shift(self.sh(), dy as int) <= i64::MAX,
            inset_size(self.sw(), dx as int) <= i64::MAX,
            inset_size(self.sh(), dy as int) <= i64::MAX,
        ensures
            r.sx() == self.sx() + inset_shift(self.sw(), dx as int),
            r.sy() == self.sy() + inset_shift(self.sh(), dy as int),
            r.sw() == inset_size(self.sw(), dx as int),
            r.sh() == inset_size(self.sh(), dy as int),
            r.wf(),
    {
        let two_dx = 2 * dx;
        let two_dy = 2 * dy;
        let xshift = if two_dx < self.w { dx } else { self.w / 2 };
        let yshift = if two_dy < self.h { dy } else { self.h / 2 };
        let wsub = if two_dx < self.w { two_dx } else { self.w };
        let hsub = if two_dy < self.h { two_dy } else { self.h };
        RtI::new(self.x + xshift, self.y + yshift, self.w - wsub, self.h - hsub)
    }

    /// The smallest rectangle covering both points.
    pub fn enclosing(pa: PtI, pb: PtI) -> (r: RtI)
        requires
            i64::MIN <= pa.x - pb.x <= i64::MAX,
            i64::MIN <= pb.x - pa.x <= i64::MAX,
            i64::MIN <= pa.y - pb.y <= i64::MAX,
            i64::MIN <= pb.y - pa.y <= i64::MAX,
        ensures
            r.sx() == vstd::math::min(pa.x as int, pb.x as int),
            r.sy() == vstd::math::min(pa.y as int, pb.y as int),
            r.sx() + r.sw() == vstd::math::max(pa.x as int, pb.x as int),
            r.sy() + r.sh() == vstd::math::max(pa.y as int, pb.y as int),
            r.wf(),
    {
        let x = if pa.x < pb.x { pa.x } else { pb.x };
        let y = if pa.y < pb.y { pa.y } else { pb.y };
        let rr = if pa.x > pb.x { pa.x } else { pb.x };
        let tt = if pa.y > pb.y { pa.y } else { pb.y };
        RtI::new(x, y, rr - x, tt - y)
    }
}

} // verus!
