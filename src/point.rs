use vstd::prelude::*;

verus! {

/// An integer coordinate on the plane, in physical grid units.
#[derive(Debug, Clone, Copy, PartialEq, Eq, Structural, PartialOrd, Ord, Hash, Default)]
pub struct Point {
    pub x: u32,
    pub y: u32,
}

/// Squared Euclidean distance between two coordinate pairs.
pub open spec fn dist_sq_spec(ax: int, ay: int, bx: int, by: int) -> int {
    (ax - bx) * (ax - bx) + (ay - by) * (ay - by)
}

impl Point {
    pub open spec fn dist_sq_to(self, other: Point) -> int {
        dist_sq_spec(self.x as int, self.y as int, other.x as int, other.y as int)
    }

    /// Squared Euclidean distance to `other`.
    pub fn dist_sq(&self, other: &Point) -> (r: u128)
        ensures
            r as int == self.dist_sq_to(*other),
    {
        let dx: u128 = if self.x >= other.x {
            (self.x - other.x) as u128
        } else {
            (other.x - self.x) as u128
        };
        let dy: u128 = if self.y >= other.y {
            (self.y - other.y) as u128
        } else {
            (other.y - self.y) as u128
        };
        assert(dx * dx <= 0xffff_ffff_u128 * 0xffff_ffff_u128) by (nonlinear_arith)
            requires
                dx <= 0xffff_ffff_u128,
        ;
        assert(dy * dy <= 0xffff_ffff_u128 * 0xffff_ffff_u128) by (nonlinear_arith)
            requires
                dy <= 0xffff_ffff_u128,
        ;
        assert((self.x - other.x) * (self.x - other.x) == dx * dx) by (nonlinear_arith)
            requires
                dx == (self.x - other.x) || dx == (other.x - self.x),
        ;
        assert((self.y - other.y) * (self.y - other.y) == dy * dy) by (nonlinear_arith)
            requires
                dy == (self.y - other.y) || dy == (other.y - self.y),
        ;
        dx * dx + dy * dy
    }

    pub fn new(x: u32, y: u32) -> (r: Point)
        ensures
            r.x == x,
            r.y == y,
    {
        Point { x, y }
    }

    /// Quantizes the point down to the nearest lower multiple of `resolution`
    /// on each axis.
    pub fn with_resolution(&self, resolution: u32) -> (r: Point)
        requires
            resolution > 0,
        ensures
            r.x == self.x / resolution * resolution,
            r.y == self.y / resolution * resolution,
    {
        proof {
            vstd::arithmetic::div_mod::lemma_fundamental_div_mod(self.x as int, resolution as int);
            vstd::arithmetic::div_mod::lemma_fundamental_div_mod(self.y as int, resolution as int);
        }
        Point { x: self.x / resolution * resolution, y: self.y / resolution * resolution }
    }

    /// Offsets both coordinates up by `d`, saturating at the largest coordinate.
    pub fn add_offset(&self, d: u32) -> (r: Point)
        ensures
            r.x == (if self.x + d > u32::MAX { u32::MAX as int } else { self.x + d }),
            r.y == (if self.y + d > u32::MAX { u32::MAX as int } else { self.y + d }),
    {
        Point { x: self.x.saturating_add(d), y: self.y.saturating_add(d) }
    }

    /// Offsets both coordinates down by `d`, saturating at zero.
    pub fn sub_offset(&self, d: u32) -> (r: Point)
        ensures
            r.x == (if self.x >= d { self.x - d } else { 0 }),
            r.y == (if self.y >= d { self.y - d } else { 0 }),
    {
        Point { x: self.x.saturating_sub(d), y: self.y.saturating_sub(d) }
    }
}

} // verus!
