//! Integer 2-D coordinates with squared-distance and component-wise
//! subtraction.

use vstd::prelude::*;

verus! {

/// An integer 2-D coordinate. Copied by value and compared by equality.
#[derive(Clone, Copy, PartialEq, Eq, Structural, Debug)]
pub struct Point {
    pub x: i32,
    pub y: i32,
}

/// The squared Euclidean distance between two points.
pub open spec fn dist_sq(a: Point, b: Point) -> int {
    (a.x - b.x) * (a.x - b.x) + (a.y - b.y) * (a.y - b.y)
}

impl Point {
    pub fn new(x: i32, y: i32) -> (p: Point)
        ensures
            p == (Point { x, y }),
    {
        Point { x, y }
    }

    /// Component-wise difference `self - other`.
    pub fn sub(&self, other: &Point) -> (r: Point)
        requires
            i32::MIN <= self.x - other.x <= i32::MAX,
            i32::MIN <= self.y - other.y <= i32::MAX,
        ensures
            r.x == self.x - other.x,
            r.y == self.y - other.y,
    {
        Point { x: self.x - other.x, y: self.y - other.y }
    }

    /// The squared Euclidean distance to `other`. The square root of this
    /// value is the Euclidean distance itself.
    pub fn dist_squared(&self, other: &Point) -> (r: u128)
        ensures
            r == dist_sq(*self, *other),
    {
        let dx: i128 = self.x as i128 - other.x as i128;
        let dy: i128 = self.y as i128 - other.y as i128;
        proof {
            lemma_square_bounds(dx as int);
            lemma_square_bounds(dy as int);
        }
        (dx * dx + dy * dy) as u128
    }
}

/// The square of a coordinate difference is non-negative and bounded.
proof fn lemma_square_bounds(v: int)
    requires
        -0x1_0000_0000 <= v <= 0x1_0000_0000,
    ensures
        0 <= v * v <= 0x1_0000_0000_0000_0000,
{
    assert(0 <= v * v <= 0x1_0000_0000_0000_0000) by (nonlinear_arith)
        requires -0x1_0000_0000 <= v <= 0x1_0000_0000;
}

/// The squared distance is symmetric in its arguments.
pub proof fn lemma_dist_sq_symmetric(a: Point, b: Point)
    ensures
        dist_sq(a, b) == dist_sq(b, a),
{
    assert(dist_sq(a, b) == dist_sq(b, a)) by (nonlinear_arith);
}

/// The squared distance from a point to itself is zero.
pub proof fn lemma_dist_sq_self_zero(a: Point)
    ensures
        dist_sq(a, a) == 0,
{
}

} // verus!

