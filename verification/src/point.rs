use vstd::prelude::*;
use crate::bounds::{lemma_square_bound};

verus! {

/// Largest absolute coordinate of a point handed to the triangulator.
pub const GRID_MAX: i64 = 16_384;

/// Largest absolute coordinate of any point a triangle may have as a vertex.
/// It leaves room for the enclosing triangle built around a set of grid points,
/// whose vertices lie up to forty times `GRID_MAX` away from the set's middle.
pub const REACH: i64 = 671_744;

/// A point of the integer plane.
#[derive(Clone, Copy, Debug, PartialEq, Eq, Hash, Structural)]
pub struct Point {
    pub x: i64,
    pub y: i64,
}

impl Point {
    /// Both coordinates lie within `limit` of zero.
    pub open spec fn bounded_by(self, limit: int) -> bool {
        &&& -limit <= self.x <= limit
        &&& -limit <= self.y <= limit
    }

    /// The point may be handed to the triangulator.
    pub open spec fn on_grid(self) -> bool {
        self.bounded_by(GRID_MAX as int)
    }

    /// The point may be a vertex of a triangle.
    pub open spec fn fits(self) -> bool {
        self.bounded_by(REACH as int)
    }

    /// Squared distance from the origin.
    pub open spec fn squared_norm(self) -> int {
        self.x * self.x + self.y * self.y
    }

    /// Squared Euclidean distance between two points.
    pub open spec fn squared_dist(self, other: Point) -> int {
        (self.x - other.x) * (self.x - other.x) + (self.y - other.y) * (self.y - other.y)
    }

    pub fn new(x: i64, y: i64) -> (p: Point)
        ensures
            p.x == x,
            p.y == y,
    {
        Point { x, y }
    }

    /// Tells whether both coordinates lie within `limit` of zero.
    pub fn within(&self, limit: i64) -> (r: bool)
        requires
            limit >= 0,
        ensures
            r == self.bounded_by(limit as int),
    {
        -limit <= self.x && self.x <= limit && -limit <= self.y && self.y <= limit
    }

    /// Squared Euclidean distance to `other`; no square root is ever taken.
    pub fn dist(&self, other: &Point) -> (d: i64)
        requires
            self.fits(),
            other.fits(),
        ensures
            d == self.squared_dist(*other),
    {
        let dx: i64 = self.x - other.x;
        let dy: i64 = self.y - other.y;
        proof {
            lemma_square_bound(dx as int, 2 * REACH);
            lemma_square_bound(dy as int, 2 * REACH);
        }
        dx * dx + dy * dy
    }

    /// Squared distance from the origin.
    pub fn norm(&self) -> (n: i64)
        requires
            self.fits(),
        ensures
            n == self.squared_norm(),
    {
        proof {
            lemma_square_bound(self.x as int, REACH as int);
            lemma_square_bound(self.y as int, REACH as int);
        }
        self.x * self.x + self.y * self.y
    }
}

} // verus!
