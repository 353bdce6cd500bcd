use vstd::prelude::*;
use crate::bounds::{lemma_product_bound, lemma_square_bound};
use crate::edge::Edge;
use crate::error::GeometryError;
use crate::point::{Point, REACH};
use crate::power::lemma_vertices_on_circumcircle;

verus! {

/// Largest magnitude of a product of a coordinate and a difference of
/// coordinates, and of a squared norm: twice the square of `REACH`.
pub const AREA_MAX: i128 = 902_480_003_072;

/// Largest magnitude of a product of a squared norm and a difference of
/// coordinates: four times the cube of `REACH`.
pub const TERM_MAX: i128 = 1_212_471_054_367_195_136;

/// Largest magnitude of the denominator of a circumcenter.
pub const WEIGHT_MAX: i128 = 5_414_880_018_432;

/// Largest magnitude of the numerators of a circumcenter.
pub const CENTER_MAX: i128 = 3_637_413_163_101_585_408;

/// A point with rational coordinates `x / w` and `y / w`.
#[derive(Clone, Copy, Debug, PartialEq, Eq, Structural)]
pub struct Center {
    pub x: i128,
    pub y: i128,
    pub w: i128,
}

impl Center {
    /// The numerators and the denominator are small enough to be computed with.
    pub open spec fn bounded(self) -> bool {
        &&& -CENTER_MAX <= self.x <= CENTER_MAX
        &&& -CENTER_MAX <= self.y <= CENTER_MAX
        &&& -WEIGHT_MAX <= self.w <= WEIGHT_MAX
    }

    /// The squared distance from `q` to this point, multiplied by `w * w`.
    pub open spec fn scaled_squared_dist(self, q: Point) -> int {
        (self.w * q.x - self.x) * (self.w * q.x - self.x) + (self.w * q.y - self.y) * (self.w
            * q.y - self.y)
    }

    /// Squared distance to `q` in units of `1 / (w * w)`.
    pub fn scaled_dist(&self, q: &Point) -> (d: i128)
        requires
            self.bounded(),
            q.fits(),
        ensures
            d == self.scaled_squared_dist(*q),
    {
        proof {
            lemma_product_bound(self.w as int, q.x as int, 5_414_880_018_432, 671_744);
            lemma_product_bound(self.w as int, q.y as int, 5_414_880_018_432, 671_744);
        }
        let sx: i128 = self.w * (q.x as i128) - self.x;
        let sy: i128 = self.w * (q.y as i128) - self.y;
        proof {
            lemma_square_bound(sx as int, 7_274_826_326_203_170_816);
            lemma_square_bound(sy as int, 7_274_826_326_203_170_816);
        }
        sx * sx + sy * sy
    }
}

/// The determinant whose vanishing says that three points lie on one line.
/// It is minus twice the signed area of the triangle they span.
pub open spec fn determinant(p1: Point, p2: Point, p3: Point) -> int {
    p1.x * (p3.y - p2.y) + p2.x * (p1.y - p3.y) + p3.x * (p2.y - p1.y)
}

/// The three points lie on one line.
pub open spec fn collinear(p1: Point, p2: Point, p3: Point) -> bool {
    determinant(p1, p2, p3) == 0
}

/// The same determinant with each point weighted by its squared norm, taken
/// against the `y` coordinates. Divided by twice `determinant`, it is the
/// circumcenter's `x`.
pub open spec fn weighted_x(p1: Point, p2: Point, p3: Point) -> int {
    p1.squared_norm() * (p3.y - p2.y) + p2.squared_norm() * (p1.y - p3.y) + p3.squared_norm() * (
    p2.y - p1.y)
}

/// The weighted determinant taken against the `x` coordinates. Divided by
/// minus twice `determinant`, it is the circumcenter's `y`.
pub open spec fn weighted_y(p1: Point, p2: Point, p3: Point) -> int {
    p1.squared_norm() * (p3.x - p2.x) + p2.squared_norm() * (p1.x - p3.x) + p3.squared_norm() * (
    p2.x - p1.x)
}

/// The circumcenter of three points, over the common denominator
/// `2 * determinant`.
pub open spec fn circumcenter_of(p1: Point, p2: Point, p3: Point) -> Center {
    Center {
        x: weighted_x(p1, p2, p3) as i128,
        y: (-weighted_y(p1, p2, p3)) as i128,
        w: (2 * determinant(p1, p2, p3)) as i128,
    }
}

/// A triangle together with its circumcircle.
///
/// `circumradius` is the squared radius in the units of
/// `Center::scaled_squared_dist`, that is multiplied by the square of the
/// circumcenter's denominator.
#[derive(Clone, Copy, Debug, PartialEq, Eq, Structural)]
pub struct Triangle {
    pub p1: Point,
    pub p2: Point,
    pub p3: Point,
    pub circumcenter: Center,
    pub circumradius: i128,
}

impl Triangle {
    /// The triangle on three vertices, with the circumcircle they determine.
    pub open spec fn of(p1: Point, p2: Point, p3: Point) -> Triangle {
        Triangle {
            p1,
            p2,
            p3,
            circumcenter: circumcenter_of(p1, p2, p3),
            circumradius: circumcenter_of(p1, p2, p3).scaled_squared_dist(p1) as i128,
        }
    }

    /// The vertices are within reach and not collinear, and the circumcircle is
    /// the one they determine.
    pub open spec fn wf(self) -> bool {
        &&& self.p1.fits()
        &&& self.p2.fits()
        &&& self.p3.fits()
        &&& !collinear(self.p1, self.p2, self.p3)
        &&& self == Triangle::of(self.p1, self.p2, self.p3)
    }

    /// The side with the given number: from `p1` to `p2`, from `p2` to `p3`,
    /// and, for any other number, from `p3` to `p1`.
    pub open spec fn side(self, i: int) -> Edge {
        if i == 0 {
            Edge { p1: self.p1, p2: self.p2 }
        } else if i == 1 {
            Edge { p1: self.p2, p2: self.p3 }
        } else {
            Edge { p1: self.p3, p2: self.p1 }
        }
    }

    /// `q` is one of the three vertices.
    pub open spec fn has_vertex(self, q: Point) -> bool {
        self.p1 == q || self.p2 == q || self.p3 == q
    }

    /// `q` lies inside the circumcircle or on it.
    pub open spec fn encircles(self, q: Point) -> bool {
        self.circumcenter.scaled_squared_dist(q) <= self.circumradius
    }

    /// Builds the triangle on three vertices and its circumcircle, whose
    /// center is equally far from the three. Collinear vertices have no
    /// circumcircle and are refused.
    pub fn new(p1: Point, p2: Point, p3: Point) -> (r: Result<Triangle, GeometryError>)
        requires
            p1.fits(),
            p2.fits(),
            p3.fits(),
        ensures
            r is Err <==> collinear(p1, p2, p3),
            r matches Err(e) ==> e == GeometryError::DegenerateTriangle,
            r matches Ok(t) ==> t == Triangle::of(p1, p2, p3) && t.wf(),
            r matches Ok(t) ==> t.circumcenter.scaled_squared_dist(p1) == t.circumradius
                && t.circumcenter.scaled_squared_dist(p2) == t.circumradius
                && t.circumcenter.scaled_squared_dist(p3) == t.circumradius,
    {
        let n1: i128 = p1.norm() as i128;
        let n2: i128 = p2.norm() as i128;
        let n3: i128 = p3.norm() as i128;
        let ay1: i128 = p3.y as i128 - p2.y as i128;
        let ay2: i128 = p1.y as i128 - p3.y as i128;
        let ay3: i128 = p2.y as i128 - p1.y as i128;
        let ax1: i128 = p3.x as i128 - p2.x as i128;
        let ax2: i128 = p1.x as i128 - p3.x as i128;
        let ax3: i128 = p2.x as i128 - p1.x as i128;
        proof {
            lemma_circumcenter_bounded(p1, p2, p3);
            lemma_terms_bounded(p1, p2, p3);
        }
        let det: i128 = (p1.x as i128) * ay1 + (p2.x as i128) * ay2 + (p3.x as i128) * ay3;
        if det == 0 {
            return Err(GeometryError::DegenerateTriangle);
        }
        let wx: i128 = n1 * ay1 + n2 * ay2 + n3 * ay3;
        let wy: i128 = n1 * ax1 + n2 * ax2 + n3 * ax3;
        let circumcenter = Center { x: wx, y: -wy, w: 2 * det };
        let circumradius = circumcenter.scaled_dist(&p1);
        let t = Triangle { p1, p2, p3, circumcenter, circumradius };
        proof {
            lemma_vertices_on_circumcircle(t);
        }
        Ok(t)
    }

    /// Tells whether `point` is one of the three vertices.
    pub fn has_point(&self, point: &Point) -> (r: bool)
        ensures
            r == self.has_vertex(*point),
    {
        self.p1 == *point || self.p2 == *point || self.p3 == *point
    }

    /// Tells whether `point` lies inside the circumcircle or on it: whether its
    /// squared distance to the circumcenter is at most the squared radius.
    pub fn has_point_circumcircle(&self, point: &Point) -> (r: bool)
        requires
            self.wf(),
            point.fits(),
        ensures
            r == self.encircles(*point),
    {
        proof {
            lemma_circumcenter_bounded(self.p1, self.p2, self.p3);
        }
        self.circumcenter.scaled_dist(point) <= self.circumradius
    }
}

/// The sides of the triangles of `ts`, three for each triangle, in the order
/// of the triangles.
pub open spec fn sides(ts: Seq<Triangle>) -> Seq<Edge> {
    Seq::new(3 * ts.len(), |i: int| ts[i / 3].side(i % 3))
}

/// A further triangle adds its three sides at the end.
pub proof fn lemma_sides_push(ts: Seq<Triangle>, t: Triangle)
    ensures
        sides(ts.push(t)) == sides(ts).push(t.side(0)).push(t.side(1)).push(t.side(2)),
{
    assert(sides(ts.push(t)) =~= sides(ts).push(t.side(0)).push(t.side(1)).push(t.side(2)));
}

/// Each product in the three determinants stays within the bound that the
/// reach of the points gives it.
proof fn lemma_terms_bounded(p1: Point, p2: Point, p3: Point)
    requires
        p1.fits(),
        p2.fits(),
        p3.fits(),
    ensures
        -AREA_MAX <= p1.x * (p3.y - p2.y) <= AREA_MAX,
        -AREA_MAX <= p2.x * (p1.y - p3.y) <= AREA_MAX,
        -AREA_MAX <= p3.x * (p2.y - p1.y) <= AREA_MAX,
        0 <= p1.squared_norm() <= AREA_MAX,
        0 <= p2.squared_norm() <= AREA_MAX,
        0 <= p3.squared_norm() <= AREA_MAX,
        -TERM_MAX <= p1.squared_norm() * (p3.y - p2.y) <= TERM_MAX,
        -TERM_MAX <= p2.squared_norm() * (p1.y - p3.y) <= TERM_MAX,
        -TERM_MAX <= p3.squared_norm() * (p2.y - p1.y) <= TERM_MAX,
        -TERM_MAX <= p1.squared_norm() * (p3.x - p2.x) <= TERM_MAX,
        -TERM_MAX <= p2.squared_norm() * (p1.x - p3.x) <= TERM_MAX,
        -TERM_MAX <= p3.squared_norm() * (p2.x - p1.x) <= TERM_MAX,
{
    lemma_product_bound(p1.x as int, p3.y - p2.y, 671_744, 1_343_488);
    lemma_product_bound(p2.x as int, p1.y - p3.y, 671_744, 1_343_488);
    lemma_product_bound(p3.x as int, p2.y - p1.y, 671_744, 1_343_488);
    lemma_square_bound(p1.x as int, 671_744);
    lemma_square_bound(p1.y as int, 671_744);
    lemma_square_bound(p2.x as int, 671_744);
    lemma_square_bound(p2.y as int, 671_744);
    lemma_square_bound(p3.x as int, 671_744);
    lemma_square_bound(p3.y as int, 671_744);
    lemma_product_bound(p1.squared_norm(), p3.y - p2.y, 902_480_003_072, 1_343_488);
    lemma_product_bound(p2.squared_norm(), p1.y - p3.y, 902_480_003_072, 1_343_488);
    lemma_product_bound(p3.squared_norm(), p2.y - p1.y, 902_480_003_072, 1_343_488);
    lemma_product_bound(p1.squared_norm(), p3.x - p2.x, 902_480_003_072, 1_343_488);
    lemma_product_bound(p2.squared_norm(), p1.x - p3.x, 902_480_003_072, 1_343_488);
    lemma_product_bound(p3.squared_norm(), p2.x - p1.x, 902_480_003_072, 1_343_488);
}

/// The circumcenter of points within reach has numerators and a denominator
/// that fit the machine's integers, and so has the scaled squared radius.
pub proof fn lemma_circumcenter_bounded(p1: Point, p2: Point, p3: Point)
    requires
        p1.fits(),
        p2.fits(),
        p3.fits(),
    ensures
        circumcenter_of(p1, p2, p3).bounded(),
        circumcenter_of(p1, p2, p3).x == weighted_x(p1, p2, p3),
        circumcenter_of(p1, p2, p3).y == -weighted_y(p1, p2, p3),
        circumcenter_of(p1, p2, p3).w == 2 * determinant(p1, p2, p3),
        Triangle::of(p1, p2, p3).circumradius == circumcenter_of(p1, p2, p3).scaled_squared_dist(
            p1,
        ),
{
    lemma_terms_bounded(p1, p2, p3);
    let c = circumcenter_of(p1, p2, p3);
    lemma_product_bound(c.w as int, p1.x as int, 5_414_880_018_432, 671_744);
    lemma_product_bound(c.w as int, p1.y as int, 5_414_880_018_432, 671_744);
    lemma_square_bound(c.w * p1.x - c.x, 7_274_826_326_203_170_816);
    lemma_square_bound(c.w * p1.y - c.y, 7_274_826_326_203_170_816);
}

/// The vertices of a well formed triangle are three different points.
pub proof fn lemma_vertices_differ(t: Triangle)
    requires
        t.wf(),
    ensures
        t.p1 != t.p2,
        t.p2 != t.p3,
        t.p3 != t.p1,
{
    let (a, b, c) = (t.p1, t.p2, t.p3);
    assert(a == b || b == c || c == a ==> a.x * (c.y - b.y) + b.x * (a.y - c.y) + c.x * (b.y
        - a.y) == 0) by (nonlinear_arith);
}

} // verus!
