use vstd::prelude::*;
use crate::point::{Point, GRID_MAX};
use crate::power::Form;
use crate::triangle::{collinear, Triangle};

verus! {

/// The smaller of two integers.
pub open spec fn lesser(a: int, b: int) -> int {
    if a <= b {
        a
    } else {
        b
    }
}

/// The larger of two integers.
pub open spec fn greater(a: int, b: int) -> int {
    if a >= b {
        a
    } else {
        b
    }
}

/// An axis-parallel box.
pub struct Bounds {
    pub min_x: i64,
    pub min_y: i64,
    pub max_x: i64,
    pub max_y: i64,
}

/// The smallest axis-parallel box that holds all of `points`, which is meant
/// not to be empty.
pub open spec fn bounding_box(points: Seq<Point>) -> Bounds
    decreases points.len(),
{
    if points.len() <= 1 {
        Bounds {
            min_x: points[0].x,
            min_y: points[0].y,
            max_x: points[0].x,
            max_y: points[0].y,
        }
    } else {
        let b = bounding_box(points.drop_last());
        let p = points.last();
        Bounds {
            min_x: lesser(b.min_x as int, p.x as int) as i64,
            min_y: lesser(b.min_y as int, p.y as int) as i64,
            max_x: greater(b.max_x as int, p.x as int) as i64,
            max_y: greater(b.max_y as int, p.y as int) as i64,
        }
    }
}

impl Bounds {
    /// The larger of the box's width and height.
    pub open spec fn span(self) -> int {
        greater(self.max_x - self.min_x, self.max_y - self.min_y)
    }

    /// The `x` of the box's middle, rounded down.
    pub open spec fn mid_x(self) -> int {
        self.min_x + (self.max_x - self.min_x) / 2
    }

    /// The `y` of the box's middle, rounded down.
    pub open spec fn mid_y(self) -> int {
        self.min_y + (self.max_y - self.min_y) / 2
    }

    /// The vertices of the triangle that is put around the box: twenty spans
    /// to the left and to the right of the middle, one span below it, and
    /// twenty spans above it.
    pub open spec fn enclosing(self) -> (Point, Point, Point) {
        (
            Point {
                x: (self.mid_x() - 20 * self.span()) as i64,
                y: (self.mid_y() - self.span()) as i64,
            },
            Point { x: self.mid_x() as i64, y: (self.mid_y() + 20 * self.span()) as i64 },
            Point {
                x: (self.mid_x() + 20 * self.span()) as i64,
                y: (self.mid_y() - self.span()) as i64,
            },
        )
    }
}

/// The bounding box of points of the grid lies within the grid.
pub proof fn lemma_bounding_box_on_grid(points: Seq<Point>)
    requires
        points.len() > 0,
        forall|i: int| 0 <= i < points.len() ==> (#[trigger] points[i]).on_grid(),
    ensures
        -GRID_MAX <= bounding_box(points).min_x <= bounding_box(points).max_x <= GRID_MAX,
        -GRID_MAX <= bounding_box(points).min_y <= bounding_box(points).max_y <= GRID_MAX,
    decreases points.len(),
{
    if points.len() > 1 {
        let front = points.drop_last();
        assert forall|i: int| 0 <= i < front.len() implies (#[trigger] front[i]).on_grid() by {
            assert(front[i] == points[i]);
        }
        lemma_bounding_box_on_grid(front);
        assert(points.last().on_grid());
    } else {
        assert(points[0].on_grid());
    }
}

/// Computes the smallest axis-parallel box that holds all of `points`: every
/// point lies within it, and each of its sides passes through a point.
pub fn bounds_of(points: &[Point]) -> (b: Bounds)
    requires
        points.len() > 0,
    ensures
        b == bounding_box(points@),
        forall|i: int|
            0 <= i < points.len() ==> b.min_x <= (#[trigger] points[i]).x <= b.max_x && b.min_y
                <= points[i].y <= b.max_y,
        exists|i: int| 0 <= i < points.len() && (#[trigger] points[i]).x == b.min_x,
        exists|i: int| 0 <= i < points.len() && (#[trigger] points[i]).x == b.max_x,
        exists|i: int| 0 <= i < points.len() && (#[trigger] points[i]).y == b.min_y,
        exists|i: int| 0 <= i < points.len() && (#[trigger] points[i]).y == b.max_y,
{
    let first = points[0];
    let mut b = Bounds { min_x: first.x, min_y: first.y, max_x: first.x, max_y: first.y };
    let mut i: usize = 1;
    assert(points@.take(1).len() == 1 && points@.take(1)[0] == points@[0]);
    while i < points.len()
        invariant
            1 <= i <= points.len(),
            b == bounding_box(points@.take(i as int)),
        decreases points.len() - i,
    {
        let p = points[i];
        proof {
            assert(points@.take(i + 1).drop_last() =~= points@.take(i as int));
            assert(points@.take(i + 1).last() == p);
        }
        if p.x < b.min_x {
            b.min_x = p.x;
        }
        if p.y < b.min_y {
            b.min_y = p.y;
        }
        if p.x > b.max_x {
            b.max_x = p.x;
        }
        if p.y > b.max_y {
            b.max_y = p.y;
        }
        i += 1;
    }
    proof {
        assert(points@.take(points.len() as int) =~= points@);
        lemma_bounding_box_spread(points@);
        assert forall|i: int| 0 <= i < points.len() implies b.min_x <= (#[trigger] points[i]).x
            <= b.max_x && b.min_y <= points[i].y <= b.max_y by {
            lemma_bounding_box_holds(points@, i);
        }
    }
    b
}

/// The enclosing triangle of points of the grid has its vertices within
/// reach.
pub proof fn lemma_enclosing_fits(points: Seq<Point>)
    requires
        points.len() > 0,
        forall|i: int| 0 <= i < points.len() ==> (#[trigger] points[i]).on_grid(),
    ensures
        bounding_box(points).enclosing().0.fits(),
        bounding_box(points).enclosing().1.fits(),
        bounding_box(points).enclosing().2.fits(),
{
    lemma_bounding_box_on_grid(points);
}

/// The form of the line through `u` and `v`, positive to the right of the
/// way from `u` to `v`.
pub open spec fn line_form(u: Point, v: Point) -> Form {
    Form {
        a: 0,
        b: v.y - u.y,
        c: -(v.x - u.x),
        d: (v.x - u.x) * u.y - (v.y - u.y) * u.x,
    }
}

/// `q` lies strictly to the right of each side of `outer`, which is inside it
/// when its vertices are given clockwise.
pub open spec fn enclosed(q: Point, outer: Triangle) -> bool {
    &&& line_form(outer.p1, outer.p2).at(q) > 0
    &&& line_form(outer.p2, outer.p3).at(q) > 0
    &&& line_form(outer.p3, outer.p1).at(q) > 0
}

/// The value of a line's form is a cross product.
pub proof fn lemma_line_form(u: Point, v: Point, q: Point)
    ensures
        line_form(u, v).at(q) == (v.y - u.y) * (q.x - u.x) - (v.x - u.x) * (q.y - u.y),
        line_form(u, v).at(u) == 0,
        line_form(u, v).at(v) == 0,
{
    let f = line_form(u, v);
    let dx = v.x - u.x;
    let dy = v.y - u.y;
    assert(f.a * q.squared_norm() == 0 && f.a * u.squared_norm() == 0 && f.a * v.squared_norm()
        == 0) by (nonlinear_arith)
        requires
            f.a == 0,
    ;
    assert(dy * (q.x - u.x) == dy * q.x - dy * u.x) by (nonlinear_arith);
    assert(dx * (q.y - u.y) == dx * q.y - dx * u.y) by (nonlinear_arith);
    assert((-dx) * q.y == -(dx * q.y)) by (nonlinear_arith);
    assert(dy * (v.x - u.x) == dy * v.x - dy * u.x) by (nonlinear_arith);
    assert(dx * (v.y - u.y) == dx * v.y - dx * u.y) by (nonlinear_arith);
    assert((-dx) * v.y == -(dx * v.y)) by (nonlinear_arith);
    assert((-dx) * u.y == -(dx * u.y)) by (nonlinear_arith);
    assert(dy * dx == dx * dy) by (nonlinear_arith);
}

/// Every point lies within the bounding box of the points.
pub proof fn lemma_bounding_box_holds(points: Seq<Point>, i: int)
    requires
        0 <= i < points.len(),
    ensures
        bounding_box(points).min_x <= points[i].x <= bounding_box(points).max_x,
        bounding_box(points).min_y <= points[i].y <= bounding_box(points).max_y,
    decreases points.len(),
{
    if points.len() > 1 {
        let front = points.drop_last();
        let b = bounding_box(front);
        lemma_bounding_box_spread(front);
        if i < front.len() {
            lemma_bounding_box_holds(front, i);
            assert(front[i] == points[i]);
        }
    }
}

/// The sides of a bounding box are the coordinates of some of the points, so
/// they are as small as those.
pub proof fn lemma_bounding_box_spread(points: Seq<Point>)
    requires
        points.len() > 0,
    ensures
        bounding_box(points).min_x <= bounding_box(points).max_x,
        bounding_box(points).min_y <= bounding_box(points).max_y,
        exists|i: int| 0 <= i < points.len() && (#[trigger] points[i]).x == bounding_box(points).min_x,
        exists|i: int| 0 <= i < points.len() && (#[trigger] points[i]).x == bounding_box(points).max_x,
        exists|i: int| 0 <= i < points.len() && (#[trigger] points[i]).y == bounding_box(points).min_y,
        exists|i: int| 0 <= i < points.len() && (#[trigger] points[i]).y == bounding_box(points).max_y,
    decreases points.len(),
{
    let b = bounding_box(points);
    if points.len() > 1 {
        let front = points.drop_last();
        let bf = bounding_box(front);
        let last = points.len() - 1;
        lemma_bounding_box_spread(front);
        let i1 = choose|i: int| 0 <= i < front.len() && (#[trigger] front[i]).x == bf.min_x;
        let i2 = choose|i: int| 0 <= i < front.len() && (#[trigger] front[i]).x == bf.max_x;
        let i3 = choose|i: int| 0 <= i < front.len() && (#[trigger] front[i]).y == bf.min_y;
        let i4 = choose|i: int| 0 <= i < front.len() && (#[trigger] front[i]).y == bf.max_y;
        assert(points[i1] == front[i1] && points[i2] == front[i2] && points[i3] == front[i3]
            && points[i4] == front[i4]);
        assert(points[if b.min_x == bf.min_x { i1 } else { last }].x == b.min_x);
        assert(points[if b.max_x == bf.max_x { i2 } else { last }].x == b.max_x);
        assert(points[if b.min_y == bf.min_y { i3 } else { last }].y == b.min_y);
        assert(points[if b.max_y == bf.max_y { i4 } else { last }].y == b.max_y);
    } else {
        assert(points[0].x == b.min_x);
    }
}

/// A point of a box on the grid lies strictly inside the triangle that is
/// put around the box, unless the box is a single point.
pub proof fn lemma_box_enclosed(b: Bounds, q: Point)
    requires
        -GRID_MAX <= b.min_x <= q.x <= b.max_x <= GRID_MAX,
        -GRID_MAX <= b.min_y <= q.y <= b.max_y <= GRID_MAX,
        b.span() > 0,
    ensures
        enclosed(q, Triangle::of(b.enclosing().0, b.enclosing().1, b.enclosing().2)),
{
    let (s1, s2, s3) = b.enclosing();
    let d = b.span();
    let ex = q.x - b.mid_x();
    let ey = q.y - b.mid_y();
    assert(-d <= ex <= d);
    assert(-d < ey <= d);
    lemma_line_form(s1, s2, q);
    lemma_line_form(s2, s3, q);
    lemma_line_form(s3, s1, q);
    assert(s2.y - s1.y == 21 * d && s2.x - s1.x == 20 * d);
    assert(q.x - s1.x == ex + 20 * d && q.y - s1.y == ey + d);
    assert((21 * d) * (ex + 20 * d) - (20 * d) * (ey + d) == d * (21 * ex - 20 * ey + 400 * d))
        by (nonlinear_arith);
    assert(d * (21 * ex - 20 * ey + 400 * d) > 0) by (nonlinear_arith)
        requires
            d > 0,
            21 * ex - 20 * ey + 400 * d > 0,
    ;
    assert(s3.y - s2.y == -21 * d && s3.x - s2.x == 20 * d);
    assert(q.x - s2.x == ex && q.y - s2.y == ey - 20 * d);
    assert((-21 * d) * ex - (20 * d) * (ey - 20 * d) == d * (400 * d - 21 * ex - 20 * ey))
        by (nonlinear_arith);
    assert(d * (400 * d - 21 * ex - 20 * ey) > 0) by (nonlinear_arith)
        requires
            d > 0,
            400 * d - 21 * ex - 20 * ey > 0,
    ;
    assert(s1.y - s3.y == 0 && s1.x - s3.x == -40 * d);
    assert(q.y - s3.y == ey + d);
    assert(0 * (q.x - s3.x) - (-40 * d) * (ey + d) == d * (40 * (ey + d))) by (nonlinear_arith);
    assert(d * (40 * (ey + d)) > 0) by (nonlinear_arith)
        requires
            d > 0,
            ey + d > 0,
    ;
}

/// Every point of a set on the grid lies strictly inside the triangle that is
/// put around the set, unless all its points coincide.
pub proof fn lemma_points_enclosed(points: Seq<Point>, i: int)
    requires
        forall|j: int| 0 <= j < points.len() ==> (#[trigger] points[j]).on_grid(),
        0 <= i < points.len(),
        bounding_box(points).span() > 0,
    ensures
        enclosed(
            points[i],
            Triangle::of(
                bounding_box(points).enclosing().0,
                bounding_box(points).enclosing().1,
                bounding_box(points).enclosing().2,
            ),
        ),
{
    lemma_bounding_box_on_grid(points);
    lemma_bounding_box_holds(points, i);
    lemma_box_enclosed(bounding_box(points), points[i]);
}

/// The points coincide: the bounding box of the points is a single point.
pub open spec fn all_coincide(points: Seq<Point>) -> bool {
    forall|i: int| 0 <= i < points.len() ==> #[trigger] points[i] == points[0]
}

/// The bounding box is a single point exactly when the points coincide.
pub proof fn lemma_span_of_coinciding(points: Seq<Point>)
    requires
        points.len() > 0,
    ensures
        bounding_box(points).span() >= 0,
        bounding_box(points).span() == 0 <==> all_coincide(points),
{
    let b = bounding_box(points);
    lemma_bounding_box_spread(points);
    if b.span() == 0 {
        assert forall|i: int| 0 <= i < points.len() implies #[trigger] points[i] == points[0] by {
            lemma_bounding_box_holds(points, i);
            lemma_bounding_box_holds(points, 0);
        }
    }
    if all_coincide(points) {
        let i1 = choose|i: int| 0 <= i < points.len() && (#[trigger] points[i]).x == b.min_x;
        let i2 = choose|i: int| 0 <= i < points.len() && (#[trigger] points[i]).x == b.max_x;
        let i3 = choose|i: int| 0 <= i < points.len() && (#[trigger] points[i]).y == b.min_y;
        let i4 = choose|i: int| 0 <= i < points.len() && (#[trigger] points[i]).y == b.max_y;
        assert(points[i1] == points[0] && points[i2] == points[0] && points[i3] == points[0]
            && points[i4] == points[0]);
    }
}

/// The triangle put around a box has its vertices on one line exactly when
/// the box is a single point.
pub proof fn lemma_enclosing_proper(b: Bounds)
    requires
        -GRID_MAX <= b.min_x <= b.max_x <= GRID_MAX,
        -GRID_MAX <= b.min_y <= b.max_y <= GRID_MAX,
    ensures
        collinear(b.enclosing().0, b.enclosing().1, b.enclosing().2) <==> b.span() == 0,
{
    let (s1, s2, s3) = b.enclosing();
    let d = b.span();
    assert(s3.y - s2.y == -21 * d && s1.y - s3.y == 0 && s2.y - s1.y == 21 * d);
    assert(s3.x - s1.x == 40 * d);
    assert(s1.x * (s3.y - s2.y) + s2.x * (s1.y - s3.y) + s3.x * (s2.y - s1.y) == 840 * (d * d))
        by (nonlinear_arith)
        requires
            s3.y - s2.y == -21 * d,
            s1.y - s3.y == 0,
            s2.y - s1.y == 21 * d,
            s3.x - s1.x == 40 * d,
    ;
    assert(d * d == 0 <==> d == 0) by (nonlinear_arith);
}

} // verus!
