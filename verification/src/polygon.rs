use vstd::prelude::*;
use crate::bounds::lemma_product_bound;
use crate::point::Point;
use crate::sequences::lemma_filter_step;
use crate::triangle::Triangle;

verus! {

/// The index of the vertex before vertex `i` on the closed outline.
pub open spec fn before(shape: Seq<Point>, i: int) -> int {
    if i == 0 {
        shape.len() - 1
    } else {
        i - 1
    }
}

/// Exactly one of `a` and `b` lies above the horizontal line through `q`.
pub open spec fn straddles(q: Point, a: Point, b: Point) -> bool {
    (a.y > q.y) != (b.y > q.y)
}

/// The cross product of `q - a` and `b - a`. It is zero when `q` lies on the
/// line through `a` and `b`, and its sign tells the side otherwise.
pub open spec fn slope(q: Point, a: Point, b: Point) -> int {
    (q.x - a.x) * (b.y - a.y) - (b.x - a.x) * (q.y - a.y)
}

/// `q` is vertex `i` of the outline or lies on the edge that ends there.
pub open spec fn touches(q: Point, shape: Seq<Point>, i: int) -> bool {
    let a = shape[i];
    let b = shape[before(shape, i)];
    q == a || (straddles(q, a, b) && slope(q, a, b) == 0)
}

/// The horizontal ray from `q` crosses the edge that ends at vertex `i`.
pub open spec fn crosses(q: Point, shape: Seq<Point>, i: int) -> bool {
    let a = shape[i];
    let b = shape[before(shape, i)];
    straddles(q, a, b) && ((slope(q, a, b) < 0) != (b.y < a.y))
}

/// `q` lies on the outline as far as the first `n` edges tell.
pub open spec fn on_outline(q: Point, shape: Seq<Point>, n: int) -> bool {
    exists|i: int| 0 <= i < n && touches(q, shape, i)
}

/// How many of the first `n` edges the ray from `q` crosses.
pub open spec fn crossings(q: Point, shape: Seq<Point>, n: int) -> nat
    decreases n,
{
    if n <= 0 {
        0
    } else {
        crossings(q, shape, n - 1) + if crosses(q, shape, n - 1) {
            1nat
        } else {
            0nat
        }
    }
}

/// `q` lies inside the outline or on it: it is a vertex, or lies on an edge
/// that straddles its height, or a ray from it crosses the outline an odd
/// number of times.
pub open spec fn inside(q: Point, shape: Seq<Point>) -> bool {
    on_outline(q, shape, shape.len() as int) || crossings(q, shape, shape.len() as int) % 2 == 1
}

/// Tells whether `point` lies inside the closed outline `shape` or on it, by
/// casting a ray. The outline is a simple polygon, given by its vertices in
/// order. Nothing lies inside an outline without vertices.
pub fn point_inside_shape(point: &Point, shape: &[Point]) -> (r: bool)
    requires
        point.fits(),
        forall|i: int| 0 <= i < shape.len() ==> (#[trigger] shape[i]).fits(),
    ensures
        r == inside(*point, shape@),
{
    let n = shape.len();
    if n == 0 {
        return false;
    }
    let q = *point;
    let mut odd = false;
    let mut j: usize = n - 1;
    let mut i: usize = 0;
    while i < n
        invariant
            n == shape.len(),
            n > 0,
            i <= n,
            j as int == before(shape@, i as int),
            q == *point,
            q.fits(),
            forall|k: int| 0 <= k < shape.len() ==> (#[trigger] shape[k]).fits(),
            !on_outline(q, shape@, i as int),
            odd == (crossings(q, shape@, i as int) % 2 == 1),
        decreases n - i,
    {
        let a = shape[i];
        let b = shape[j];
        if q == a {
            assert(touches(q, shape@, i as int));
            return true;
        }
        if (a.y > q.y) != (b.y > q.y) {
            proof {
                lemma_product_bound(q.x - a.x, b.y - a.y, 1_343_488, 1_343_488);
                lemma_product_bound(b.x - a.x, q.y - a.y, 1_343_488, 1_343_488);
            }
            let s: i64 = (q.x - a.x) * (b.y - a.y) - (b.x - a.x) * (q.y - a.y);
            if s == 0 {
                assert(touches(q, shape@, i as int));
                return true;
            }
            if (s < 0) != (b.y < a.y) {
                odd = !odd;
            }
        }
        assert(!touches(q, shape@, i as int));
        j = i;
        i += 1;
    }
    odd
}

/// A vertex of the outline lies inside it.
pub proof fn lemma_vertex_is_inside(shape: Seq<Point>, i: int)
    requires
        0 <= i < shape.len(),
    ensures
        inside(shape[i], shape),
{
    assert(touches(shape[i], shape, i));
}

/// A point of an edge that is not horizontal lies inside the outline, if it
/// is not higher than both ends and not lower than both: `q` lies on the line
/// through the ends of the edge that ends at vertex `i`, and one end is above
/// it while the other is not.
pub proof fn lemma_edge_point_is_inside(q: Point, shape: Seq<Point>, i: int)
    requires
        0 <= i < shape.len(),
        straddles(q, shape[i], shape[before(shape, i)]),
        slope(q, shape[i], shape[before(shape, i)]) == 0,
    ensures
        inside(q, shape),
{
    assert(touches(q, shape, i));
}

/// The midpoint of an edge that is not horizontal lies inside the outline.
pub proof fn lemma_midpoint_is_inside(q: Point, shape: Seq<Point>, i: int)
    requires
        0 <= i < shape.len(),
        2 * q.x == shape[i].x + shape[before(shape, i)].x,
        2 * q.y == shape[i].y + shape[before(shape, i)].y,
        shape[i].y != shape[before(shape, i)].y,
    ensures
        inside(q, shape),
{
    let a = shape[i];
    let b = shape[before(shape, i)];
    assert(slope(q, a, b) == 0) by (nonlinear_arith)
        requires
            2 * q.x == a.x + b.x,
            2 * q.y == a.y + b.y,
            slope(q, a, b) == (q.x - a.x) * (b.y - a.y) - (b.x - a.x) * (q.y - a.y),
    ;
    lemma_edge_point_is_inside(q, shape, i);
}

/// The sum of the vertices of `t`: three times its centroid.
pub open spec fn tripled_centroid(t: Triangle) -> Point {
    Point { x: (t.p1.x + t.p2.x + t.p3.x) as i64, y: (t.p1.y + t.p2.y + t.p3.y) as i64 }
}

/// The outline enlarged three times about the origin.
pub open spec fn tripled(shape: Seq<Point>) -> Seq<Point> {
    Seq::new(shape.len(), |i: int| Point { x: (3 * shape[i].x) as i64, y: (3 * shape[i].y) as i64 })
}

/// The test that a triangle's centroid lies inside the outline or on it. The
/// centroid of a triangle of grid points need not be a grid point, so the test
/// is made three times enlarged, where it is one.
pub open spec fn centroid_within(shape: Seq<Point>) -> spec_fn(Triangle) -> bool {
    |t: Triangle| inside(tripled_centroid(t), tripled(shape))
}

/// Keeps the triangles whose centroid lies inside the outline `shape` or on
/// it, in their order. This restricts a triangulation of an outline's vertices
/// to the outline's interior.
pub fn triangles_within(triangles: &[Triangle], shape: &[Point]) -> (kept: Vec<Triangle>)
    requires
        forall|i: int|
            0 <= i < triangles.len() ==> (#[trigger] triangles[i]).p1.on_grid()
                && triangles[i].p2.on_grid() && triangles[i].p3.on_grid(),
        forall|i: int| 0 <= i < shape.len() ==> (#[trigger] shape[i]).on_grid(),
    ensures
        kept@ == triangles@.filter(centroid_within(shape@)),
{
    let mut enlarged: Vec<Point> = Vec::new();
    let mut i: usize = 0;
    while i < shape.len()
        invariant
            i <= shape.len(),
            forall|k: int| 0 <= k < shape.len() ==> (#[trigger] shape[k]).on_grid(),
            enlarged@ == tripled(shape@).take(i as int),
        decreases shape.len() - i,
    {
        let p = shape[i];
        assert(p.on_grid());
        enlarged.push(Point::new(3 * p.x, 3 * p.y));
        assert(enlarged@ =~= tripled(shape@).take(i + 1));
        i += 1;
    }
    assert(enlarged@ =~= tripled(shape@));
    let mut kept: Vec<Triangle> = Vec::new();
    let mut k: usize = 0;
    while k < triangles.len()
        invariant
            k <= triangles.len(),
            forall|j: int|
                0 <= j < triangles.len() ==> (#[trigger] triangles[j]).p1.on_grid()
                    && triangles[j].p2.on_grid() && triangles[j].p3.on_grid(),
            forall|j: int| 0 <= j < shape.len() ==> (#[trigger] shape[j]).on_grid(),
            enlarged@ == tripled(shape@),
            kept@ == triangles@.take(k as int).filter(centroid_within(shape@)),
        decreases triangles.len() - k,
    {
        let t = triangles[k];
        proof {
            lemma_filter_step(triangles@, centroid_within(shape@), k as int);
            assert(t.p1.on_grid() && t.p2.on_grid() && t.p3.on_grid());
            assert forall|j: int| 0 <= j < enlarged.len() implies (#[trigger] enlarged[j]).fits() by {
                assert(shape[j].on_grid());
            }
        }
        let c = Point::new(t.p1.x + t.p2.x + t.p3.x, t.p1.y + t.p2.y + t.p3.y);
        if point_inside_shape(&c, enlarged.as_slice()) {
            kept.push(t);
        }
        k += 1;
    }
    assert(triangles@.take(triangles.len() as int) =~= triangles@);
    kept
}

} // verus!
