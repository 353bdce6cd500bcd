use vstd::prelude::*;
use crate::edge::Edge;
use crate::emptiness::{empty_circles, lemma_delaunay, lemma_triangulation_succeeds};
use crate::enclosure::{
    all_coincide, bounding_box, bounds_of, lemma_bounding_box_on_grid, lemma_enclosing_fits,
};
use crate::error::GeometryError;
use crate::point::Point;
use crate::sequences::{lemma_filter_members, lemma_filter_step};
use crate::tally::{cancel_pairs, lemma_unpaired, unpaired};
use crate::triangle::{collinear, lemma_sides_push, sides, Triangle};

verus! {

/// The test that a triangle's circumcircle holds `p`, inside or on it.
pub open spec fn encircling(p: Point) -> spec_fn(Triangle) -> bool {
    |t: Triangle| t.encircles(p)
}

/// The test that `p` lies strictly outside a triangle's circumcircle.
pub open spec fn clear_of(p: Point) -> spec_fn(Triangle) -> bool {
    |t: Triangle| !t.encircles(p)
}

/// The test that a triangle has none of three points as a vertex.
pub open spec fn apart_from(s1: Point, s2: Point, s3: Point) -> spec_fn(Triangle) -> bool {
    |t: Triangle| !t.has_vertex(s1) && !t.has_vertex(s2) && !t.has_vertex(s3)
}

/// The boundary of the cavity that `p` opens in `work`: the sides of the
/// triangles whose circumcircle holds `p`, without those that two such
/// triangles share.
pub open spec fn cavity_boundary(work: Seq<Triangle>, p: Point) -> Seq<Edge> {
    unpaired(sides(work.filter(encircling(p))))
}

/// No edge of `boundary` lies on one line with `p`.
pub open spec fn spans_fan(boundary: Seq<Edge>, p: Point) -> bool {
    forall|k: int|
        0 <= k < boundary.len() ==> !collinear(
            (#[trigger] boundary[k]).p1,
            boundary[k].p2,
            p,
        )
}

/// The triangles that join each edge of `boundary` to `p`.
pub open spec fn fan(boundary: Seq<Edge>, p: Point) -> Seq<Triangle> {
    Seq::new(boundary.len(), |k: int| Triangle::of(boundary[k].p1, boundary[k].p2, p))
}

/// The working list after `p` has been inserted: the triangles whose
/// circumcircle does not hold `p`, in their order, followed by the fan that
/// fills the cavity. There is none if an edge of the cavity's boundary lies on
/// one line with `p`.
pub open spec fn inserted(work: Seq<Triangle>, p: Point) -> Option<Seq<Triangle>> {
    if spans_fan(cavity_boundary(work, p), p) {
        Some(work.filter(clear_of(p)) + fan(cavity_boundary(work, p), p))
    } else {
        None
    }
}

/// The working list after the points have been inserted one by one, in their
/// order.
pub open spec fn inserted_all(work: Seq<Triangle>, points: Seq<Point>) -> Option<Seq<Triangle>>
    decreases points.len(),
{
    if points.len() == 0 {
        Some(work)
    } else {
        match inserted_all(work, points.drop_last()) {
            Some(w) => inserted(w, points.last()),
            None => None,
        }
    }
}

/// The triangulation of `points` by incremental insertion into an enclosing
/// triangle, whose own triangles are dropped at the end.
pub open spec fn triangulation(points: Seq<Point>) -> Result<Seq<Triangle>, GeometryError> {
    if points.len() == 0 {
        Err(GeometryError::EmptyInput)
    } else {
        let (s1, s2, s3) = bounding_box(points).enclosing();
        if collinear(s1, s2, s3) {
            Err(GeometryError::DegenerateTriangle)
        } else {
            match inserted_all(seq![Triangle::of(s1, s2, s3)], points) {
                Some(w) => Ok(w.filter(apart_from(s1, s2, s3))),
                None => Err(GeometryError::DegenerateTriangle),
            }
        }
    }
}

/// Every triangle of the list is well formed.
pub open spec fn all_wf(ts: Seq<Triangle>) -> bool {
    forall|i: int| 0 <= i < ts.len() ==> (#[trigger] ts[i]).wf()
}

/// Inserts `p` into the working list: the triangles whose circumcircle holds
/// `p` leave, and the cavity they leave is filled with triangles from its
/// boundary to `p`.
pub fn insert_point(work: Vec<Triangle>, p: Point) -> (r: Result<Vec<Triangle>, GeometryError>)
    requires
        all_wf(work@),
        p.fits(),
    ensures
        r matches Ok(w) ==> inserted(work@, p) == Some(w@) && all_wf(w@),
        r matches Err(e) ==> inserted(work@, p).is_none() && e
            == GeometryError::DegenerateTriangle,
{
    let mut keep: Vec<Triangle> = Vec::new();
    let mut cavity: Vec<Edge> = Vec::new();
    let mut i: usize = 0;
    while i < work.len()
        invariant
            i <= work.len(),
            all_wf(work@),
            p.fits(),
            keep@ == work@.take(i as int).filter(clear_of(p)),
            cavity@ == sides(work@.take(i as int).filter(encircling(p))),
            forall|k: int|
                0 <= k < cavity.len() ==> (#[trigger] cavity[k]).p1.fits() && cavity[k].p2.fits(),
        decreases work.len() - i,
    {
        let t = work[i];
        proof {
            lemma_filter_step(work@, clear_of(p), i as int);
            lemma_filter_step(work@, encircling(p), i as int);
            lemma_sides_push(work@.take(i as int).filter(encircling(p)), t);
        }
        if t.has_point_circumcircle(&p) {
            cavity.push(Edge::new(t.p1, t.p2));
            cavity.push(Edge::new(t.p2, t.p3));
            cavity.push(Edge::new(t.p3, t.p1));
        } else {
            keep.push(t);
        }
        i += 1;
    }
    assert(work@.take(work.len() as int) =~= work@);
    let boundary = cancel_pairs(cavity.as_slice());
    proof {
        lemma_unpaired(cavity@);
        lemma_filter_members(work@, clear_of(p));
    }
    let ghost kept = keep@;
    let mut k: usize = 0;
    while k < boundary.len()
        invariant
            k <= boundary.len(),
            p.fits(),
            boundary@ == cavity_boundary(work@, p),
            forall|j: int|
                0 <= j < boundary.len() ==> (#[trigger] boundary[j]).p1.fits()
                    && boundary[j].p2.fits(),
            forall|j: int|
                0 <= j < k ==> !collinear((#[trigger] boundary[j]).p1, boundary[j].p2, p),
            keep@ == kept + fan(boundary@.take(k as int), p),
            kept == work@.filter(clear_of(p)),
            all_wf(keep@),
        decreases boundary.len() - k,
    {
        let e = boundary[k];
        match Triangle::new(e.p1, e.p2, p) {
            Ok(t) => {
                keep.push(t);
                proof {
                    assert(fan(boundary@.take(k + 1), p) =~= fan(boundary@.take(k as int), p).push(
                        t,
                    ));
                    assert(keep@ =~= kept + fan(boundary@.take(k + 1), p));
                }
            },
            Err(_) => {
                return Err(GeometryError::DegenerateTriangle);
            },
        }
        k += 1;
    }
    assert(boundary@.take(boundary.len() as int) =~= boundary@);
    Ok(keep)
}

/// Triangulates `points` by inserting them one by one, in their order, into a
/// triangle that encloses them all, and dropping at the end every triangle
/// that still has a vertex of the enclosing triangle.
///
/// No points at all are refused as `EmptyInput`. Points that all coincide
/// are refused as `DegenerateTriangle`: the triangle around them would have its
/// vertices on one line. Every other set of points is triangulated.
///
/// The triangles returned have the Delaunay property: no point lies strictly
/// inside the circumcircle of any of them. Every one of them is well formed and
/// has its vertices among the points, and the points inserted after its third
/// vertex do not even lie on its circumcircle.
pub fn delaunay(points: &[Point]) -> (r: Result<Vec<Triangle>, GeometryError>)
    requires
        forall|i: int| 0 <= i < points.len() ==> (#[trigger] points[i]).on_grid(),
    ensures
        r matches Ok(ts) ==> triangulation(points@) == Ok::<Seq<Triangle>, GeometryError>(ts@),
        r matches Err(e) ==> triangulation(points@) == Err::<Seq<Triangle>, GeometryError>(e),
        r == Err::<Vec<Triangle>, GeometryError>(GeometryError::EmptyInput) <==> points.len() == 0,
        r == Err::<Vec<Triangle>, GeometryError>(GeometryError::DegenerateTriangle)
            <==> points.len() > 0 && all_coincide(points@),
        r is Ok <==> points.len() > 0 && !all_coincide(points@),
        r matches Ok(ts) ==> empty_circles(ts@, points@),
        r matches Ok(ts) ==> forall|i: int|
            0 <= i < ts.len() ==> (#[trigger] ts[i]).wf() && built_on(ts[i], points@) && outlasts(
                ts[i],
                points@,
            ),
{
    proof {
        lemma_triangulation_succeeds(points@);
    }
    if points.len() == 0 {
        return Err(GeometryError::EmptyInput);
    }
    let b = bounds_of(points);
    proof {
        lemma_bounding_box_on_grid(points@);
    }
    let dx: i64 = b.max_x - b.min_x;
    let dy: i64 = b.max_y - b.min_y;
    let span: i64 = if dx > dy {
        dx
    } else {
        dy
    };
    let mid_x: i64 = b.min_x + dx / 2;
    let mid_y: i64 = b.min_y + dy / 2;
    let s1 = Point::new(mid_x - 20 * span, mid_y - span);
    let s2 = Point::new(mid_x, mid_y + 20 * span);
    let s3 = Point::new(mid_x + 20 * span, mid_y - span);
    assert((s1, s2, s3) == b.enclosing());
    let outer = match Triangle::new(s1, s2, s3) {
        Ok(t) => t,
        Err(_) => {
            return Err(GeometryError::DegenerateTriangle);
        },
    };
    let mut work: Vec<Triangle> = Vec::new();
    work.push(outer);
    assert(work@ =~= seq![outer]);
    let mut i: usize = 0;
    while i < points.len()
        invariant
            i <= points.len(),
            forall|j: int| 0 <= j < points.len() ==> (#[trigger] points[j]).on_grid(),
            (s1, s2, s3) == bounding_box(points@).enclosing(),
            !collinear(s1, s2, s3),
            outer == Triangle::of(s1, s2, s3),
            all_wf(work@),
            inserted_all(seq![outer], points@.take(i as int)) == Some(work@),
        decreases points.len() - i,
    {
        let p = points[i];
        proof {
            assert(points@.take(i + 1).drop_last() =~= points@.take(i as int));
            assert(points@.take(i + 1).last() == p);
            assert(p.on_grid());
        }
        let ghost before = work@;
        match insert_point(work, p) {
            Ok(w) => {
                work = w;
            },
            Err(e) => {
                proof {
                    assert(inserted(before, p).is_none());
                    assert(inserted_all(seq![outer], points@.take(i + 1)).is_none());
                    lemma_inserted_all_fails(seq![outer], points@, i + 1);
                    lemma_triangulation_succeeds(points@);
                }
                return Err(e);
            },
        }
        i += 1;
    }
    assert(points@.take(points.len() as int) =~= points@);
    let mut out: Vec<Triangle> = Vec::new();
    let mut k: usize = 0;
    while k < work.len()
        invariant
            k <= work.len(),
            out@ == work@.take(k as int).filter(apart_from(s1, s2, s3)),
        decreases work.len() - k,
    {
        let t = work[k];
        proof {
            lemma_filter_step(work@, apart_from(s1, s2, s3), k as int);
        }
        if !t.has_point(&s1) && !t.has_point(&s2) && !t.has_point(&s3) {
            out.push(t);
        }
        k += 1;
    }
    proof {
        assert(work@.take(work.len() as int) =~= work@);
        lemma_triangulation_sound(points@);
        lemma_delaunay(points@);
        assert(triangulation(points@).unwrap() == out@);
        assert forall|i: int| 0 <= i < out.len() implies (#[trigger] out[i]).wf() && built_on(
            out[i],
            points@,
        ) && outlasts(out[i], points@) by {
            assert(out[i] == triangulation(points@).unwrap()[i]);
        }
    }
    Ok(out)
}

/// Once the insertion of a point has failed, the insertion of any further
/// points fails too.
pub proof fn lemma_inserted_all_fails(work: Seq<Triangle>, points: Seq<Point>, n: int)
    requires
        0 <= n <= points.len(),
        inserted_all(work, points.take(n)).is_none(),
    ensures
        inserted_all(work, points).is_none(),
    decreases points.len() - n,
{
    if n < points.len() {
        assert(points.take(n + 1).drop_last() =~= points.take(n));
        lemma_inserted_all_fails(work, points, n + 1);
    } else {
        assert(points.take(n) =~= points);
    }
}

/// Every vertex of `t` is one of `points`.
pub open spec fn built_on(t: Triangle, points: Seq<Point>) -> bool {
    points.contains(t.p1) && points.contains(t.p2) && points.contains(t.p3)
}

/// The third vertex of `t` is one of `points`, and every point that comes
/// later in `points` lies strictly outside the circumcircle of `t`.
pub open spec fn outlasts(t: Triangle, points: Seq<Point>) -> bool {
    exists|c: int|
        0 <= c < points.len() && t.p3 == #[trigger] points[c] && forall|j: int|
            c < j < points.len() ==> !t.encircles(#[trigger] points[j])
}

/// `q` is a vertex of the enclosing triangle or one of `points`.
pub open spec fn known_vertex(q: Point, points: Seq<Point>, outer: Triangle) -> bool {
    outer.has_vertex(q) || points.contains(q)
}

/// What holds of every triangle of the working list once `points` have been
/// inserted into the enclosing triangle `outer`.
pub open spec fn sound(t: Triangle, points: Seq<Point>, outer: Triangle) -> bool {
    &&& t.wf()
    &&& known_vertex(t.p1, points, outer)
    &&& known_vertex(t.p2, points, outer)
    &&& known_vertex(t.p3, points, outer)
    &&& t == outer || outlasts(t, points)
}

/// One more point keeps sound what it does not encircle.
proof fn lemma_sound_survives(t: Triangle, points: Seq<Point>, outer: Triangle)
    requires
        points.len() > 0,
        sound(t, points.drop_last(), outer),
        !t.encircles(points.last()),
    ensures
        sound(t, points, outer),
{
    let front = points.drop_last();
    assert forall|q: Point| known_vertex(q, front, outer) implies known_vertex(
        q,
        points,
        outer,
    ) by {
        if front.contains(q) {
            let j = choose|j: int| 0 <= j < front.len() && front[j] == q;
            assert(points[j] == q);
        }
    }
    if t != outer {
        let c = choose|c: int|
            0 <= c < front.len() && t.p3 == #[trigger] front[c] && forall|j: int|
                c < j < front.len() ==> !t.encircles(#[trigger] front[j]);
        assert(t.p3 == points[c]);
        assert forall|j: int| c < j < points.len() implies !t.encircles(#[trigger] points[j]) by {
            if j < front.len() {
                assert(front[j] == points[j]);
            }
        }
    }
}

/// Every triangle of the working list is sound after each insertion.
pub proof fn lemma_working_list_sound(outer: Triangle, points: Seq<Point>)
    requires
        outer.wf(),
        forall|i: int| 0 <= i < points.len() ==> (#[trigger] points[i]).fits(),
        inserted_all(seq![outer], points).is_some(),
    ensures
        forall|i: int|
            0 <= i < inserted_all(seq![outer], points).unwrap().len() ==> sound(
                #[trigger] inserted_all(seq![outer], points).unwrap()[i],
                points,
                outer,
            ),
    decreases points.len(),
{
    let now = inserted_all(seq![outer], points).unwrap();
    if points.len() == 0 {
        assert(now[0] == outer);
    } else {
        let front = points.drop_last();
        let p = points.last();
        let before = inserted_all(seq![outer], front).unwrap();
        assert forall|i: int| 0 <= i < front.len() implies (#[trigger] front[i]).fits() by {
            assert(front[i] == points[i]);
        }
        lemma_working_list_sound(outer, front);
        let kept = before.filter(clear_of(p));
        let bad = before.filter(encircling(p));
        let boundary = cavity_boundary(before, p);
        assert(now == kept + fan(boundary, p));
        lemma_filter_members(before, clear_of(p));
        lemma_filter_members(before, encircling(p));
        lemma_unpaired(sides(bad));
        assert(points[points.len() - 1] == p);
        assert forall|i: int| 0 <= i < now.len() implies sound(#[trigger] now[i], points, outer) by {
            if i < kept.len() {
                let t = kept[i];
                assert(before.contains(t));
                let m = choose|m: int| 0 <= m < before.len() && before[m] == t;
                assert(sound(before[m], front, outer));
                lemma_sound_survives(t, points, outer);
            } else {
                let e = boundary[i - kept.len()];
                let t = Triangle::of(e.p1, e.p2, p);
                assert(now[i] == t);
                let n = choose|n: int| 0 <= n < sides(bad).len() && sides(bad)[n] == e;
                let b = bad[n / 3];
                assert(bad.contains(b));
                assert(before.contains(b));
                let m = choose|m: int| 0 <= m < before.len() && before[m] == b;
                assert(sound(before[m], front, outer));
                assert(e == b.side(n % 3));
                assert forall|q: Point| known_vertex(q, front, outer) implies known_vertex(
                    q,
                    points,
                    outer,
                ) by {
                    if front.contains(q) {
                        let j = choose|j: int| 0 <= j < front.len() && front[j] == q;
                        assert(points[j] == q);
                    }
                }
                assert(known_vertex(e.p1, points, outer));
                assert(known_vertex(e.p2, points, outer));
                assert(points.contains(p));
                assert(!collinear(e.p1, e.p2, p));
                assert(t.wf());
                assert(outlasts(t, points));
            }
        }
    }
}

/// What a triangulation of points of the grid is made of: every triangle is
/// well formed, has its vertices among the points, and has its third vertex
/// followed in the order of insertion only by points that lie strictly outside
/// its circumcircle.
pub proof fn lemma_triangulation_sound(points: Seq<Point>)
    requires
        forall|i: int| 0 <= i < points.len() ==> (#[trigger] points[i]).on_grid(),
        triangulation(points).is_ok(),
    ensures
        forall|i: int|
            0 <= i < triangulation(points).unwrap().len() ==> {
                let t = #[trigger] triangulation(points).unwrap()[i];
                t.wf() && built_on(t, points) && outlasts(t, points)
            },
{
    let (s1, s2, s3) = bounding_box(points).enclosing();
    let outer = Triangle::of(s1, s2, s3);
    let w = inserted_all(seq![outer], points).unwrap();
    let ts = triangulation(points).unwrap();
    lemma_enclosing_fits(points);
    lemma_working_list_sound(outer, points);
    lemma_filter_members(w, apart_from(s1, s2, s3));
    assert forall|i: int| 0 <= i < ts.len() implies {
        let t = #[trigger] ts[i];
        t.wf() && built_on(t, points) && outlasts(t, points)
    } by {
        let t = ts[i];
        assert(w.contains(t));
        let m = choose|m: int| 0 <= m < w.len() && w[m] == t;
        assert(sound(w[m], points, outer));
        assert(apart_from(s1, s2, s3)(t));
    }
}

} // verus!
