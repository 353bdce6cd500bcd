use vstd::prelude::*;
use crate::enclosure::{
    all_coincide, bounding_box, enclosed, lemma_bounding_box_on_grid, lemma_enclosing_fits,
    lemma_enclosing_proper, lemma_line_form, lemma_points_enclosed, lemma_span_of_coinciding,
    line_form,
};
use crate::error::GeometryError;
use crate::pairing::{
    evenly_shared, lemma_insertion_keeps_sharing, lemma_outer_alone, lemma_sides_split, on_hull,
};
use crate::parity::{lemma_occurrences_total, same_as};
use crate::point::Point;
use crate::power::{
    circle_of, lemma_circle_sign, lemma_circle_through_vertices, lemma_common_chord,
    lemma_line_through_two, lemma_pencil, power, Form,
};
use crate::sequences::lemma_filter_members;
use crate::tally::{lemma_occurrences_positive, lemma_unpaired, occurrences};
use crate::triangle::{collinear, lemma_vertices_differ, sides, Triangle};
use crate::triangulator::{
    all_wf, apart_from, cavity_boundary, clear_of, encircling, fan, inserted, inserted_all,
    lemma_working_list_sound, sound, spans_fan, triangulation,
};

verus! {

/// None of the points `pts` lies strictly inside the circumcircle of any of
/// the triangles `w`.
pub open spec fn empty_circles(w: Seq<Triangle>, pts: Seq<Point>) -> bool {
    forall|i: int, j: int|
        0 <= i < w.len() && 0 <= j < pts.len() ==> power(#[trigger] w[i], #[trigger] pts[j]) >= 0
}

/// The circumcircle of a triangle of a cavity's fan holds no point that the
/// circumcircles before the insertion did not hold. The triangle stands on an
/// edge of the cavity's boundary: a side of a triangle whose circumcircle holds
/// the new point, and either a side of the enclosing triangle too, or of a
/// triangle whose circumcircle does not hold the new point.
proof fn lemma_fan_circle_empty(
    w: Seq<Triangle>,
    p: Point,
    outer: Triangle,
    k: int,
    q: Point,
)
    requires
        all_wf(w),
        p.fits(),
        evenly_shared(w, outer),
        inserted(w, p).is_some(),
        enclosed(p, outer),
        enclosed(q, outer),
        forall|i: int| 0 <= i < w.len() ==> power(#[trigger] w[i], q) >= 0,
        0 <= k < cavity_boundary(w, p).len(),
    ensures
        power(fan(cavity_boundary(w, p), p)[k], q) >= 0,
        fan(cavity_boundary(w, p), p)[k].wf(),
{
    let bad = w.filter(encircling(p));
    let kept = w.filter(clear_of(p));
    let cavity = sides(bad);
    let boundary = cavity_boundary(w, p);
    let e = boundary[k];
    let n = fan(boundary, p)[k];
    lemma_unpaired(cavity);
    lemma_filter_members(w, encircling(p));
    lemma_filter_members(w, clear_of(p));
    // The triangle of the cavity that has the edge as a side.
    let i1 = choose|i: int| 0 <= i < cavity.len() && cavity[i] == e;
    let t1 = bad[i1 / 3];
    assert(bad.contains(t1));
    assert(w.contains(t1));
    let m1 = choose|m: int| 0 <= m < w.len() && w[m] == t1;
    assert(w[m1].wf());
    assert(encircling(p)(t1));
    assert(e == t1.side(i1 % 3));
    assert(!collinear(e.p1, e.p2, p));
    assert(n == Triangle::of(e.p1, e.p2, p));
    assert(n.wf());
    lemma_circle_through_vertices(t1);
    lemma_circle_through_vertices(n);
    lemma_circle_sign(t1, p);
    lemma_circle_sign(t1, q);
    lemma_circle_sign(n, q);
    assert(power(w[m1], q) >= 0);
    let h2: Form = if on_hull(e, outer) {
        if e.same(outer.side(0)) {
            lemma_line_form(outer.p1, outer.p2, p);
            lemma_line_form(outer.p1, outer.p2, q);
            line_form(outer.p1, outer.p2)
        } else if e.same(outer.side(1)) {
            lemma_line_form(outer.p2, outer.p3, p);
            lemma_line_form(outer.p2, outer.p3, q);
            line_form(outer.p2, outer.p3)
        } else {
            lemma_line_form(outer.p3, outer.p1, p);
            lemma_line_form(outer.p3, outer.p1, q);
            line_form(outer.p3, outer.p1)
        }
    } else {
        // The edge is a side of an even number of triangles and of an odd
        // number of those of the cavity, so of one outside the cavity at least.
        assert(occurrences(cavity, e) % 2 == 1) by {
            assert(boundary[k].same(e));
        }
        assert(occurrences(sides(w), e) % 2 == 0);
        lemma_sides_split(w, p, same_as(e));
        lemma_occurrences_total(sides(w), e);
        lemma_occurrences_total(cavity, e);
        lemma_occurrences_total(sides(kept), e);
        assert(occurrences(sides(kept), e) > 0);
        lemma_occurrences_positive(sides(kept), e);
        let i2 = choose|i: int| 0 <= i < sides(kept).len() && (#[trigger] sides(kept)[i]).same(e);
        let t2 = kept[i2 / 3];
        assert(kept.contains(t2));
        assert(w.contains(t2));
        let m2 = choose|m: int| 0 <= m < w.len() && w[m] == t2;
        assert(w[m2].wf());
        assert(clear_of(p)(t2));
        assert(t2.side(i2 % 3).same(e));
        lemma_circle_through_vertices(t2);
        lemma_circle_sign(t2, p);
        lemma_circle_sign(t2, q);
        assert(power(w[m2], q) >= 0);
        circle_of(t2)
    };
    lemma_pencil(circle_of(t1), h2, circle_of(n), e.p1, e.p2, p, q);
}

/// Inserting a point keeps the circumcircles empty: after the insertion none
/// of the points inserted so far lies strictly inside a circumcircle.
pub proof fn lemma_insertion_keeps_circles_empty(
    w: Seq<Triangle>,
    front: Seq<Point>,
    p: Point,
    outer: Triangle,
)
    requires
        all_wf(w),
        p.fits(),
        evenly_shared(w, outer),
        empty_circles(w, front),
        inserted(w, p).is_some(),
        enclosed(p, outer),
        forall|j: int| 0 <= j < front.len() ==> enclosed(#[trigger] front[j], outer),
    ensures
        empty_circles(inserted(w, p).unwrap(), front.push(p)),
{
    let after = inserted(w, p).unwrap();
    let kept = w.filter(clear_of(p));
    let boundary = cavity_boundary(w, p);
    let pts = front.push(p);
    lemma_filter_members(w, clear_of(p));
    assert forall|i: int, j: int| 0 <= i < after.len() && 0 <= j < pts.len() implies power(
        #[trigger] after[i],
        #[trigger] pts[j],
    ) >= 0 by {
        let q = pts[j];
        if i < kept.len() {
            let t = kept[i];
            assert(after[i] == t);
            assert(w.contains(t));
            let m = choose|m: int| 0 <= m < w.len() && w[m] == t;
            if j < front.len() {
                assert(power(w[m], front[j]) >= 0);
            } else {
                assert(clear_of(p)(t));
            }
        } else {
            let k = i - kept.len();
            assert(after[i] == fan(boundary, p)[k]);
            if j < front.len() {
                assert forall|m: int| 0 <= m < w.len() implies power(#[trigger] w[m], q) >= 0 by {
                    assert(power(w[m], front[j]) >= 0);
                }
                lemma_fan_circle_empty(w, p, outer, k, q);
            } else {
                let e = boundary[k];
                lemma_unpaired(sides(w.filter(encircling(p))));
                lemma_filter_members(w, encircling(p));
                let cavity = sides(w.filter(encircling(p)));
                let i1 = choose|i: int| 0 <= i < cavity.len() && cavity[i] == e;
                let t1 = w.filter(encircling(p))[i1 / 3];
                assert(w.filter(encircling(p)).contains(t1));
                assert(w.contains(t1));
                let m1 = choose|m: int| 0 <= m < w.len() && w[m] == t1;
                assert(w[m1].wf());
                assert(e == t1.side(i1 % 3));
                let n = fan(boundary, p)[k];
                assert(n.wf());
                lemma_circle_through_vertices(n);
                lemma_circle_sign(n, p);
            }
        }
    }
}

/// After each insertion every edge is evenly shared and every circumcircle is
/// empty of the points inserted so far.
pub proof fn lemma_working_list_delaunay(outer: Triangle, points: Seq<Point>)
    requires
        outer.wf(),
        forall|i: int| 0 <= i < points.len() ==> (#[trigger] points[i]).fits(),
        forall|i: int| 0 <= i < points.len() ==> enclosed(#[trigger] points[i], outer),
        inserted_all(seq![outer], points).is_some(),
    ensures
        evenly_shared(inserted_all(seq![outer], points).unwrap(), outer),
        empty_circles(inserted_all(seq![outer], points).unwrap(), points),
    decreases points.len(),
{
    if points.len() == 0 {
        lemma_outer_alone(outer);
    } else {
        let front = points.drop_last();
        let p = points.last();
        let before = inserted_all(seq![outer], front).unwrap();
        assert forall|i: int| 0 <= i < front.len() implies (#[trigger] front[i]).fits() && enclosed(
            front[i],
            outer,
        ) by {
            assert(front[i] == points[i]);
        }
        lemma_working_list_delaunay(outer, front);
        lemma_working_list_sound(outer, front);
        assert(all_wf(before)) by {
            assert forall|i: int| 0 <= i < before.len() implies (#[trigger] before[i]).wf() by {
                assert(sound(before[i], front, outer));
            }
        }
        assert(points[points.len() - 1] == p);
        lemma_insertion_keeps_sharing(before, p, outer);
        lemma_insertion_keeps_circles_empty(before, front, p, outer);
        assert(front.push(p) =~= points);
    }
}

/// The Delaunay property: no point of a set on the grid lies strictly inside
/// the circumcircle of a triangle of the set's triangulation.
pub proof fn lemma_delaunay(points: Seq<Point>)
    requires
        forall|i: int| 0 <= i < points.len() ==> (#[trigger] points[i]).on_grid(),
        triangulation(points).is_ok(),
    ensures
        empty_circles(triangulation(points).unwrap(), points),
{
    let b = bounding_box(points);
    let (s1, s2, s3) = b.enclosing();
    let outer = Triangle::of(s1, s2, s3);
    let w = inserted_all(seq![outer], points).unwrap();
    let ts = triangulation(points).unwrap();
    lemma_enclosing_fits(points);
    if b.span() == 0 {
        assert(s1 == s2 && s2 == s3);
        assert(s1.x * (s3.y - s2.y) + s2.x * (s1.y - s3.y) + s3.x * (s2.y - s1.y) == 0)
            by (nonlinear_arith)
            requires
                s1 == s2,
                s2 == s3,
        ;
        assert(false);
    }
    assert(outer.wf());
    assert forall|i: int| 0 <= i < points.len() implies enclosed(#[trigger] points[i], outer)
        && points[i].fits() by {
        lemma_points_enclosed(points, i);
        assert(points[i].on_grid());
    }
    lemma_working_list_delaunay(outer, points);
    lemma_filter_members(w, apart_from(s1, s2, s3));
    assert forall|i: int, j: int| 0 <= i < ts.len() && 0 <= j < points.len() implies power(
        #[trigger] ts[i],
        #[trigger] points[j],
    ) >= 0 by {
        assert(w.contains(ts[i]));
        let m = choose|m: int| 0 <= m < w.len() && w[m] == ts[i];
        assert(power(w[m], points[j]) >= 0);
    }
}

/// A point inside the enclosing triangle lies on one line with no edge of
/// the boundary of its cavity, so that the cavity's fan can be built. Such an
/// edge is a side of the enclosing triangle, whose sides the point is off, or
/// the common chord of a circumcircle that holds the point and of one that does
/// not.
pub proof fn lemma_fan_spans(w: Seq<Triangle>, p: Point, outer: Triangle)
    requires
        all_wf(w),
        evenly_shared(w, outer),
        enclosed(p, outer),
    ensures
        spans_fan(cavity_boundary(w, p), p),
        inserted(w, p).is_some(),
{
    let bad = w.filter(encircling(p));
    let kept = w.filter(clear_of(p));
    let cavity = sides(bad);
    let boundary = cavity_boundary(w, p);
    lemma_unpaired(cavity);
    lemma_filter_members(w, encircling(p));
    lemma_filter_members(w, clear_of(p));
    assert forall|k: int| 0 <= k < boundary.len() implies !collinear(
        (#[trigger] boundary[k]).p1,
        boundary[k].p2,
        p,
    ) by {
        let e = boundary[k];
        let i1 = choose|i: int| 0 <= i < cavity.len() && cavity[i] == e;
        let t1 = bad[i1 / 3];
        assert(bad.contains(t1));
        assert(w.contains(t1));
        let m1 = choose|m: int| 0 <= m < w.len() && w[m] == t1;
        assert(w[m1].wf());
        assert(encircling(p)(t1));
        assert(e == t1.side(i1 % 3));
        lemma_vertices_differ(t1);
        if collinear(e.p1, e.p2, p) {
            if on_hull(e, outer) {
                if e.same(outer.side(0)) {
                    lemma_line_form(outer.p1, outer.p2, p);
                    lemma_line_through_two(line_form(outer.p1, outer.p2), e.p1, e.p2, p);
                } else if e.same(outer.side(1)) {
                    lemma_line_form(outer.p2, outer.p3, p);
                    lemma_line_through_two(line_form(outer.p2, outer.p3), e.p1, e.p2, p);
                } else {
                    lemma_line_form(outer.p3, outer.p1, p);
                    lemma_line_through_two(line_form(outer.p3, outer.p1), e.p1, e.p2, p);
                }
                assert(false);
            } else {
                assert(occurrences(cavity, e) % 2 == 1) by {
                    assert(boundary[k].same(e));
                }
                assert(occurrences(sides(w), e) % 2 == 0);
                lemma_sides_split(w, p, same_as(e));
                lemma_occurrences_total(sides(w), e);
                lemma_occurrences_total(cavity, e);
                lemma_occurrences_total(sides(kept), e);
                lemma_occurrences_positive(sides(kept), e);
                let i2 = choose|i: int|
                    0 <= i < sides(kept).len() && (#[trigger] sides(kept)[i]).same(e);
                let t2 = kept[i2 / 3];
                assert(kept.contains(t2));
                assert(w.contains(t2));
                let m2 = choose|m: int| 0 <= m < w.len() && w[m] == t2;
                assert(w[m2].wf());
                assert(clear_of(p)(t2));
                assert(t2.side(i2 % 3).same(e));
                lemma_circle_through_vertices(t1);
                lemma_circle_through_vertices(t2);
                lemma_circle_sign(t1, p);
                lemma_circle_sign(t2, p);
                let h1 = circle_of(t1);
                let h2 = circle_of(t2);
                lemma_common_chord(h1, h2, e.p1, e.p2, p);
                assert(h2.a * h1.at(p) <= 0) by (nonlinear_arith)
                    requires
                        h2.a > 0,
                        h1.at(p) <= 0,
                ;
                assert(h1.a * h2.at(p) > 0) by (nonlinear_arith)
                    requires
                        h1.a > 0,
                        h2.at(p) > 0,
                ;
                assert(false);
            }
        }
    }
}

/// Points inside the enclosing triangle can all be inserted.
pub proof fn lemma_insertions_succeed(outer: Triangle, points: Seq<Point>)
    requires
        outer.wf(),
        forall|i: int| 0 <= i < points.len() ==> (#[trigger] points[i]).fits(),
        forall|i: int| 0 <= i < points.len() ==> enclosed(#[trigger] points[i], outer),
    ensures
        inserted_all(seq![outer], points).is_some(),
    decreases points.len(),
{
    if points.len() > 0 {
        let front = points.drop_last();
        let p = points.last();
        assert forall|i: int| 0 <= i < front.len() implies (#[trigger] front[i]).fits() && enclosed(
            front[i],
            outer,
        ) by {
            assert(front[i] == points[i]);
        }
        lemma_insertions_succeed(outer, front);
        let before = inserted_all(seq![outer], front).unwrap();
        lemma_working_list_delaunay(outer, front);
        lemma_working_list_sound(outer, front);
        assert(all_wf(before)) by {
            assert forall|i: int| 0 <= i < before.len() implies (#[trigger] before[i]).wf() by {
                assert(sound(before[i], front, outer));
            }
        }
        assert(points[points.len() - 1] == p);
        lemma_fan_spans(before, p, outer);
    }
}

/// When a triangulation is had: of points of the grid that do not all
/// coincide. No points are refused as `EmptyInput`, coinciding ones as
/// `DegenerateTriangle`.
pub proof fn lemma_triangulation_succeeds(points: Seq<Point>)
    requires
        forall|i: int| 0 <= i < points.len() ==> (#[trigger] points[i]).on_grid(),
    ensures
        triangulation(points).is_ok() <==> points.len() > 0 && !all_coincide(points),
        triangulation(points) == Err::<Seq<Triangle>, GeometryError>(GeometryError::EmptyInput)
            <==> points.len() == 0,
        triangulation(points) == Err::<Seq<Triangle>, GeometryError>(
            GeometryError::DegenerateTriangle,
        ) <==> points.len() > 0 && all_coincide(points),
{
    if points.len() > 0 {
        let b = bounding_box(points);
        let (s1, s2, s3) = b.enclosing();
        let outer = Triangle::of(s1, s2, s3);
        lemma_bounding_box_on_grid(points);
        lemma_enclosing_proper(b);
        lemma_span_of_coinciding(points);
        lemma_enclosing_fits(points);
        if b.span() > 0 {
            assert(outer.wf());
            assert forall|i: int| 0 <= i < points.len() implies enclosed(
                #[trigger] points[i],
                outer,
            ) && points[i].fits() by {
                lemma_points_enclosed(points, i);
                assert(points[i].on_grid());
            }
            lemma_insertions_succeed(outer, points);
        }
    }
}

} // verus!
