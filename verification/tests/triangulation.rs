use medial_axis_2d::{
    delaunay, insert_point, medial_axis, triangles_within, Center, GeometryError, Point, Triangle,
    GRID_MAX,
};

fn pts(coords: &[(i64, i64)]) -> Vec<Point> {
    coords.iter().map(|&(x, y)| Point::new(x, y)).collect()
}

fn corners(t: &Triangle) -> [(i64, i64); 3] {
    [(t.p1.x, t.p1.y), (t.p2.x, t.p2.y), (t.p3.x, t.p3.y)]
}

/// Twice the area of a triangle.
fn doubled_area(t: &Triangle) -> i64 {
    ((t.p2.x - t.p1.x) * (t.p3.y - t.p1.y) - (t.p2.y - t.p1.y) * (t.p3.x - t.p1.x)).abs()
}

/// Twice the area of a convex polygon given by its vertices in order.
fn doubled_polygon_area(outline: &[(i64, i64)]) -> i64 {
    let n = outline.len();
    let mut sum = 0;
    for i in 0..n {
        let (x1, y1) = outline[i];
        let (x2, y2) = outline[(i + 1) % n];
        sum += x1 * y2 - x2 * y1;
    }
    sum.abs()
}

fn strictly_inside(t: &Triangle, q: &Point) -> bool {
    t.circumcenter.scaled_dist(q) < t.circumradius
}

fn assert_empty_circumcircles(triangles: &[Triangle], points: &[Point]) {
    for t in triangles {
        for q in points {
            assert!(!strictly_inside(t, q));
        }
    }
}

#[test]
fn no_points_are_refused() {
    let points: Vec<Point> = Vec::new();
    assert_eq!(delaunay(&points), Err(GeometryError::EmptyInput));
}

#[test]
fn one_point_has_no_enclosing_triangle() {
    assert_eq!(delaunay(&pts(&[(5, 5)])), Err(GeometryError::DegenerateTriangle));
}

#[test]
fn coinciding_points_have_no_enclosing_triangle() {
    assert_eq!(delaunay(&pts(&[(0, 0), (0, 0)])), Err(GeometryError::DegenerateTriangle));
}

#[test]
fn two_points_span_no_triangle() {
    assert_eq!(delaunay(&pts(&[(0, 0), (5, 0)])), Ok(Vec::new()));
}

#[test]
fn collinear_points_span_no_triangle() {
    assert_eq!(delaunay(&pts(&[(0, 0), (1, 1), (2, 2)])), Ok(Vec::new()));
}

#[test]
fn three_points_span_one_triangle() {
    let triangles = delaunay(&pts(&[(0, 0), (4, 0), (0, 3)])).unwrap();
    assert_eq!(triangles.len(), 1);
    assert_eq!(corners(&triangles[0]), [(4, 0), (0, 0), (0, 3)]);
    assert_eq!(triangles[0].circumcenter, Center { x: 48, y: 36, w: 24 });
    assert_eq!(triangles[0].circumradius, 3600);
}

#[test]
fn unit_square_gives_two_triangles_on_one_diagonal() {
    let points = pts(&[(0, 0), (1, 0), (1, 1), (0, 1)]);
    let triangles = delaunay(&points).unwrap();
    assert_eq!(triangles.len(), 2);
    assert_eq!(corners(&triangles[0]), [(1, 0), (0, 0), (0, 1)]);
    assert_eq!(corners(&triangles[1]), [(1, 1), (1, 0), (0, 1)]);
    // Both have the diagonal from (1, 0) to (0, 1) as a side.
    for t in &triangles {
        assert!(t.has_point(&Point::new(1, 0)));
        assert!(t.has_point(&Point::new(0, 1)));
    }
    assert_eq!(doubled_area(&triangles[0]) + doubled_area(&triangles[1]), 2);
}

#[test]
fn unit_square_has_one_axis_edge_between_the_circumcenters() {
    let points = pts(&[(0, 0), (1, 0), (1, 1), (0, 1)]);
    let triangles = delaunay(&points).unwrap();
    let axis = medial_axis(&triangles).unwrap();
    assert_eq!(axis.len(), 1);
    assert_eq!(axis[0].p1, triangles[0].circumcenter);
    assert_eq!(axis[0].p2, triangles[1].circumcenter);
    // Both circumcenters are the middle of the square, (1/2, 1/2).
    assert_eq!(axis[0].p1, Center { x: 1, y: 1, w: 2 });
    assert_eq!(axis[0].p2, Center { x: 1, y: 1, w: 2 });
}

#[test]
fn convex_hexagon_gives_four_triangles() {
    let outline = [(2, 0), (4, 0), (6, 2), (4, 4), (2, 4), (0, 2)];
    let points = pts(&outline);
    let triangles = delaunay(&points).unwrap();
    let inner = triangles_within(&triangles, &points);
    assert_eq!(inner.len(), 4);
    assert_eq!(inner, triangles);
    assert_eq!(corners(&inner[0]), [(6, 2), (4, 0), (4, 4)]);
    assert_eq!(corners(&inner[1]), [(4, 0), (2, 0), (2, 4)]);
    assert_eq!(corners(&inner[2]), [(4, 4), (4, 0), (2, 4)]);
    assert_eq!(corners(&inner[3]), [(2, 4), (2, 0), (0, 2)]);
    assert_empty_circumcircles(&inner, &points);
}

#[test]
fn convex_pentagon_gives_three_triangles() {
    let outline = [(0, 0), (4, 0), (6, 3), (3, 6), (-1, 3)];
    let points = pts(&outline);
    let triangles = delaunay(&points).unwrap();
    let inner = triangles_within(&triangles, &points);
    assert_eq!(inner.len(), 3);
    let total: i64 = inner.iter().map(doubled_area).sum();
    assert_eq!(total, doubled_polygon_area(&outline));
    assert_eq!(total, 54);
}

#[test]
fn a_point_inside_a_square_joins_all_four_sides() {
    let points = pts(&[(0, 0), (10, 0), (10, 10), (0, 10), (4, 5)]);
    let triangles = delaunay(&points).unwrap();
    assert_eq!(triangles.len(), 4);
    assert_eq!(corners(&triangles[0]), [(10, 0), (0, 0), (4, 5)]);
    assert_eq!(corners(&triangles[1]), [(0, 0), (0, 10), (4, 5)]);
    assert_eq!(corners(&triangles[2]), [(10, 10), (10, 0), (4, 5)]);
    assert_eq!(corners(&triangles[3]), [(0, 10), (10, 10), (4, 5)]);
    assert_eq!(triangles[1].circumcenter, Center { x: -90, y: 400, w: 80 });
    assert_eq!(triangles[1].circumradius, 168100);
    let total: i64 = triangles.iter().map(doubled_area).sum();
    assert_eq!(total, 200);
    assert_empty_circumcircles(&triangles, &points);
}

#[test]
fn no_point_lies_strictly_inside_a_circumcircle() {
    let points = pts(&[
        (-9, -31),
        (0, 33),
        (-44, -41),
        (18, -38),
        (-4, 24),
        (-43, 14),
        (-23, -46),
        (-39, 5),
        (3, -42),
        (-20, -39),
        (20, 4),
        (-43, 22),
    ]);
    let triangles = delaunay(&points).unwrap();
    assert_eq!(triangles.len(), 14);
    assert_eq!(corners(&triangles[0]), [(-44, -41), (-43, 14), (-39, 5)]);
    assert_eq!(corners(&triangles[13]), [(-4, 24), (-43, 14), (-43, 22)]);
    assert_empty_circumcircles(&triangles, &points);
    for t in &triangles {
        for v in [t.p1, t.p2, t.p3] {
            assert!(points.contains(&v));
        }
    }
}

#[test]
fn later_points_lie_outside_the_circumcircles_of_earlier_apexes() {
    let points = pts(&[(0, 0), (10, 0), (10, 10), (0, 10), (4, 5), (7, 2), (2, 8)]);
    let triangles = delaunay(&points).unwrap();
    for t in &triangles {
        let apex = points.iter().position(|p| *p == t.p3).unwrap();
        for q in &points[apex + 1..] {
            assert!(!t.has_point_circumcircle(q));
        }
    }
}

#[test]
fn a_point_given_twice_is_joined_anew() {
    let triangles = delaunay(&pts(&[(0, 0), (4, 0), (0, 3), (4, 0)])).unwrap();
    assert_eq!(triangles.len(), 1);
    // The same triangle as without the repetition, with the repeated point last.
    assert_eq!(corners(&triangles[0]), [(0, 0), (0, 3), (4, 0)]);
    assert_eq!(triangles[0].circumcenter, Center { x: 48, y: 36, w: 24 });
    assert_eq!(triangles[0].circumradius, 3600);
}

#[test]
fn the_whole_grid_can_be_triangulated() {
    let g = GRID_MAX;
    let points = pts(&[(-g, -g), (g, -g), (g, g), (-g, g), (0, 1)]);
    let triangles = delaunay(&points).unwrap();
    assert_eq!(triangles.len(), 4);
    assert_eq!(
        triangles[0].circumcenter,
        Center { x: 0, y: -17592186011648, w: 1073807360 }
    );
    assert_eq!(triangles[0].circumradius, 309522791059121404918104064);
    let total: i64 = triangles.iter().map(doubled_area).sum();
    assert_eq!(total, 2 * (2 * g) * (2 * g));
    assert_empty_circumcircles(&triangles, &points);
}

#[test]
fn a_flat_triangle_is_lost_to_the_enclosing_triangle() {
    // The circumcircle of these three points is so large that it holds a
    // vertex of the enclosing triangle, so the triangle never forms.
    let triangles = delaunay(&pts(&[(0, 0), (2000, 0), (1000, 1)])).unwrap();
    assert!(triangles.is_empty());
}

#[test]
fn the_order_of_the_points_decides_between_diagonals() {
    let a = delaunay(&pts(&[(0, 0), (1, 0), (1, 1), (0, 1)])).unwrap();
    let b = delaunay(&pts(&[(1, 0), (1, 1), (0, 1), (0, 0)])).unwrap();
    assert_eq!(a.len(), 2);
    assert_eq!(b.len(), 2);
    let on_a = a.iter().all(|t| t.has_point(&Point::new(1, 0)) && t.has_point(&Point::new(0, 1)));
    let on_b = b.iter().all(|t| t.has_point(&Point::new(1, 0)) && t.has_point(&Point::new(0, 1)));
    let other_b =
        b.iter().all(|t| t.has_point(&Point::new(0, 0)) && t.has_point(&Point::new(1, 1)));
    assert!(on_a);
    assert!(on_b || other_b);
}

#[test]
fn inserting_a_point_replaces_the_triangles_that_encircle_it() {
    let outer = Triangle::new(Point::new(-100, -10), Point::new(0, 100), Point::new(100, -10))
        .unwrap();
    let after = insert_point(vec![outer], Point::new(0, 0)).unwrap();
    assert_eq!(after.len(), 3);
    assert_eq!(corners(&after[0]), [(-100, -10), (0, 100), (0, 0)]);
    assert_eq!(corners(&after[1]), [(0, 100), (100, -10), (0, 0)]);
    assert_eq!(corners(&after[2]), [(100, -10), (-100, -10), (0, 0)]);
}

#[test]
fn inserting_a_point_keeps_the_triangles_that_do_not_encircle_it() {
    let t = Triangle::new(Point::new(0, 0), Point::new(4, 0), Point::new(0, 3)).unwrap();
    let after = insert_point(vec![t], Point::new(50, 50)).unwrap();
    assert_eq!(after, vec![t]);
}

#[test]
fn inserting_a_point_on_a_side_of_a_lone_triangle_is_refused() {
    let t = Triangle::new(Point::new(0, 0), Point::new(4, 0), Point::new(0, 4)).unwrap();
    assert_eq!(
        insert_point(vec![t], Point::new(2, 0)),
        Err(GeometryError::DegenerateTriangle)
    );
}

#[test]
fn restriction_keeps_the_triangles_inside_the_outline() {
    let outline = [(0, 0), (6, 0), (6, 2), (2, 2), (2, 6), (0, 6)];
    let points = pts(&outline);
    let triangles = delaunay(&points).unwrap();
    assert_eq!(triangles.len(), 5);
    let inner = triangles_within(&triangles, &points);
    assert_eq!(inner.len(), 4);
    assert_eq!(corners(&inner[0]), [(6, 0), (0, 0), (2, 2)]);
    assert_eq!(corners(&inner[1]), [(6, 2), (6, 0), (2, 2)]);
    assert_eq!(corners(&inner[2]), [(2, 2), (0, 0), (0, 6)]);
    assert_eq!(corners(&inner[3]), [(2, 6), (2, 2), (0, 6)]);
    let total: i64 = inner.iter().map(doubled_area).sum();
    assert_eq!(total, doubled_polygon_area(&outline));
    let axis = medial_axis(&inner).unwrap();
    assert_eq!(axis.len(), 3);
    assert_eq!(axis[0].p1, Center { x: 72, y: -24, w: 24 });
    assert_eq!(axis[0].p2, Center { x: -24, y: 72, w: 24 });
    assert_eq!(axis[1].p1, Center { x: 72, y: -24, w: 24 });
    assert_eq!(axis[1].p2, Center { x: 64, y: 16, w: 16 });
    assert_eq!(axis[2].p1, Center { x: -24, y: 72, w: 24 });
    assert_eq!(axis[2].p2, Center { x: 16, y: 64, w: 16 });
}

#[test]
fn restriction_to_no_outline_keeps_nothing() {
    let triangles = delaunay(&pts(&[(0, 0), (4, 0), (0, 3)])).unwrap();
    let outline: Vec<Point> = Vec::new();
    assert!(triangles_within(&triangles, &outline).is_empty());
}
