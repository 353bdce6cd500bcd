use medial_axis_2d::{Center, GeometryError, Point, Triangle, REACH};

fn pt(x: i64, y: i64) -> Point {
    Point::new(x, y)
}

#[test]
fn right_triangle_has_its_circumcenter_on_the_hypotenuse() {
    let t = Triangle::new(pt(0, 0), pt(4, 0), pt(0, 3)).unwrap();
    assert_eq!(t.p1, pt(0, 0));
    assert_eq!(t.p2, pt(4, 0));
    assert_eq!(t.p3, pt(0, 3));
    // The circumcenter is (2, 3/2), here over the denominator -24.
    assert_eq!(t.circumcenter, Center { x: -48, y: -36, w: -24 });
    // The squared radius 25/4, multiplied by the square of the denominator.
    assert_eq!(t.circumradius, 3600);
}

#[test]
fn orientation_changes_the_sign_of_the_denominator_only() {
    let t = Triangle::new(pt(4, 0), pt(0, 0), pt(0, 3)).unwrap();
    assert_eq!(t.circumcenter, Center { x: 48, y: 36, w: 24 });
    assert_eq!(t.circumradius, 3600);
}

#[test]
fn circumcenter_is_equally_far_from_the_vertices() {
    let t = Triangle::new(pt(-9, -31), pt(18, -38), pt(3, -42)).unwrap();
    assert_eq!(t.circumcenter, Center { x: 2869, y: -11025, w: 426 });
    assert_eq!(t.circumradius, 49686970);
    assert_eq!(t.circumcenter.scaled_dist(&t.p1), t.circumradius);
    assert_eq!(t.circumcenter.scaled_dist(&t.p2), t.circumradius);
    assert_eq!(t.circumcenter.scaled_dist(&t.p3), t.circumradius);
}

#[test]
fn collinear_vertices_are_refused() {
    assert_eq!(
        Triangle::new(pt(0, 0), pt(1, 1), pt(2, 2)),
        Err(GeometryError::DegenerateTriangle)
    );
    assert_eq!(
        Triangle::new(pt(0, 0), pt(5, 0), pt(-3, 0)),
        Err(GeometryError::DegenerateTriangle)
    );
}

#[test]
fn repeated_vertices_are_refused() {
    assert_eq!(
        Triangle::new(pt(1, 1), pt(1, 1), pt(2, 5)),
        Err(GeometryError::DegenerateTriangle)
    );
    assert_eq!(
        Triangle::new(pt(3, 3), pt(3, 3), pt(3, 3)),
        Err(GeometryError::DegenerateTriangle)
    );
}

#[test]
fn triangle_at_the_ends_of_the_reach() {
    let t = Triangle::new(pt(-REACH, -REACH), pt(REACH, -REACH), pt(0, REACH)).unwrap();
    assert_eq!(t.circumcenter.scaled_dist(&t.p1), t.circumradius);
    assert_eq!(t.circumcenter.scaled_dist(&t.p2), t.circumradius);
    assert_eq!(t.circumcenter.scaled_dist(&t.p3), t.circumradius);
    assert!(t.has_point_circumcircle(&pt(REACH, REACH)) == false);
    assert!(t.has_point_circumcircle(&pt(0, 0)));
}

#[test]
fn has_point_knows_the_vertices() {
    let t = Triangle::new(pt(0, 0), pt(4, 0), pt(0, 3)).unwrap();
    assert!(t.has_point(&pt(0, 0)));
    assert!(t.has_point(&pt(4, 0)));
    assert!(t.has_point(&pt(0, 3)));
    assert!(!t.has_point(&pt(2, 1)));
    assert!(!t.has_point(&pt(0, 4)));
}

#[test]
fn circumcircle_holds_what_is_inside() {
    let t = Triangle::new(pt(0, 0), pt(4, 0), pt(0, 3)).unwrap();
    assert!(t.has_point_circumcircle(&pt(2, 1)));
    assert!(t.has_point_circumcircle(&pt(3, 3)));
}

#[test]
fn circumcircle_holds_its_own_boundary() {
    let t = Triangle::new(pt(0, 0), pt(4, 0), pt(0, 3)).unwrap();
    // The vertices and the fourth corner of the rectangle lie on the circle.
    assert!(t.has_point_circumcircle(&pt(0, 0)));
    assert!(t.has_point_circumcircle(&pt(4, 0)));
    assert!(t.has_point_circumcircle(&pt(0, 3)));
    assert!(t.has_point_circumcircle(&pt(4, 3)));
}

#[test]
fn circumcircle_leaves_out_what_is_outside() {
    let t = Triangle::new(pt(0, 0), pt(4, 0), pt(0, 3)).unwrap();
    assert!(!t.has_point_circumcircle(&pt(5, 3)));
    assert!(!t.has_point_circumcircle(&pt(4, 4)));
    assert!(!t.has_point_circumcircle(&pt(-1, -1)));
    assert!(!t.has_point_circumcircle(&pt(2, 5)));
}

#[test]
fn scaled_dist_is_the_squared_distance_times_the_squared_denominator() {
    // The point (1/2, 1/2).
    let c = Center { x: 1, y: 1, w: 2 };
    assert_eq!(c.scaled_dist(&pt(0, 0)), 2);
    assert_eq!(c.scaled_dist(&pt(1, 1)), 2);
    assert_eq!(c.scaled_dist(&pt(2, 0)), 10);
    // The same point over another denominator.
    let d = Center { x: -3, y: -3, w: -6 };
    assert_eq!(d.scaled_dist(&pt(0, 0)), 18);
}
