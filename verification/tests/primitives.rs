use medial_axis_2d::{Edge, Point, GRID_MAX, REACH};

#[test]
fn point_new_keeps_coordinates() {
    let p = Point::new(-7, 12);
    assert_eq!(p.x, -7);
    assert_eq!(p.y, 12);
}

#[test]
fn dist_is_the_squared_distance() {
    let a = Point::new(1, 2);
    let b = Point::new(4, 6);
    assert_eq!(a.dist(&b), 25);
    assert_eq!(b.dist(&a), 25);
    assert_eq!(a.dist(&a), 0);
}

#[test]
fn dist_at_the_ends_of_the_reach() {
    let a = Point::new(-REACH, -REACH);
    let b = Point::new(REACH, REACH);
    assert_eq!(a.dist(&b), 2 * (2 * REACH) * (2 * REACH));
}

#[test]
fn norm_is_the_squared_distance_from_the_origin() {
    assert_eq!(Point::new(3, -4).norm(), 25);
    assert_eq!(Point::new(0, 0).norm(), 0);
    assert_eq!(Point::new(REACH, -REACH).norm(), 2 * REACH * REACH);
}

#[test]
fn within_tests_both_coordinates() {
    assert!(Point::new(GRID_MAX, -GRID_MAX).within(GRID_MAX));
    assert!(!Point::new(GRID_MAX + 1, 0).within(GRID_MAX));
    assert!(!Point::new(0, -GRID_MAX - 1).within(GRID_MAX));
    assert!(Point::new(0, 0).within(0));
}

#[test]
fn reach_leaves_room_for_forty_grids() {
    assert_eq!(REACH, 41 * GRID_MAX);
}

#[test]
fn points_are_equal_when_their_coordinates_are() {
    assert_eq!(Point::new(1, 2), Point::new(1, 2));
    assert_ne!(Point::new(1, 2), Point::new(2, 1));
}

#[test]
fn edge_new_keeps_endpoints() {
    let a = Point::new(1, 2);
    let b = Point::new(3, 4);
    let e = Edge::new(a, b);
    assert_eq!(e.p1, a);
    assert_eq!(e.p2, b);
}

#[test]
fn edge_equality_ignores_orientation() {
    let a = Point::new(1, 2);
    let b = Point::new(3, 4);
    assert!(Edge::new(a, b) == Edge::new(b, a));
    assert!(Edge::new(a, b) == Edge::new(a, b));
    assert!(Edge::new(a, a) == Edge::new(a, a));
}

#[test]
fn edges_between_other_points_differ() {
    let a = Point::new(1, 2);
    let b = Point::new(3, 4);
    let c = Point::new(3, 5);
    assert!(Edge::new(a, b) != Edge::new(a, c));
    assert!(Edge::new(a, b) != Edge::new(c, b));
    assert!(Edge::new(a, b) != Edge::new(a, a));
}

#[test]
fn edge_key_is_the_same_for_both_orientations() {
    let a = Point::new(5, -1);
    let b = Point::new(-2, 9);
    assert_eq!(Edge::new(a, b).key(), (-2, 9, 5, -1));
    assert_eq!(Edge::new(b, a).key(), (-2, 9, 5, -1));
}

#[test]
fn edge_key_orders_by_y_when_x_is_equal() {
    let a = Point::new(4, 7);
    let b = Point::new(4, -7);
    assert_eq!(Edge::new(a, b).key(), (4, -7, 4, 7));
    assert_eq!(Edge::new(b, a).key(), (4, -7, 4, 7));
    assert_eq!(Edge::new(a, a).key(), (4, 7, 4, 7));
}

#[test]
fn edge_key_tells_different_edges_apart() {
    let a = Point::new(0, 0);
    let b = Point::new(1, 0);
    let c = Point::new(0, 1);
    assert_ne!(Edge::new(a, b).key(), Edge::new(a, c).key());
    assert_ne!(Edge::new(a, b).key(), Edge::new(b, c).key());
}
