use medial_axis_2d::{point_inside_shape, Point, REACH};

fn pts(coords: &[(i64, i64)]) -> Vec<Point> {
    coords.iter().map(|&(x, y)| Point::new(x, y)).collect()
}

fn square() -> Vec<Point> {
    pts(&[(0, 0), (2, 0), (2, 2), (0, 2)])
}

#[test]
fn a_vertex_is_inside() {
    let shape = square();
    for v in &shape {
        assert!(point_inside_shape(v, &shape));
    }
}

#[test]
fn the_midpoint_of_a_slanted_edge_is_inside() {
    let shape = pts(&[(0, 0), (4, 2), (2, 6), (-2, 4)]);
    assert!(point_inside_shape(&Point::new(2, 1), &shape));
    assert!(point_inside_shape(&Point::new(3, 4), &shape));
    assert!(point_inside_shape(&Point::new(0, 5), &shape));
    assert!(point_inside_shape(&Point::new(-1, 2), &shape));
}

#[test]
fn the_midpoint_of_an_upright_edge_is_inside() {
    let shape = square();
    assert!(point_inside_shape(&Point::new(0, 1), &shape));
    assert!(point_inside_shape(&Point::new(2, 1), &shape));
}

#[test]
fn the_midpoint_of_the_lower_level_edge_is_inside() {
    assert!(point_inside_shape(&Point::new(1, 0), &square()));
}

#[test]
fn the_midpoint_of_the_upper_level_edge_is_not_counted() {
    // A level edge straddles no height, so its points are judged by the
    // crossings alone, and above them lies nothing to cross.
    assert!(!point_inside_shape(&Point::new(1, 2), &square()));
}

#[test]
fn a_point_within_is_inside() {
    assert!(point_inside_shape(&Point::new(1, 1), &square()));
    let shape = pts(&[(0, 0), (6, 0), (6, 2), (2, 2), (2, 6), (0, 6)]);
    assert!(point_inside_shape(&Point::new(1, 5), &shape));
    assert!(point_inside_shape(&Point::new(5, 1), &shape));
    assert!(point_inside_shape(&Point::new(1, 1), &shape));
}

#[test]
fn a_point_without_is_outside() {
    let shape = square();
    assert!(!point_inside_shape(&Point::new(3, 1), &shape));
    assert!(!point_inside_shape(&Point::new(-1, 1), &shape));
    assert!(!point_inside_shape(&Point::new(1, 3), &shape));
    assert!(!point_inside_shape(&Point::new(1, -1), &shape));
    assert!(!point_inside_shape(&Point::new(3, 3), &shape));
}

#[test]
fn a_point_in_the_notch_of_an_outline_is_outside() {
    let shape = pts(&[(0, 0), (6, 0), (6, 2), (2, 2), (2, 6), (0, 6)]);
    assert!(!point_inside_shape(&Point::new(4, 4), &shape));
    assert!(!point_inside_shape(&Point::new(3, 3), &shape));
    assert!(!point_inside_shape(&Point::new(5, 5), &shape));
}

#[test]
fn the_direction_of_the_outline_does_not_matter() {
    let shape = pts(&[(0, 2), (2, 2), (2, 0), (0, 0)]);
    assert!(point_inside_shape(&Point::new(1, 1), &shape));
    assert!(!point_inside_shape(&Point::new(3, 1), &shape));
    assert!(point_inside_shape(&Point::new(2, 1), &shape));
}

#[test]
fn nothing_is_inside_an_outline_without_vertices() {
    let shape: Vec<Point> = Vec::new();
    assert!(!point_inside_shape(&Point::new(0, 0), &shape));
}

#[test]
fn an_outline_of_one_vertex_holds_that_vertex_only() {
    let shape = pts(&[(3, 3)]);
    assert!(point_inside_shape(&Point::new(3, 3), &shape));
    assert!(!point_inside_shape(&Point::new(3, 4), &shape));
}

#[test]
fn an_outline_of_two_vertices_holds_the_segment_between_them() {
    let shape = pts(&[(0, 0), (4, 4)]);
    assert!(point_inside_shape(&Point::new(2, 2), &shape));
    assert!(!point_inside_shape(&Point::new(2, 3), &shape));
    assert!(!point_inside_shape(&Point::new(5, 5), &shape));
}

#[test]
fn outlines_may_reach_the_ends_of_the_reach() {
    let shape = pts(&[(-REACH, -REACH), (REACH, -REACH), (REACH, REACH), (-REACH, REACH)]);
    assert!(point_inside_shape(&Point::new(0, 0), &shape));
    assert!(point_inside_shape(&Point::new(REACH, 0), &shape));
    assert!(point_inside_shape(&Point::new(REACH - 1, REACH - 1), &shape));
    assert!(point_inside_shape(&Point::new(-REACH, -REACH), &shape));
}
