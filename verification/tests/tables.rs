use medial_axis_2d::index::EdgeIndex;
use medial_axis_2d::{bounds_of, Edge, Point};

fn edge(a: (i64, i64), b: (i64, i64)) -> Edge {
    Edge::new(Point::new(a.0, a.1), Point::new(b.0, b.1))
}

#[test]
fn a_new_table_holds_no_place() {
    let table = EdgeIndex::new();
    assert_eq!(table.get(&edge((0, 0), (1, 1))), None);
}

#[test]
fn equal_edges_share_a_place() {
    let mut table = EdgeIndex::new();
    table.put(&edge((0, 0), (3, 4)), 7);
    assert_eq!(table.get(&edge((0, 0), (3, 4))), Some(7));
    assert_eq!(table.get(&edge((3, 4), (0, 0))), Some(7));
    assert_eq!(table.get(&edge((0, 0), (4, 3))), None);
    assert_eq!(table.get(&edge((3, 4), (3, 4))), None);
}

#[test]
fn a_place_can_be_given_anew() {
    let mut table = EdgeIndex::new();
    table.put(&edge((0, 0), (3, 4)), 7);
    table.put(&edge((3, 4), (0, 0)), 9);
    table.put(&edge((0, 0), (5, 5)), 2);
    assert_eq!(table.get(&edge((0, 0), (3, 4))), Some(9));
    assert_eq!(table.get(&edge((5, 5), (0, 0))), Some(2));
}

#[test]
fn edges_at_the_ends_of_the_numbers_keep_apart() {
    let mut table = EdgeIndex::new();
    let a = edge((i64::MIN, i64::MIN), (i64::MAX, i64::MAX));
    let b = edge((i64::MIN, i64::MAX), (i64::MAX, i64::MIN));
    let c = edge((i64::MIN, i64::MIN), (i64::MIN, i64::MIN));
    let d = edge((-1, 0), (0, -1));
    let e = edge((0, -1), (-1, 0));
    table.put(&a, 1);
    table.put(&b, 2);
    table.put(&c, 3);
    table.put(&d, 4);
    assert_eq!(table.get(&a), Some(1));
    assert_eq!(table.get(&b), Some(2));
    assert_eq!(table.get(&c), Some(3));
    assert_eq!(table.get(&e), Some(4));
    assert_eq!(table.get(&edge((i64::MAX, i64::MAX), (i64::MAX, i64::MAX))), None);
}

#[test]
fn the_bounding_box_of_one_point_is_the_point() {
    let b = bounds_of(&[Point::new(3, -4)]);
    assert_eq!((b.min_x, b.min_y, b.max_x, b.max_y), (3, -4, 3, -4));
}

#[test]
fn the_bounding_box_touches_the_outermost_points() {
    let points =
        [Point::new(3, -4), Point::new(-7, 2), Point::new(5, 5), Point::new(0, -9), Point::new(1, 1)];
    let b = bounds_of(&points);
    assert_eq!((b.min_x, b.min_y, b.max_x, b.max_y), (-7, -9, 5, 5));
}
