use medial_axis_2d::{edge_adjacency, medial_axis, Center, Edge, GeometryError, Point, Triangle};

fn tri(a: (i64, i64), b: (i64, i64), c: (i64, i64)) -> Triangle {
    Triangle::new(Point::new(a.0, a.1), Point::new(b.0, b.1), Point::new(c.0, c.1)).unwrap()
}

fn edge(a: (i64, i64), b: (i64, i64)) -> Edge {
    Edge::new(Point::new(a.0, a.1), Point::new(b.0, b.1))
}

#[test]
fn no_triangles_have_no_edges() {
    let none: Vec<Triangle> = Vec::new();
    assert!(edge_adjacency(&none).unwrap().is_empty());
    assert!(medial_axis(&none).unwrap().is_empty());
}

#[test]
fn a_lone_triangle_has_three_boundary_edges() {
    let t = tri((0, 0), (4, 0), (0, 3));
    let entries = edge_adjacency(&[t]).unwrap();
    assert_eq!(entries.len(), 3);
    assert!(entries[0].edge == edge((0, 0), (4, 0)));
    assert!(entries[1].edge == edge((4, 0), (0, 3)));
    assert!(entries[2].edge == edge((0, 3), (0, 0)));
    for entry in &entries {
        assert_eq!(entry.primary, t);
        assert_eq!(entry.secondary, None);
    }
}

#[test]
fn a_lone_triangle_has_no_axis() {
    let t = tri((0, 0), (4, 0), (0, 3));
    assert!(medial_axis(&[t]).unwrap().is_empty());
}

#[test]
fn a_shared_edge_has_both_triangles() {
    let first = tri((0, 0), (1, 0), (0, 1));
    let second = tri((1, 1), (0, 1), (1, 0));
    let entries = edge_adjacency(&[first, second]).unwrap();
    assert_eq!(entries.len(), 5);
    // The edges come in the order in which the triangles bring them.
    assert_eq!(entries[0].edge.p1, Point::new(0, 0));
    assert_eq!(entries[0].edge.p2, Point::new(1, 0));
    assert_eq!(entries[1].edge.p1, Point::new(1, 0));
    assert_eq!(entries[1].edge.p2, Point::new(0, 1));
    assert_eq!(entries[2].edge.p1, Point::new(0, 1));
    assert_eq!(entries[2].edge.p2, Point::new(0, 0));
    assert_eq!(entries[3].edge.p1, Point::new(1, 1));
    assert_eq!(entries[3].edge.p2, Point::new(0, 1));
    assert_eq!(entries[4].edge.p1, Point::new(1, 0));
    assert_eq!(entries[4].edge.p2, Point::new(1, 1));
    // The diagonal is met again in the other orientation.
    assert_eq!(entries[1].primary, first);
    assert_eq!(entries[1].secondary, Some(second));
    for i in [0, 2] {
        assert_eq!(entries[i].primary, first);
        assert_eq!(entries[i].secondary, None);
    }
    for i in [3, 4] {
        assert_eq!(entries[i].primary, second);
        assert_eq!(entries[i].secondary, None);
    }
}

#[test]
fn the_axis_joins_the_circumcenters_across_a_shared_edge() {
    let first = tri((0, 0), (4, 0), (0, 3));
    let second = tri((4, 0), (0, 3), (6, 6));
    let axis = medial_axis(&[first, second]).unwrap();
    assert_eq!(axis.len(), 1);
    assert_eq!(axis[0].p1, first.circumcenter);
    assert_eq!(axis[0].p2, second.circumcenter);
    assert_eq!(axis[0].p1, Center { x: -48, y: -36, w: -24 });
}

#[test]
fn the_axis_has_no_edge_for_a_boundary_edge() {
    // A strip of three triangles: two edges are shared, seven are not.
    let a = tri((0, 0), (2, 0), (0, 2));
    let b = tri((2, 0), (2, 2), (0, 2));
    let c = tri((2, 0), (4, 0), (2, 2));
    let entries = edge_adjacency(&[a, b, c]).unwrap();
    assert_eq!(entries.len(), 7);
    let shared = entries.iter().filter(|e| e.secondary.is_some()).count();
    assert_eq!(shared, 2);
    let axis = medial_axis(&[a, b, c]).unwrap();
    assert_eq!(axis.len(), 2);
    assert_eq!(axis[0].p1, a.circumcenter);
    assert_eq!(axis[0].p2, b.circumcenter);
    assert_eq!(axis[1].p1, b.circumcenter);
    assert_eq!(axis[1].p2, c.circumcenter);
}

#[test]
fn an_edge_of_three_triangles_is_reported() {
    let a = tri((0, 0), (4, 0), (0, 3));
    let b = tri((0, 0), (4, 0), (2, -5));
    let c = tri((4, 0), (0, 0), (1, 7));
    assert_eq!(edge_adjacency(&[a, b, c]).map(|e| e.len()), Err(GeometryError::NonManifold));
    assert_eq!(medial_axis(&[a, b, c]), Err(GeometryError::NonManifold));
}

#[test]
fn a_triangle_given_twice_is_its_own_neighbour() {
    let t = tri((0, 0), (4, 0), (0, 3));
    let entries = edge_adjacency(&[t, t]).unwrap();
    assert_eq!(entries.len(), 3);
    for entry in &entries {
        assert_eq!(entry.primary, t);
        assert_eq!(entry.secondary, Some(t));
    }
    assert_eq!(medial_axis(&[t, t]).unwrap().len(), 3);
}

#[test]
fn a_triangle_given_three_times_is_reported() {
    let t = tri((0, 0), (4, 0), (0, 3));
    assert_eq!(medial_axis(&[t, t, t]), Err(GeometryError::NonManifold));
}
