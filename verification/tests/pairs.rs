use medial_axis_2d::{cancel_pairs, Edge, Point};

fn edge(a: (i64, i64), b: (i64, i64)) -> Edge {
    Edge::new(Point::new(a.0, a.1), Point::new(b.0, b.1))
}

fn ends(edges: &[Edge]) -> Vec<((i64, i64), (i64, i64))> {
    edges.iter().map(|e| ((e.p1.x, e.p1.y), (e.p2.x, e.p2.y))).collect()
}

#[test]
fn nothing_cancels_among_different_edges() {
    let edges = vec![edge((0, 0), (1, 0)), edge((1, 0), (1, 1)), edge((1, 1), (0, 0))];
    let left = cancel_pairs(&edges);
    assert_eq!(ends(&left), vec![((0, 0), (1, 0)), ((1, 0), (1, 1)), ((1, 1), (0, 0))]);
}

#[test]
fn an_edge_met_twice_leaves() {
    let edges = vec![
        edge((0, 0), (1, 0)),
        edge((1, 0), (1, 1)),
        edge((1, 1), (0, 0)),
        edge((0, 0), (1, 1)),
        edge((1, 1), (0, 1)),
        edge((0, 1), (0, 0)),
    ];
    let left = cancel_pairs(&edges);
    assert_eq!(
        ends(&left),
        vec![((0, 0), (1, 0)), ((1, 0), (1, 1)), ((1, 1), (0, 1)), ((0, 1), (0, 0))]
    );
}

#[test]
fn an_edge_met_three_times_stays_as_it_came_first() {
    let edges = vec![edge((2, 3), (5, 7)), edge((5, 7), (2, 3)), edge((5, 7), (2, 3))];
    let left = cancel_pairs(&edges);
    assert_eq!(ends(&left), vec![((2, 3), (5, 7))]);
}

#[test]
fn an_edge_met_four_times_leaves() {
    let e = edge((2, 3), (5, 7));
    let f = edge((5, 7), (2, 3));
    let left = cancel_pairs(&vec![e, f, e, f]);
    assert!(left.is_empty());
}

#[test]
fn no_edges_leave_no_edges() {
    let edges: Vec<Edge> = Vec::new();
    assert!(cancel_pairs(&edges).is_empty());
}

#[test]
fn what_stays_keeps_the_order_of_first_meeting() {
    let a = edge((0, 0), (1, 0));
    let b = edge((0, 0), (2, 0));
    let c = edge((0, 0), (3, 0));
    let left = cancel_pairs(&vec![a, b, c, b, a, a]);
    assert_eq!(ends(&left), vec![((0, 0), (1, 0)), ((0, 0), (3, 0))]);
}
