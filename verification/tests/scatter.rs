use medial_axis_2d::{delaunay, edge_adjacency, medial_axis, Center, Point, Triangle};

fn pts(coords: &[(i64, i64)]) -> Vec<Point> {
    coords.iter().map(|&(x, y)| Point::new(x, y)).collect()
}

fn scatter() -> Vec<Point> {
    pts(&[
        (271, 297), (-254, 292), (-83, -262), (211, 253), (-155, -31), (-293, 170),
        (-62, -79), (298, -266), (299, -299), (-83, 170), (117, 61), (-92, -81),
        (174, -212), (-85, -262), (-215, -100), (199, -243), (250, 55), (-141, -141),
        (-156, 103), (-120, -48), (204, -125), (-58, -2), (94, 127), (13, 76),
        (-134, -63), (40, -198), (43, 197), (124, -182), (-230, 205), (213, 223),
        (12, -164), (-245, -273), (6, -110), (237, 60), (-162, 5), (-287, -188),
        (-34, 113), (129, 36), (277, 90), (258, -17), (-74, 59), (-143, -288),
        (62, -142), (108, 162), (-177, 12), (-262, -240), (-189, 246), (-235, -107),
        (90, -89), (62, -13), (111, -14), (159, 297), (-33, -165), (268, 98),
        (-59, -79), (-190, -75), (24, -177), (226, 256), (-296, 97), (-202, 4),
    ])
}

fn corners(t: &Triangle) -> [(i64, i64); 3] {
    [(t.p1.x, t.p1.y), (t.p2.x, t.p2.y), (t.p3.x, t.p3.y)]
}

fn doubled_area(t: &Triangle) -> i64 {
    ((t.p2.x - t.p1.x) * (t.p3.y - t.p1.y) - (t.p2.y - t.p1.y) * (t.p3.x - t.p1.x)).abs()
}

#[test]
fn sixty_points_give_the_expected_triangles() {
    let triangles = delaunay(&scatter()).unwrap();
    assert_eq!(triangles.len(), 106);
    assert_eq!(corners(&triangles[0]), [(298, -266), (299, -299), (199, -243)]);
    assert_eq!(corners(&triangles[105]), [(-235, -107), (-296, 97), (-202, 4)]);
    assert_eq!(triangles[0].circumcenter, Center { x: 1567464, y: -1844048, w: 6488 });
    assert_eq!(triangles[0].circumradius, 147907419200);
    assert_eq!(triangles.iter().map(|t| t.circumcenter.w).sum::<i128>(), 1327162);
    assert_eq!(triangles.iter().map(|t| t.circumcenter.x).sum::<i128>(), 10975415);
    assert_eq!(triangles.iter().map(|t| t.circumcenter.y).sum::<i128>(), -4018369);
    assert_eq!(triangles.iter().map(doubled_area).sum::<i64>(), 663581);
}

#[test]
fn sixty_points_leave_every_circumcircle_empty() {
    let points = scatter();
    let triangles = delaunay(&points).unwrap();
    for t in &triangles {
        for q in &points {
            assert!(t.circumcenter.scaled_dist(q) >= t.circumradius);
        }
        assert_eq!(t.circumcenter.scaled_dist(&t.p1), t.circumradius);
        assert_eq!(t.circumcenter.scaled_dist(&t.p2), t.circumradius);
        assert_eq!(t.circumcenter.scaled_dist(&t.p3), t.circumradius);
    }
}

#[test]
fn sixty_points_have_an_axis_edge_for_every_shared_edge() {
    let triangles = delaunay(&scatter()).unwrap();
    let entries = edge_adjacency(&triangles).unwrap();
    assert_eq!(entries.len(), 165);
    let shared = entries.iter().filter(|e| e.secondary.is_some()).count();
    assert_eq!(shared, 153);
    let axis = medial_axis(&triangles).unwrap();
    assert_eq!(axis.len(), 153);
    let mut next = 0;
    for entry in &entries {
        if let Some(second) = entry.secondary {
            assert_eq!(axis[next].p1, entry.primary.circumcenter);
            assert_eq!(axis[next].p2, second.circumcenter);
            next += 1;
        }
    }
    assert_eq!(next, axis.len());
}

#[test]
fn sixty_points_are_shared_by_two_triangles_at_most() {
    let triangles = delaunay(&scatter()).unwrap();
    let entries = edge_adjacency(&triangles).unwrap();
    for (j, a) in entries.iter().enumerate() {
        for b in &entries[j + 1..] {
            assert!(a.edge != b.edge);
        }
        let sides = |t: &Triangle| {
            [(t.p1, t.p2), (t.p2, t.p3), (t.p3, t.p1)]
                .iter()
                .filter(|(p, q)| {
                    (*p == a.edge.p1 && *q == a.edge.p2) || (*p == a.edge.p2 && *q == a.edge.p1)
                })
                .count()
        };
        let count: usize = triangles.iter().map(sides).sum();
        assert_eq!(count, if a.secondary.is_some() { 2 } else { 1 });
    }
}
