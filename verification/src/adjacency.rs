use vstd::prelude::*;
use crate::edge::Edge;
use crate::error::GeometryError;
use crate::index::EdgeIndex;
use crate::tally::{
    distinct, lemma_distinct, lemma_distinct_apart, lemma_distinct_hit, lemma_distinct_miss,
    lemma_distinct_push, lemma_occurrences_grow, lemma_occurrences_of_same,
    lemma_occurrences_positive, lemma_occurrences_push, lemma_position, occurrences, position,
};
use crate::triangle::{sides, Triangle};

verus! {

/// An edge of a set of triangles with the triangles that it is a side of: the
/// one that brought it first, and the one that brought it again, if any.
#[derive(Clone, Copy, Debug)]
pub struct Incidence {
    pub edge: Edge,
    pub primary: Triangle,
    pub secondary: Option<Triangle>,
}

/// What is known of the edge `e` when only the sides in `seen`, a prefix of
/// the sides of `ts`, have been looked at.
pub open spec fn incidence_within(ts: Seq<Triangle>, seen: Seq<Edge>, e: Edge) -> Incidence {
    Incidence {
        edge: e,
        primary: ts[position(seen, e, 0) / 3],
        secondary: if occurrences(seen, e) >= 2 {
            Some(ts[position(seen, e, 1) / 3])
        } else {
            None
        },
    }
}

/// The incidences of the distinct edges of `seen`, in the order of their
/// first occurrence.
pub open spec fn adjacency_within(ts: Seq<Triangle>, seen: Seq<Edge>) -> Seq<Incidence> {
    Seq::new(distinct(seen).len(), |k: int| incidence_within(ts, seen, distinct(seen)[k]))
}

/// No edge is a side of more than two triangles.
pub open spec fn manifold(ts: Seq<Triangle>) -> bool {
    forall|e: Edge| #[trigger] occurrences(sides(ts), e) <= 2
}

/// The adjacency of a set of triangles: one entry for each distinct edge, in
/// the order in which the edges first occur among the triangles' sides. The
/// entry's primary triangle is the first that has the edge as a side, its
/// secondary triangle the second. There is no adjacency if some edge is a side
/// of more than two triangles.
pub open spec fn adjacency(ts: Seq<Triangle>) -> Result<Seq<Incidence>, GeometryError> {
    if manifold(ts) {
        Ok(adjacency_within(ts, sides(ts)))
    } else {
        Err(GeometryError::NonManifold)
    }
}

/// The entries hold what is known after the sides in `seen`, and none of
/// the edges has occurred more than twice.
pub open spec fn tracks(entries: Seq<Incidence>, ts: Seq<Triangle>, seen: Seq<Edge>) -> bool {
    &&& entries == adjacency_within(ts, seen)
    &&& forall|k: int|
        0 <= k < distinct(seen).len() ==> occurrences(seen, #[trigger] distinct(seen)[k]) <= 2
}

/// A second occurrence of an edge makes the triangle that brings it the
/// edge's secondary triangle and changes no other entry.
proof fn lemma_register_known(
    ts: Seq<Triangle>,
    seen: Seq<Edge>,
    e: Edge,
    entries: Seq<Incidence>,
    k: int,
    t: Triangle,
)
    requires
        tracks(entries, ts, seen),
        0 <= k < entries.len(),
        entries[k].edge.same(e),
        entries[k].secondary.is_none(),
        t == ts[seen.len() as int / 3],
    ensures
        tracks(
            entries.update(
                k,
                Incidence { edge: entries[k].edge, primary: entries[k].primary, secondary: Some(t) },
            ),
            ts,
            seen.push(e),
        ),
{
    let d = distinct(seen);
    let next = seen.push(e);
    let after = entries.update(
        k,
        Incidence { edge: entries[k].edge, primary: entries[k].primary, secondary: Some(t) },
    );
    assert(entries[k] == incidence_within(ts, seen, d[k]));
    lemma_distinct_hit(seen, e, k);
    lemma_distinct_push(seen, e);
    assert(next.drop_last() =~= seen);
    assert forall|j: int| 0 <= j < d.len() implies occurrences(next, #[trigger] d[j]) <= 2
        && after[j] == incidence_within(ts, next, d[j]) by {
        assert(entries[j] == incidence_within(ts, seen, d[j]));
        lemma_occurrences_push(seen, e, d[j]);
        lemma_distinct_hit(seen, d[j], j);
        if j != k {
            lemma_distinct_apart(seen, j, k);
        } else {
            lemma_occurrences_of_same(seen, d[k], e);
        }
    }
    assert(after =~= adjacency_within(ts, next));
}

/// A third occurrence of an edge shows in its entry, which has a secondary
/// triangle already.
proof fn lemma_register_full(
    ts: Seq<Triangle>,
    seen: Seq<Edge>,
    e: Edge,
    entries: Seq<Incidence>,
    k: int,
)
    requires
        tracks(entries, ts, seen),
        0 <= k < entries.len(),
        entries[k].edge.same(e),
        entries[k].secondary.is_some(),
    ensures
        occurrences(seen.push(e), e) >= 3,
{
    let d = distinct(seen);
    assert(entries[k] == incidence_within(ts, seen, d[k]));
    lemma_occurrences_of_same(seen, d[k], e);
    lemma_occurrences_push(seen, e, e);
}

/// The first occurrence of an edge gives it an entry with the triangle that
/// brings it as primary triangle, and changes no other entry.
proof fn lemma_register_fresh(
    ts: Seq<Triangle>,
    seen: Seq<Edge>,
    e: Edge,
    entries: Seq<Incidence>,
    t: Triangle,
)
    requires
        tracks(entries, ts, seen),
        forall|j: int| 0 <= j < entries.len() ==> !(#[trigger] entries[j]).edge.same(e),
        t == ts[seen.len() as int / 3],
    ensures
        tracks(entries.push(Incidence { edge: e, primary: t, secondary: None }), ts, seen.push(e)),
{
    let d = distinct(seen);
    let next = seen.push(e);
    let after = entries.push(Incidence { edge: e, primary: t, secondary: None });
    assert forall|j: int| 0 <= j < d.len() implies !(#[trigger] d[j]).same(e) by {
        assert(entries[j] == incidence_within(ts, seen, d[j]));
    }
    lemma_distinct_miss(seen, e);
    lemma_distinct_push(seen, e);
    assert(next.drop_last() =~= seen);
    let dn = distinct(next);
    assert forall|j: int| 0 <= j < dn.len() implies occurrences(next, #[trigger] dn[j]) <= 2
        && after[j] == incidence_within(ts, next, dn[j]) by {
        lemma_occurrences_push(seen, e, dn[j]);
        if j < d.len() {
            assert(dn[j] == d[j]);
            assert(entries[j] == incidence_within(ts, seen, d[j]));
            lemma_distinct_hit(seen, d[j], j);
        }
    }
    assert(after =~= adjacency_within(ts, next));
}

/// Looks at one more side, `e`, of the triangle `t`: a new edge gets an entry
/// with `t` as primary triangle, a known edge gets `t` as secondary triangle.
/// Returns `false`, and leaves the entries alone, if the edge has two
/// triangles already.
fn register(
    entries: &mut Vec<Incidence>,
    places: &mut EdgeIndex,
    e: Edge,
    t: Triangle,
    Ghost(ts): Ghost<Seq<Triangle>>,
    Ghost(seen): Ghost<Seq<Edge>>,
) -> (fits: bool)
    requires
        tracks(old(entries)@, ts, seen),
        old(places).indexes(distinct(seen)),
        t == ts[seen.len() as int / 3],
    ensures
        fits ==> tracks(final(entries)@, ts, seen.push(e)) && final(places).indexes(
            distinct(seen.push(e)),
        ),
        !fits ==> occurrences(seen.push(e), e) >= 3,
{
    proof {
        lemma_distinct_push(seen, e);
    }
    match places.get(&e) {
        Some(k) => {
            proof {
                assert(entries@[k as int] == incidence_within(ts, seen, distinct(seen)[k as int]));
                lemma_distinct_hit(seen, e, k as int);
            }
            let known = entries[k];
            if known.secondary.is_some() {
                proof {
                    lemma_register_full(ts, seen, e, entries@, k as int);
                }
                return false;
            }
            proof {
                lemma_register_known(ts, seen, e, entries@, k as int, t);
            }
            entries.set(
                k,
                Incidence { edge: known.edge, primary: known.primary, secondary: Some(t) },
            );
            true
        },
        None => {
            proof {
                places.lemma_unplaced(distinct(seen), e);
                assert forall|j: int| 0 <= j < entries.len() implies !(
                #[trigger] entries[j]).edge.same(e) by {
                    assert(entries@[j] == incidence_within(ts, seen, distinct(seen)[j]));
                }
                lemma_register_fresh(ts, seen, e, entries@, t);
                lemma_distinct_miss(seen, e);
            }
            places.put(&e, entries.len());
            entries.push(Incidence { edge: e, primary: t, secondary: None });
            true
        },
    }
}

/// Maps each edge of `triangles` to the triangles that it is a side of. An
/// edge that is a side of more than two triangles is reported as
/// `NonManifold`.
pub fn edge_adjacency(triangles: &[Triangle]) -> (r: Result<Vec<Incidence>, GeometryError>)
    ensures
        r matches Ok(entries) ==> adjacency(triangles@) == Ok::<Seq<Incidence>, GeometryError>(
            entries@,
        ),
        r matches Err(e) ==> adjacency(triangles@) == Err::<Seq<Incidence>, GeometryError>(e),
        r is Ok <==> manifold(triangles@),
        r matches Err(e) ==> e == GeometryError::NonManifold,
        r matches Ok(entries) ==> forall|k: int|
            0 <= k < entries.len() ==> describes(#[trigger] entries[k], triangles@),
        r matches Ok(entries) ==> forall|j: int, k: int|
            0 <= j < k < entries.len() ==> !(#[trigger] entries[j]).edge.same(
                (#[trigger] entries[k]).edge,
            ),
        r matches Ok(entries) ==> forall|i: int, s: int|
            0 <= i < triangles.len() && 0 <= s < 3 ==> has_entry(
                entries@,
                #[trigger] triangles[i].side(s),
            ),
{
    let mut entries: Vec<Incidence> = Vec::new();
    let mut places = EdgeIndex::new();
    let ghost all = sides(triangles@);
    let mut i: usize = 0;
    assert(entries@ =~= adjacency_within(triangles@, all.take(0)));
    while i < triangles.len()
        invariant
            i <= triangles.len(),
            all == sides(triangles@),
            tracks(entries@, triangles@, all.take(3 * i)),
            places.indexes(distinct(all.take(3 * i))),
        decreases triangles.len() - i,
    {
        let t = triangles[i];
        let ghost seen = all.take(3 * i);
        proof {
            assert(all.take(3 * i + 1) =~= seen.push(t.side(0)));
            assert(all.take(3 * i + 2) =~= seen.push(t.side(0)).push(t.side(1)));
            assert(all.take(3 * i + 3) =~= seen.push(t.side(0)).push(t.side(1)).push(t.side(2)));
        }
        let e0 = Edge::new(t.p1, t.p2);
        let e1 = Edge::new(t.p2, t.p3);
        let e2 = Edge::new(t.p3, t.p1);
        if !register(&mut entries, &mut places, e0, t, Ghost(triangles@), Ghost(seen)) {
            proof {
                lemma_occurrences_grow(all, 3 * i + 1, e0);
            }
            return Err(GeometryError::NonManifold);
        }
        if !register(&mut entries, &mut places, e1, t, Ghost(triangles@), Ghost(seen.push(e0))) {
            proof {
                lemma_occurrences_grow(all, 3 * i + 2, e1);
            }
            return Err(GeometryError::NonManifold);
        }
        if !register(&mut entries, &mut places, e2, t, Ghost(triangles@), Ghost(seen.push(e0).push(e1))) {
            proof {
                lemma_occurrences_grow(all, 3 * i + 3, e2);
            }
            return Err(GeometryError::NonManifold);
        }
        i += 1;
    }
    proof {
        assert(all.take(3 * i) =~= all);
        lemma_distinct(all);
        assert forall|e: Edge| #[trigger] occurrences(all, e) <= 2 by {
            if occurrences(all, e) > 0 {
                let k = choose|k: int|
                    0 <= k < distinct(all).len() && (#[trigger] distinct(all)[k]).same(e);
                lemma_occurrences_of_same(all, distinct(all)[k], e);
            }
        }
        assert forall|k: int| 0 <= k < entries.len() implies describes(
            #[trigger] entries[k],
            triangles@,
        ) by {
            lemma_adjacency_entry(triangles@, k);
        }
        assert forall|j: int, k: int| 0 <= j < k < entries.len() implies !(
        #[trigger] entries[j]).edge.same((#[trigger] entries[k]).edge) by {
            lemma_distinct_apart(all, j, k);
        }
        assert forall|i: int, s: int| 0 <= i < triangles.len() && 0 <= s < 3 implies has_entry(
            entries@,
            #[trigger] triangles[i].side(s),
        ) by {
            let e = triangles[i].side(s);
            assert(all[3 * i + s] == e);
            lemma_occurrences_positive(all, e);
            lemma_distinct(all);
            let k = choose|k: int|
                0 <= k < distinct(all).len() && (#[trigger] distinct(all)[k]).same(e);
            assert(entries[k].edge.same(e));
        }
    }
    Ok(entries)
}

/// The test that an edge is a side of exactly two of the triangles `ts`.
pub open spec fn shared_in(ts: Seq<Triangle>) -> spec_fn(Edge) -> bool {
    |e: Edge| occurrences(sides(ts), e) == 2
}

/// The distinct edges that two of the triangles `ts` share.
pub open spec fn shared_edges(ts: Seq<Triangle>) -> Seq<Edge> {
    distinct(sides(ts)).filter(shared_in(ts))
}

/// Some entry has an edge equal to `e`.
pub open spec fn has_entry(entries: Seq<Incidence>, e: Edge) -> bool {
    exists|k: int| 0 <= k < entries.len() && (#[trigger] entries[k]).edge.same(e)
}

/// What an entry of the adjacency says of the triangles `ts`: its edge is a
/// side of one or two of them, of two exactly when the entry has a secondary
/// triangle; the primary triangle is one of them and has the edge as a side,
/// and so is and has the secondary triangle.
pub open spec fn describes(a: Incidence, ts: Seq<Triangle>) -> bool {
    let n = occurrences(sides(ts), a.edge);
    &&& 1 <= n <= 2
    &&& a.secondary.is_some() <==> n == 2
    &&& ts.contains(a.primary)
    &&& exists|s: int| 0 <= s < 3 && (#[trigger] a.primary.side(s)).same(a.edge)
    &&& a.secondary matches Some(t) ==> ts.contains(t) && exists|s: int|
        0 <= s < 3 && (#[trigger] t.side(s)).same(a.edge)
}

/// Every entry of the adjacency describes the triangles, and has the edge
/// that comes at its place among the distinct edges.
pub proof fn lemma_adjacency_entry(ts: Seq<Triangle>, k: int)
    requires
        manifold(ts),
        0 <= k < adjacency_within(ts, sides(ts)).len(),
    ensures
        adjacency_within(ts, sides(ts))[k].edge == distinct(sides(ts))[k],
        describes(adjacency_within(ts, sides(ts))[k], ts),
{
    let all = sides(ts);
    let e = distinct(all)[k];
    let a = adjacency_within(ts, all)[k];
    lemma_distinct_hit(all, e, k);
    assert(occurrences(all, e) <= 2);
    lemma_position(all, e, 0);
    let first = position(all, e, 0);
    assert(ts[first / 3] == a.primary);
    assert(a.primary.side(first % 3).same(e));
    if occurrences(all, e) == 2 {
        lemma_position(all, e, 1);
        let second = position(all, e, 1);
        let t = ts[second / 3];
        assert(a.secondary == Some(t));
        assert(t.side(second % 3).same(e));
    }
}

} // verus!
