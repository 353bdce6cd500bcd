use vstd::prelude::*;
use crate::adjacency::{
    adjacency, adjacency_within, edge_adjacency, lemma_adjacency_entry, manifold, shared_edges,
    shared_in, Incidence,
};
use crate::edge::Edge;
use crate::error::GeometryError;
use crate::sequences::lemma_filter_step;
use crate::tally::{distinct, occurrences, position};
use crate::triangle::{sides, Center, Triangle};

verus! {

/// A segment between the circumcenters of two triangles.
#[derive(Clone, Copy, Debug, PartialEq, Eq, Structural)]
pub struct AxisEdge {
    pub p1: Center,
    pub p2: Center,
}

/// The segment that crosses an edge shared by two triangles, from the
/// circumcenter of its primary triangle to that of its secondary triangle. An
/// edge with one triangle has none.
pub open spec fn dual(a: Incidence) -> Option<AxisEdge> {
    match a.secondary {
        Some(second) => Some(
            AxisEdge { p1: a.primary.circumcenter, p2: second.circumcenter },
        ),
        None => None,
    }
}

/// `dual` as a value.
pub open spec fn dual_of() -> spec_fn(Incidence) -> Option<AxisEdge> {
    |a: Incidence| dual(a)
}

/// The duals of the entries of an adjacency, in the entries' order.
pub open spec fn axis_of(entries: Seq<Incidence>) -> Seq<AxisEdge> {
    entries.filter_map(dual_of())
}

/// The medial axis of a set of triangles: the duals of the edges that two of
/// the triangles share.
pub open spec fn medial(ts: Seq<Triangle>) -> Result<Seq<AxisEdge>, GeometryError> {
    match adjacency(ts) {
        Ok(entries) => Ok(axis_of(entries)),
        Err(e) => Err(e),
    }
}

/// Joins the circumcenters of every two triangles that share an edge. An edge
/// of one triangle only, which lies on the boundary of the set, gives no
/// segment. An edge that is a side of more than two triangles is reported as
/// `NonManifold`.
pub fn medial_axis(triangles: &[Triangle]) -> (r: Result<Vec<AxisEdge>, GeometryError>)
    ensures
        r matches Ok(axis) ==> medial(triangles@) == Ok::<Seq<AxisEdge>, GeometryError>(axis@),
        r matches Err(e) ==> medial(triangles@) == Err::<Seq<AxisEdge>, GeometryError>(e),
        r is Ok <==> manifold(triangles@),
        r matches Err(e) ==> e == GeometryError::NonManifold,
        r matches Ok(axis) ==> axis.len() == shared_edges(triangles@).len() && forall|i: int|
            0 <= i < axis.len() ==> crosses_shared_edge(#[trigger] axis[i], triangles@),
{
    let entries = match edge_adjacency(triangles) {
        Ok(entries) => entries,
        Err(e) => {
            return Err(e);
        },
    };
    let mut axis: Vec<AxisEdge> = Vec::new();
    let mut k: usize = 0;
    assert(entries@.take(0).filter_map(dual_of()) =~= Seq::<AxisEdge>::empty());
    while k < entries.len()
        invariant
            k <= entries.len(),
            axis@ == entries@.take(k as int).filter_map(dual_of()),
        decreases entries.len() - k,
    {
        let a = entries[k];
        proof {
            entries@.lemma_filter_map_take_succ(dual_of(), k as int);
        }
        match a.secondary {
            Some(second) => {
                axis.push(AxisEdge { p1: a.primary.circumcenter, p2: second.circumcenter });
            },
            None => {},
        }
        k += 1;
    }
    proof {
        assert(entries@.take(entries.len() as int) =~= entries@);
        lemma_axis_skips_boundary(triangles@);
        assert(medial(triangles@).unwrap() == axis@);
        assert forall|i: int| 0 <= i < axis.len() implies crosses_shared_edge(
            #[trigger] axis[i],
            triangles@,
        ) by {
            assert(axis[i] == medial(triangles@).unwrap()[i]);
        }
    }
    Ok(axis)
}

/// `x` joins the circumcenters of the two triangles of `ts` that share some
/// edge.
pub open spec fn crosses_shared_edge(x: AxisEdge, ts: Seq<Triangle>) -> bool {
    exists|e: Edge|
        #[trigger] occurrences(sides(ts), e) == 2 && x == (AxisEdge {
            p1: ts[position(sides(ts), e, 0) / 3].circumcenter,
            p2: ts[position(sides(ts), e, 1) / 3].circumcenter,
        })
}

/// As many of the first `n` entries have a dual as have an edge that two
/// triangles share.
proof fn lemma_axis_count(ts: Seq<Triangle>, n: int)
    requires
        manifold(ts),
        0 <= n <= distinct(sides(ts)).len(),
    ensures
        axis_of(adjacency_within(ts, sides(ts)).take(n)).len() == distinct(sides(ts)).take(
            n,
        ).filter(shared_in(ts)).len(),
    decreases n,
{
    let entries = adjacency_within(ts, sides(ts));
    let d = distinct(sides(ts));
    if n == 0 {
        assert(entries.take(0).filter_map(dual_of()) =~= Seq::<AxisEdge>::empty());
        assert(d.take(0).filter(shared_in(ts)) =~= Seq::<Edge>::empty()) by {
            reveal(Seq::filter);
        }
    } else {
        lemma_axis_count(ts, n - 1);
        entries.lemma_filter_map_take_succ(dual_of(), n - 1);
        lemma_filter_step(d, shared_in(ts), n - 1);
        lemma_adjacency_entry(ts, n - 1);
    }
}

/// The medial axis has one segment for each edge that two triangles share and
/// none for an edge of one triangle only: every segment joins the circumcenters
/// of the two triangles of some shared edge, and there are as many segments as
/// shared edges.
pub proof fn lemma_axis_skips_boundary(ts: Seq<Triangle>)
    requires
        manifold(ts),
    ensures
        medial(ts).is_ok(),
        medial(ts).unwrap().len() == shared_edges(ts).len(),
        forall|i: int|
            0 <= i < medial(ts).unwrap().len() ==> crosses_shared_edge(
                #[trigger] medial(ts).unwrap()[i],
                ts,
            ),
{
    let entries = adjacency_within(ts, sides(ts));
    let d = distinct(sides(ts));
    let axis = axis_of(entries);
    lemma_axis_count(ts, d.len() as int);
    assert(entries.take(d.len() as int) =~= entries);
    assert(d.take(d.len() as int) =~= d);
    assert forall|i: int| 0 <= i < axis.len() implies crosses_shared_edge(
        #[trigger] axis[i],
        ts,
    ) by {
        assert(axis.contains(axis[i]));
        entries.lemma_filter_map_contains(dual_of(), axis[i]);
        let a = choose|a: Incidence| #[trigger] entries.contains(a) && dual_of()(a) == Some(axis[i]);
        let k = choose|k: int| 0 <= k < entries.len() && entries[k] == a;
        lemma_adjacency_entry(ts, k);
        assert(occurrences(sides(ts), a.edge) == 2);
    }
}

} // verus!
