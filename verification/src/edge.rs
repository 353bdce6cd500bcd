use vstd::prelude::*;
use crate::point::Point;
use vstd::std_specs::cmp::PartialEqSpec;

verus! {

/// An undirected segment between two points: the order in which its endpoints
/// are stored does not matter to equality.
#[derive(Clone, Copy, Debug)]
pub struct Edge {
    pub p1: Point,
    pub p2: Point,
}

/// `a` comes no later than `b` when points are ordered by `x`, then by `y`.
pub open spec fn point_le(a: Point, b: Point) -> bool {
    a.x < b.x || (a.x == b.x && a.y <= b.y)
}

impl Edge {
    /// The two edges join the same pair of points.
    pub open spec fn same(self, other: Edge) -> bool {
        ||| (self.p1 == other.p1 && self.p2 == other.p2)
        ||| (self.p1 == other.p2 && self.p2 == other.p1)
    }

    /// The endpoints' coordinates, the endpoint that comes first in the order
    /// of `point_le` leading.
    pub open spec fn canonical_key(self) -> (i64, i64, i64, i64) {
        if point_le(self.p1, self.p2) {
            (self.p1.x, self.p1.y, self.p2.x, self.p2.y)
        } else {
            (self.p2.x, self.p2.y, self.p1.x, self.p1.y)
        }
    }

    pub fn new(p1: Point, p2: Point) -> (e: Edge)
        ensures
            e.p1 == p1,
            e.p2 == p2,
    {
        Edge { p1, p2 }
    }

    /// A key that is the same for both orientations of an edge and differs
    /// between edges that join different pairs of points, fit for hashing and
    /// ordering.
    pub fn key(&self) -> (k: (i64, i64, i64, i64))
        ensures
            k == self.canonical_key(),
    {
        if self.p1.x < self.p2.x || (self.p1.x == self.p2.x && self.p1.y <= self.p2.y) {
            (self.p1.x, self.p1.y, self.p2.x, self.p2.y)
        } else {
            (self.p2.x, self.p2.y, self.p1.x, self.p1.y)
        }
    }
}

impl PartialEq for Edge {
    fn eq(&self, other: &Edge) -> (r: bool) {
        (self.p1 == other.p1 && self.p2 == other.p2) || (self.p1 == other.p2 && self.p2
            == other.p1)
    }
}

impl Eq for Edge {

}

impl vstd::std_specs::cmp::PartialEqSpecImpl for Edge {
    open spec fn obeys_eq_spec() -> bool {
        true
    }

    open spec fn eq_spec(&self, other: &Edge) -> bool {
        self.same(*other)
    }
}

/// Reversing an edge gives an equal edge.
pub proof fn lemma_edge_equality_ignores_orientation(a: Point, b: Point)
    ensures
        (Edge { p1: a, p2: b }).same(Edge { p1: b, p2: a }),
        (Edge { p1: a, p2: b }).eq_spec(&Edge { p1: b, p2: a }),
{
}

/// Edge equality is an equivalence relation.
pub proof fn lemma_edge_equality_is_equivalence(a: Edge, b: Edge, c: Edge)
    ensures
        a.same(a),
        a.same(b) ==> b.same(a),
        a.same(b) && b.same(c) ==> a.same(c),
{
}

/// Two edges have the same key exactly when they are equal.
pub proof fn lemma_key_decides_equality(a: Edge, b: Edge)
    ensures
        a.canonical_key() == b.canonical_key() <==> a.same(b),
{
}

} // verus!
