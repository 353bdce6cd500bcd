use vstd::prelude::*;
use crate::edge::{lemma_key_decides_equality, Edge};
use std::collections::HashMap;

verus! {

broadcast use vstd::std_specs::hash::group_hash_axioms;

/// A number that stands for a point: different for different points.
pub open spec fn point_code(x: i64, y: i64) -> int {
    (x + 0x8000_0000_0000_0000) * 0x1_0000_0000_0000_0000 + (y + 0x8000_0000_0000_0000)
}

/// Computes the number that stands for the point `(x, y)`.
fn code_of(x: i64, y: i64) -> (c: u128)
    ensures
        c == point_code(x, y),
{
    let hx: u128 = (x as i128 + 0x8000_0000_0000_0000) as u128;
    let hy: u128 = (y as i128 + 0x8000_0000_0000_0000) as u128;
    hx * 0x1_0000_0000_0000_0000 + hy
}

/// Different points have different codes.
proof fn lemma_codes_differ(x1: i64, y1: i64, x2: i64, y2: i64)
    ensures
        point_code(x1, y1) == point_code(x2, y2) <==> x1 == x2 && y1 == y2,
{
}

/// A table from edges to places in a list, in which equal edges share a
/// place. It is kept in two levels: by the end of the edge that comes first in
/// the order of points, then by the other end.
pub struct EdgeIndex {
    rows: HashMap<u128, HashMap<u128, usize>>,
}

impl EdgeIndex {
    /// The place that the table holds for `e`, if any.
    pub closed spec fn lookup(&self, e: Edge) -> Option<usize> {
        let k = e.canonical_key();
        let first = point_code(k.0, k.1) as u128;
        let second = point_code(k.2, k.3) as u128;
        if self.rows@.contains_key(first) && self.rows@[first]@.contains_key(second) {
            Some(self.rows@[first]@[second])
        } else {
            None
        }
    }

    /// The table holds for every edge the place in `edges` of the member
    /// that equals it, and no place for an edge that no member equals.
    pub open spec fn indexes(&self, edges: Seq<Edge>) -> bool {
        &&& forall|f: Edge| (#[trigger] self.lookup(f)) matches Some(k) ==> k < edges.len()
            && edges[k as int].same(f)
        &&& forall|k: int|
            0 <= k < edges.len() ==> self.lookup(#[trigger] edges[k]) == Some(k as usize)
    }

    /// An edge without a place equals no member of the list.
    pub proof fn lemma_unplaced(&self, edges: Seq<Edge>, e: Edge)
        requires
            self.indexes(edges),
            self.lookup(e).is_none(),
        ensures
            forall|j: int| 0 <= j < edges.len() ==> !(#[trigger] edges[j]).same(e),
    {
        assert forall|j: int| 0 <= j < edges.len() implies !(#[trigger] edges[j]).same(e) by {
            if edges[j].same(e) {
                self.lemma_lookup_of_same(edges[j], e);
            }
        }
    }

    /// Equal edges share a place.
    pub proof fn lemma_lookup_of_same(&self, e: Edge, f: Edge)
        requires
            e.same(f),
        ensures
            self.lookup(e) == self.lookup(f),
    {
        lemma_key_decides_equality(e, f);
    }

    /// A table that holds no place.
    pub fn new() -> (table: EdgeIndex)
        ensures
            forall|e: Edge| (#[trigger] table.lookup(e)).is_none(),
    {
        EdgeIndex { rows: HashMap::new() }
    }

    /// The place of `e`, if the table holds one.
    pub fn get(&self, e: &Edge) -> (place: Option<usize>)
        ensures
            place == self.lookup(*e),
    {
        let k = e.key();
        let first = code_of(k.0, k.1);
        let second = code_of(k.2, k.3);
        match self.rows.get(&first) {
            Some(row) => match row.get(&second) {
                Some(place) => Some(*place),
                None => None,
            },
            None => None,
        }
    }

    /// Gives `e`, and every edge equal to it, the place `place`.
    pub fn put(&mut self, e: &Edge, place: usize)
        ensures
            forall|f: Edge|
                (#[trigger] final(self).lookup(f)) == if f.same(*e) {
                    Some(place)
                } else {
                    old(self).lookup(f)
                },
    {
        let k = e.key();
        let first = code_of(k.0, k.1);
        let second = code_of(k.2, k.3);
        let mut row = match self.rows.remove(&first) {
            Some(row) => row,
            None => HashMap::new(),
        };
        let ghost before = row@;
        row.insert(second, place);
        self.rows.insert(first, row);
        proof {
            assert forall|f: Edge|
                (#[trigger] self.lookup(f)) == if f.same(*e) {
                    Some(place)
                } else {
                    old(self).lookup(f)
                } by {
                let kf = f.canonical_key();
                lemma_key_decides_equality(f, *e);
                lemma_codes_differ(kf.0, kf.1, k.0, k.1);
                lemma_codes_differ(kf.2, kf.3, k.2, k.3);
            }
        }
    }
}

} // verus!
