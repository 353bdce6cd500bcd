use vstd::prelude::*;
use crate::edge::Edge;
use crate::parity::{
    lemma_cancelling_keeps_parity, lemma_occurrences_total, lemma_total_concat, lemma_total_push,
    respects, same_as, total,
};
use crate::point::Point;
use crate::sequences::lemma_filter_step;
use crate::tally::{lemma_occurrences_push, occurrences};
use crate::triangle::{lemma_sides_push, lemma_vertices_differ, sides, Triangle};
use crate::triangulator::{cavity_boundary, clear_of, encircling, fan, inserted};

verus! {

/// `x` is a side of the triangle `outer`.
pub open spec fn on_hull(x: Edge, outer: Triangle) -> bool {
    x.same(outer.side(0)) || x.same(outer.side(1)) || x.same(outer.side(2))
}

/// Every edge is a side of an even number of the triangles `w`, but for the
/// sides of `outer`, which are sides of an odd number of them. In a
/// triangulation of the inside of `outer` the numbers are two and one.
pub open spec fn evenly_shared(w: Seq<Triangle>, outer: Triangle) -> bool {
    forall|x: Edge|
        (#[trigger] occurrences(sides(w), x)) % 2 == if on_hull(x, outer) {
            1int
        } else {
            0int
        }
}

/// The weight of an edge of a cavity's boundary when the weight `g` is taken
/// of the two sides that join its ends to `p`.
pub open spec fn spokes(p: Point, g: spec_fn(Edge) -> nat) -> spec_fn(Edge) -> nat {
    |e: Edge| g(Edge { p1: e.p2, p2: p }) + g(Edge { p1: p, p2: e.p1 })
}

/// The sides of two lists of triangles, one after the other, are the sides
/// of the lists joined.
pub proof fn lemma_sides_concat(xs: Seq<Triangle>, ys: Seq<Triangle>)
    ensures
        sides(xs + ys) == sides(xs) + sides(ys),
{
    assert forall|i: int| 0 <= i < 3 * (xs.len() + ys.len()) implies #[trigger] sides(xs + ys)[i]
        == (sides(xs) + sides(ys))[i] by {
        if i >= 3 * xs.len() {
            assert((i - 3 * xs.len()) / 3 == i / 3 - xs.len());
            assert((i - 3 * xs.len()) % 3 == i % 3);
        }
    }
    assert(sides(xs + ys) =~= sides(xs) + sides(ys));
}

/// The sides of a list of triangles weigh what the sides of those that
/// encircle `p` and the sides of the others weigh together.
pub proof fn lemma_sides_split(w: Seq<Triangle>, p: Point, g: spec_fn(Edge) -> nat)
    ensures
        total(sides(w), g) == total(sides(w.filter(encircling(p))), g) + total(
            sides(w.filter(clear_of(p))),
            g,
        ),
    decreases w.len(),
{
    if w.len() == 0 {
        assert(w.filter(encircling(p)) =~= Seq::<Triangle>::empty()) by {
            reveal(Seq::filter);
        }
        assert(w.filter(clear_of(p)) =~= Seq::<Triangle>::empty()) by {
            reveal(Seq::filter);
        }
    } else {
        let front = w.drop_last();
        let t = w.last();
        let n = front.len() as int;
        lemma_sides_split(front, p, g);
        assert(w.take(n + 1) =~= w);
        assert(w.take(n) =~= front);
        assert(front.push(t) =~= w);
        lemma_filter_step(w, encircling(p), n);
        lemma_filter_step(w, clear_of(p), n);
        lemma_sides_weight_push(front, t, g);
        lemma_sides_weight_push(front.filter(encircling(p)), t, g);
        lemma_sides_weight_push(front.filter(clear_of(p)), t, g);
    }
}

/// One more triangle adds the weights of its three sides.
pub proof fn lemma_sides_weight_push(ts: Seq<Triangle>, t: Triangle, g: spec_fn(Edge) -> nat)
    ensures
        total(sides(ts.push(t)), g) == total(sides(ts), g) + g(t.side(0)) + g(t.side(1)) + g(
            t.side(2),
        ),
{
    lemma_sides_push(ts, t);
    lemma_total_push(sides(ts), t.side(0), g);
    lemma_total_push(sides(ts).push(t.side(0)), t.side(1), g);
    lemma_total_push(sides(ts).push(t.side(0)).push(t.side(1)), t.side(2), g);
}

/// The sides of a fan weigh what the edges it stands on weigh and the spokes
/// that join their ends to `p`.
pub proof fn lemma_fan_sides(boundary: Seq<Edge>, p: Point, g: spec_fn(Edge) -> nat)
    ensures
        total(sides(fan(boundary, p)), g) == total(boundary, g) + total(boundary, spokes(p, g)),
    decreases boundary.len(),
{
    if boundary.len() == 0 {
        assert(sides(fan(boundary, p)) =~= Seq::<Edge>::empty());
    } else {
        let front = boundary.drop_last();
        let e = boundary.last();
        let t = Triangle::of(e.p1, e.p2, p);
        lemma_fan_sides(front, p, g);
        assert(fan(boundary, p) =~= fan(front, p).push(t));
        lemma_sides_weight_push(fan(front, p), t, g);
        assert(t.side(0) == e);
    }
}

/// The spokes of the sides of any triangles weigh an even number: each vertex
/// of a triangle is an end of two of its sides.
pub proof fn lemma_spokes_even(ts: Seq<Triangle>, p: Point, x: Edge)
    ensures
        total(sides(ts), spokes(p, same_as(x))) % 2 == 0,
    decreases ts.len(),
{
    if ts.len() == 0 {
        assert(sides(ts) =~= Seq::<Edge>::empty());
    } else {
        let front = ts.drop_last();
        let t = ts.last();
        assert(front.push(t) =~= ts);
        lemma_spokes_even(front, p, x);
        lemma_sides_weight_push(front, t, spokes(p, same_as(x)));
        let g = same_as(x);
        assert(g(Edge { p1: t.p1, p2: p }) == g(Edge { p1: p, p2: t.p1 }));
        assert(g(Edge { p1: t.p2, p2: p }) == g(Edge { p1: p, p2: t.p2 }));
        assert(g(Edge { p1: t.p3, p2: p }) == g(Edge { p1: p, p2: t.p3 }));
    }
}

/// The weight of the spokes is the same for equal edges.
pub proof fn lemma_spokes_respect(p: Point, x: Edge)
    ensures
        respects(spokes(p, same_as(x))),
        respects(same_as(x)),
{
    let g = same_as(x);
    assert forall|a: Edge, b: Edge| a.same(b) implies #[trigger] spokes(p, g)(a)
        == #[trigger] spokes(p, g)(b) by {
        assert(g(Edge { p1: a.p2, p2: p }) == g(Edge { p1: p, p2: a.p2 }));
        assert(g(Edge { p1: a.p1, p2: p }) == g(Edge { p1: p, p2: a.p1 }));
    }
}

/// Inserting a point keeps every edge a side of an even number of triangles,
/// and the sides of the enclosing triangle sides of an odd number.
pub proof fn lemma_insertion_keeps_sharing(w: Seq<Triangle>, p: Point, outer: Triangle)
    requires
        evenly_shared(w, outer),
        inserted(w, p).is_some(),
    ensures
        evenly_shared(inserted(w, p).unwrap(), outer),
{
    let after = inserted(w, p).unwrap();
    let kept = w.filter(clear_of(p));
    let cavity = sides(w.filter(encircling(p)));
    let boundary = cavity_boundary(w, p);
    assert forall|x: Edge|
        (#[trigger] occurrences(sides(after), x)) % 2 == if on_hull(x, outer) {
            1int
        } else {
            0int
        } by {
        let g = same_as(x);
        lemma_occurrences_total(sides(after), x);
        lemma_occurrences_total(sides(w), x);
        lemma_sides_concat(kept, fan(boundary, p));
        lemma_total_concat(sides(kept), sides(fan(boundary, p)), g);
        lemma_fan_sides(boundary, p, g);
        lemma_spokes_respect(p, x);
        lemma_cancelling_keeps_parity(cavity, g);
        lemma_cancelling_keeps_parity(cavity, spokes(p, g));
        lemma_spokes_even(w.filter(encircling(p)), p, x);
        lemma_sides_split(w, p, g);
        assert(occurrences(sides(w), x) % 2 == if on_hull(x, outer) {
            1int
        } else {
            0int
        });
    }
}

/// The enclosing triangle alone has each of its sides once and no other
/// edge.
pub proof fn lemma_outer_alone(outer: Triangle)
    requires
        outer.wf(),
    ensures
        evenly_shared(seq![outer], outer),
{
    lemma_vertices_differ(outer);
    let s = sides(seq![outer]);
    let s0 = outer.side(0);
    let s1 = outer.side(1);
    let s2 = outer.side(2);
    assert(s =~= Seq::<Edge>::empty().push(s0).push(s1).push(s2));
    assert forall|x: Edge|
        (#[trigger] occurrences(s, x)) % 2 == if on_hull(x, outer) {
            1int
        } else {
            0int
        } by {
        lemma_occurrences_push(Seq::<Edge>::empty(), s0, x);
        lemma_occurrences_push(Seq::<Edge>::empty().push(s0), s1, x);
        lemma_occurrences_push(Seq::<Edge>::empty().push(s0).push(s1), s2, x);
    }
}

} // verus!
