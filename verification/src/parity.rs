use vstd::prelude::*;
use crate::edge::Edge;
use crate::sequences::lemma_filter_step;
use crate::tally::{
    distinct, lemma_distinct_apart, lemma_distinct_hit, lemma_distinct_miss, lemma_distinct_push,
    lemma_occurrences_push, occurrences, occurs_oddly, unpaired,
};

verus! {

/// The sum of the weights that `g` gives to the members of `edges`.
pub open spec fn total(edges: Seq<Edge>, g: spec_fn(Edge) -> nat) -> nat
    decreases edges.len(),
{
    if edges.len() == 0 {
        0
    } else {
        total(edges.drop_last(), g) + g(edges.last())
    }
}

/// `g` gives equal edges equal weights.
pub open spec fn respects(g: spec_fn(Edge) -> nat) -> bool {
    forall|a: Edge, b: Edge| a.same(b) ==> #[trigger] g(a) == #[trigger] g(b)
}

/// The weight that counts the edges equal to `x`.
pub open spec fn same_as(x: Edge) -> spec_fn(Edge) -> nat {
    |e: Edge|
        if e.same(x) {
            1nat
        } else {
            0nat
        }
}

/// Counting the occurrences of an edge is a sum of weights.
pub proof fn lemma_occurrences_total(edges: Seq<Edge>, x: Edge)
    ensures
        occurrences(edges, x) == total(edges, same_as(x)),
    decreases edges.len(),
{
    if edges.len() > 0 {
        lemma_occurrences_total(edges.drop_last(), x);
    }
}

/// One more member adds its weight.
pub proof fn lemma_total_push(edges: Seq<Edge>, e: Edge, g: spec_fn(Edge) -> nat)
    ensures
        total(edges.push(e), g) == total(edges, g) + g(e),
{
    assert(edges.push(e).drop_last() =~= edges);
}

/// The weights of two sequences add up over their concatenation.
pub proof fn lemma_total_concat(xs: Seq<Edge>, ys: Seq<Edge>, g: spec_fn(Edge) -> nat)
    ensures
        total(xs + ys, g) == total(xs, g) + total(ys, g),
    decreases ys.len(),
{
    if ys.len() == 0 {
        assert(xs + ys =~= xs);
    } else {
        lemma_total_concat(xs, ys.drop_last(), g);
        assert((xs + ys).drop_last() =~= xs + ys.drop_last());
    }
}

/// The sum over the first `n` members of `d` of their weight times the number
/// of their occurrences in `edges`.
pub open spec fn class_sum(edges: Seq<Edge>, d: Seq<Edge>, n: int, g: spec_fn(Edge) -> nat) -> nat
    decreases n,
{
    if n <= 0 {
        0
    } else {
        class_sum(edges, d, n - 1, g) + occurrences(edges, d[n - 1]) * g(d[n - 1])
    }
}

/// The sum of the weights of those among the first `n` members of `d` that
/// occur an odd number of times in `edges`.
pub open spec fn odd_sum(edges: Seq<Edge>, d: Seq<Edge>, n: int, g: spec_fn(Edge) -> nat) -> nat
    decreases n,
{
    if n <= 0 {
        0
    } else {
        odd_sum(edges, d, n - 1, g) + if occurrences(edges, d[n - 1]) % 2 == 1 {
            g(d[n - 1])
        } else {
            0nat
        }
    }
}

/// The sum of the weights of those among the first `n` members of `d` that
/// equal `e`.
pub open spec fn hits(d: Seq<Edge>, n: int, e: Edge, g: spec_fn(Edge) -> nat) -> nat
    decreases n,
{
    if n <= 0 {
        0
    } else {
        hits(d, n - 1, e, g) + if d[n - 1].same(e) {
            g(d[n - 1])
        } else {
            0nat
        }
    }
}

/// A product is even or odd as it is with its first factor taken modulo two.
proof fn lemma_parity_of_product(o: nat, g: nat)
    ensures
        (o * g) % 2 == (if o % 2 == 1 {
            g
        } else {
            0nat
        }) % 2,
{
    let k = o / 2;
    if o % 2 == 1 {
        assert(o * g == 2 * (k * g) + g) by (nonlinear_arith)
            requires
                o == 2 * k + 1,
        ;
    } else {
        assert(o * g == 2 * (k * g)) by (nonlinear_arith)
            requires
                o == 2 * k,
        ;
    }
}

/// The two sums over classes agree modulo two.
proof fn lemma_odd_sum_parity(edges: Seq<Edge>, d: Seq<Edge>, n: int, g: spec_fn(Edge) -> nat)
    ensures
        odd_sum(edges, d, n, g) % 2 == class_sum(edges, d, n, g) % 2,
    decreases n,
{
    if n > 0 {
        lemma_odd_sum_parity(edges, d, n - 1, g);
        lemma_parity_of_product(occurrences(edges, d[n - 1]), g(d[n - 1]));
    }
}

/// One more member of `edges` adds to the sum over classes the weights of the
/// members of `d` that equal it.
proof fn lemma_class_sum_push(
    edges: Seq<Edge>,
    e: Edge,
    d: Seq<Edge>,
    n: int,
    g: spec_fn(Edge) -> nat,
)
    ensures
        class_sum(edges.push(e), d, n, g) == class_sum(edges, d, n, g) + hits(d, n, e, g),
    decreases n,
{
    if n > 0 {
        lemma_class_sum_push(edges, e, d, n - 1, g);
        lemma_occurrences_push(edges, e, d[n - 1]);
        let o = occurrences(edges, d[n - 1]);
        let w = g(d[n - 1]);
        if e.same(d[n - 1]) {
            assert((o + 1) * w == o * w + w) by (nonlinear_arith);
        }
    }
}

/// The sums over the first `n` members of `d` do not depend on the members
/// that follow.
proof fn lemma_class_sum_prefix(
    edges: Seq<Edge>,
    d: Seq<Edge>,
    e: Edge,
    n: int,
    g: spec_fn(Edge) -> nat,
)
    requires
        n <= d.len(),
    ensures
        class_sum(edges, d.push(e), n, g) == class_sum(edges, d, n, g),
        hits(d.push(e), n, e, g) == hits(d, n, e, g),
    decreases n,
{
    if n > 0 {
        lemma_class_sum_prefix(edges, d, e, n - 1, g);
        assert(d.push(e)[n - 1] == d[n - 1]);
    }
}

/// Among members of which no two are equal, at most one equals `e`, and it
/// has the weight of `e`.
proof fn lemma_hits(edges: Seq<Edge>, n: int, e: Edge, g: spec_fn(Edge) -> nat)
    requires
        0 <= n <= distinct(edges).len(),
        respects(g),
    ensures
        hits(distinct(edges), n, e, g) == if exists|k: int|
            0 <= k < n && (#[trigger] distinct(edges)[k]).same(e) {
            g(e)
        } else {
            0nat
        },
    decreases n,
{
    let d = distinct(edges);
    if n > 0 {
        lemma_hits(edges, n - 1, e, g);
        if d[n - 1].same(e) {
            assert(g(d[n - 1]) == g(e));
            if exists|k: int| 0 <= k < n - 1 && (#[trigger] d[k]).same(e) {
                let k = choose|k: int| 0 <= k < n - 1 && (#[trigger] d[k]).same(e);
                lemma_distinct_apart(edges, k, n - 1);
                assert(false);
            }
        } else {
            if exists|k: int| 0 <= k < n && (#[trigger] d[k]).same(e) {
                let k = choose|k: int| 0 <= k < n && (#[trigger] d[k]).same(e);
                assert(0 <= k < n - 1 && d[k].same(e));
            }
        }
    }
}

/// The weights of the members of a sequence add up class by class.
proof fn lemma_total_by_classes(edges: Seq<Edge>, g: spec_fn(Edge) -> nat)
    requires
        respects(g),
    ensures
        total(edges, g) == class_sum(edges, distinct(edges), distinct(edges).len() as int, g),
    decreases edges.len(),
{
    if edges.len() > 0 {
        let front = edges.drop_last();
        let e = edges.last();
        let df = distinct(front);
        let n = df.len() as int;
        assert(front.push(e) =~= edges);
        lemma_total_by_classes(front, g);
        lemma_distinct_push(front, e);
        lemma_class_sum_push(front, e, df, n, g);
        lemma_hits(front, n, e, g);
        if occurrences(front, e) == 0 {
            if exists|k: int| 0 <= k < n && (#[trigger] df[k]).same(e) {
                let k = choose|k: int| 0 <= k < n && (#[trigger] df[k]).same(e);
                lemma_distinct_hit(front, e, k);
            }
            lemma_class_sum_prefix(edges, df, e, n, g);
            lemma_occurrences_push(front, e, e);
            assert(df.push(e)[n] == e);
            assert(occurrences(edges, e) * g(e) == g(e)) by (nonlinear_arith)
                requires
                    occurrences(edges, e) == 1,
            ;
        } else {
            if !exists|k: int| 0 <= k < n && (#[trigger] df[k]).same(e) {
                lemma_distinct_miss(front, e);
            }
        }
    }
}

/// The weights of the members that stay when equal members cancel in pairs
/// are the weights of the classes of odd size.
proof fn lemma_total_unpaired(edges: Seq<Edge>, n: int, g: spec_fn(Edge) -> nat)
    requires
        0 <= n <= distinct(edges).len(),
    ensures
        total(distinct(edges).take(n).filter(occurs_oddly(edges)), g) == odd_sum(
            edges,
            distinct(edges),
            n,
            g,
        ),
    decreases n,
{
    let d = distinct(edges);
    if n == 0 {
        assert(d.take(0).filter(occurs_oddly(edges)) =~= Seq::<Edge>::empty()) by {
            reveal(Seq::filter);
        }
    } else {
        lemma_total_unpaired(edges, n - 1, g);
        lemma_filter_step(d, occurs_oddly(edges), n - 1);
        if occurs_oddly(edges)(d[n - 1]) {
            lemma_total_push(d.take(n - 1).filter(occurs_oddly(edges)), d[n - 1], g);
        }
    }
}

/// Cancelling equal members in pairs changes the sum of weights by an even
/// number, whatever the weights, as long as equal edges weigh the same.
pub proof fn lemma_cancelling_keeps_parity(edges: Seq<Edge>, g: spec_fn(Edge) -> nat)
    requires
        respects(g),
    ensures
        total(unpaired(edges), g) % 2 == total(edges, g) % 2,
{
    let d = distinct(edges);
    lemma_total_unpaired(edges, d.len() as int, g);
    assert(d.take(d.len() as int) =~= d);
    lemma_odd_sum_parity(edges, d, d.len() as int, g);
    lemma_total_by_classes(edges, g);
}

} // verus!
