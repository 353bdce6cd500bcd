use vstd::prelude::*;
use crate::edge::Edge;
use crate::index::EdgeIndex;
use crate::sequences::lemma_filter_indices;

verus! {

/// How many members of `edges` join the same two points as `e`.
pub open spec fn occurrences(edges: Seq<Edge>, e: Edge) -> nat
    decreases edges.len(),
{
    if edges.len() == 0 {
        0
    } else {
        occurrences(edges.drop_last(), e) + if edges.last().same(e) {
            1nat
        } else {
            0nat
        }
    }
}

/// The members of `edges` without repetition: of the members that join the
/// same two points only the first stays, in its place and orientation.
pub open spec fn distinct(edges: Seq<Edge>) -> Seq<Edge>
    decreases edges.len(),
{
    if edges.len() == 0 {
        Seq::empty()
    } else if occurrences(edges.drop_last(), edges.last()) == 0 {
        distinct(edges.drop_last()).push(edges.last())
    } else {
        distinct(edges.drop_last())
    }
}

/// The index in `edges` of the member that is the `k`-th, counted from zero,
/// to join the same two points as `e`. It is meant for `k` below
/// `occurrences(edges, e)`.
pub open spec fn position(edges: Seq<Edge>, e: Edge, k: nat) -> int
    decreases edges.len(),
{
    if edges.len() == 0 {
        0
    } else if occurrences(edges.drop_last(), e) > k {
        position(edges.drop_last(), e, k)
    } else {
        edges.len() - 1
    }
}

/// The test that an edge occurs an odd number of times in `edges`.
pub open spec fn occurs_oddly(edges: Seq<Edge>) -> spec_fn(Edge) -> bool {
    |e: Edge| occurrences(edges, e) % 2 == 1
}

/// What is left of `edges` when equal edges cancel in pairs: the distinct
/// edges that occur an odd number of times, in the order of their first
/// occurrence.
pub open spec fn unpaired(edges: Seq<Edge>) -> Seq<Edge> {
    distinct(edges).filter(occurs_oddly(edges))
}

/// Equal edges occur equally often.
pub proof fn lemma_occurrences_of_same(edges: Seq<Edge>, a: Edge, b: Edge)
    requires
        a.same(b),
    ensures
        occurrences(edges, a) == occurrences(edges, b),
    decreases edges.len(),
{
    if edges.len() > 0 {
        lemma_occurrences_of_same(edges.drop_last(), a, b);
    }
}

/// An edge occurs in a sequence exactly when some member equals it.
pub proof fn lemma_occurrences_positive(edges: Seq<Edge>, e: Edge)
    ensures
        occurrences(edges, e) > 0 <==> exists|i: int|
            0 <= i < edges.len() && (#[trigger] edges[i]).same(e),
    decreases edges.len(),
{
    if edges.len() > 0 {
        let front = edges.drop_last();
        lemma_occurrences_positive(front, e);
        if occurrences(edges, e) > 0 {
            if edges.last().same(e) {
                assert(edges[edges.len() - 1].same(e));
            } else {
                let i = choose|i: int| 0 <= i < front.len() && (#[trigger] front[i]).same(e);
                assert(edges[i].same(e));
            }
        }
        if exists|i: int| 0 <= i < edges.len() && (#[trigger] edges[i]).same(e) {
            let i = choose|i: int| 0 <= i < edges.len() && (#[trigger] edges[i]).same(e);
            if i < front.len() {
                assert(front[i].same(e));
            }
        }
    }
}

/// `distinct` keeps one member of each class of equal edges: an edge occurs
/// in `edges` exactly when a member of `distinct(edges)` equals it, and no two
/// members of `distinct(edges)` are equal. Every member of `distinct(edges)`
/// is a member of `edges`.
pub proof fn lemma_distinct(edges: Seq<Edge>)
    ensures
        distinct(edges).len() <= edges.len(),
        forall|e: Edge|
            occurrences(edges, e) > 0 <==> exists|k: int|
                0 <= k < distinct(edges).len() && (#[trigger] distinct(edges)[k]).same(e),
        forall|j: int, k: int|
            0 <= j < k < distinct(edges).len() ==> !(#[trigger] distinct(edges)[j]).same(
                #[trigger] distinct(edges)[k],
            ),
        forall|k: int|
            0 <= k < distinct(edges).len() ==> occurrences(edges, #[trigger] distinct(edges)[k])
                > 0,
    decreases edges.len(),
{
    if edges.len() > 0 {
        let front = edges.drop_last();
        let last = edges.last();
        let d = distinct(edges);
        let df = distinct(front);
        lemma_distinct(front);
        assert forall|e: Edge| occurrences(edges, e) > 0 implies exists|k: int|
            0 <= k < d.len() && (#[trigger] d[k]).same(e) by {
            if occurrences(front, e) > 0 {
                let k = choose|k: int| 0 <= k < df.len() && (#[trigger] df[k]).same(e);
                assert(d[k].same(e));
            } else {
                assert(last.same(e));
                lemma_occurrences_of_same(front, last, e);
                assert(d[d.len() - 1].same(e));
            }
        }
        assert forall|e: Edge|
            (exists|k: int| 0 <= k < d.len() && (#[trigger] d[k]).same(e)) implies occurrences(
            edges,
            e,
        ) > 0 by {
            let k = choose|k: int| 0 <= k < d.len() && (#[trigger] d[k]).same(e);
            if k < df.len() {
                assert(df[k].same(e));
                assert(occurrences(front, e) > 0);
            } else {
                assert(last.same(e));
            }
        }
        assert forall|j: int, k: int| 0 <= j < k < d.len() implies !(#[trigger] d[j]).same(
            #[trigger] d[k],
        ) by {
            if k == df.len() {
                assert(df[j].same(last) ==> occurrences(front, last) > 0);
            }
        }
        assert forall|k: int| 0 <= k < d.len() implies occurrences(edges, #[trigger] d[k])
            > 0 by {
            if k < df.len() {
                assert(occurrences(front, df[k]) > 0);
            }
        }
    }
}

/// The edges left when equal edges cancel in pairs are those that occur an
/// odd number of times, each of them once.
pub proof fn lemma_unpaired(edges: Seq<Edge>)
    ensures
        forall|e: Edge|
            occurrences(edges, e) % 2 == 1 <==> exists|k: int|
                0 <= k < unpaired(edges).len() && (#[trigger] unpaired(edges)[k]).same(e),
        forall|j: int, k: int|
            0 <= j < k < unpaired(edges).len() ==> !(#[trigger] unpaired(edges)[j]).same(
                #[trigger] unpaired(edges)[k],
            ),
        forall|k: int|
            0 <= k < unpaired(edges).len() ==> exists|i: int|
                0 <= i < edges.len() && edges[i] == #[trigger] unpaired(edges)[k],
{
    broadcast use vstd::seq_lib::group_filter_ensures;

    let d = distinct(edges);
    let u = unpaired(edges);
    let odd = occurs_oddly(edges);
    lemma_distinct(edges);
    lemma_distinct_members(edges);
    lemma_filter_indices(d, odd);
    assert forall|e: Edge| occurrences(edges, e) % 2 == 1 implies exists|k: int|
        0 <= k < u.len() && (#[trigger] u[k]).same(e) by {
        let j = choose|j: int| 0 <= j < d.len() && (#[trigger] d[j]).same(e);
        lemma_occurrences_of_same(edges, d[j], e);
        assert(odd(d[j]));
        assert(d.contains(d[j]));
        assert(d.filter(odd).contains(d[j]));
        let k = choose|k: int| 0 <= k < u.len() && u[k] == d[j];
        assert(u[k].same(e));
    }
    assert forall|e: Edge|
        (exists|k: int| 0 <= k < u.len() && (#[trigger] u[k]).same(e)) implies occurrences(
        edges,
        e,
    ) % 2 == 1 by {
        let k = choose|k: int| 0 <= k < u.len() && (#[trigger] u[k]).same(e);
        assert(odd(u[k]));
        lemma_occurrences_of_same(edges, u[k], e);
    }
}

/// Every member of `distinct(edges)` is a member of `edges`.
pub proof fn lemma_distinct_members(edges: Seq<Edge>)
    ensures
        forall|k: int|
            0 <= k < distinct(edges).len() ==> exists|i: int|
                0 <= i < edges.len() && edges[i] == #[trigger] distinct(edges)[k],
    decreases edges.len(),
{
    if edges.len() > 0 {
        let front = edges.drop_last();
        let d = distinct(edges);
        lemma_distinct_members(front);
        assert forall|k: int| 0 <= k < d.len() implies exists|i: int|
            0 <= i < edges.len() && edges[i] == #[trigger] d[k] by {
            if k < distinct(front).len() {
                let i = choose|i: int| 0 <= i < front.len() && front[i] == distinct(front)[k];
                assert(edges[i] == d[k]);
            } else {
                assert(edges[edges.len() - 1] == d[k]);
            }
        }
    }
}

/// Adding a member to a sequence of edges adds one occurrence of the edges
/// equal to it and of no other.
pub proof fn lemma_occurrences_push(edges: Seq<Edge>, x: Edge, e: Edge)
    ensures
        occurrences(edges.push(x), e) == occurrences(edges, e) + if x.same(e) {
            1nat
        } else {
            0nat
        },
{
    assert(edges.push(x).drop_last() =~= edges);
}

/// Adding a member to a sequence of edges adds it to the distinct members
/// exactly when no earlier member equals it.
pub proof fn lemma_distinct_push(edges: Seq<Edge>, x: Edge)
    ensures
        distinct(edges.push(x)) == if occurrences(edges, x) == 0 {
            distinct(edges).push(x)
        } else {
            distinct(edges)
        },
{
    assert(edges.push(x).drop_last() =~= edges);
}

/// A member of `distinct(edges)` that equals `e` shows that `e` occurs in
/// `edges`.
pub proof fn lemma_distinct_hit(edges: Seq<Edge>, e: Edge, k: int)
    requires
        0 <= k < distinct(edges).len(),
        distinct(edges)[k].same(e),
    ensures
        occurrences(edges, e) > 0,
{
    lemma_distinct(edges);
    assert(occurrences(edges, distinct(edges)[k]) > 0);
    lemma_occurrences_of_same(edges, distinct(edges)[k], e);
}

/// If no member of `distinct(edges)` equals `e`, then `e` does not occur in
/// `edges`.
pub proof fn lemma_distinct_miss(edges: Seq<Edge>, e: Edge)
    requires
        forall|j: int| 0 <= j < distinct(edges).len() ==> !(#[trigger] distinct(edges)[j]).same(e),
    ensures
        occurrences(edges, e) == 0,
{
    lemma_distinct(edges);
    if occurrences(edges, e) > 0 {
        let k = choose|k: int|
            0 <= k < distinct(edges).len() && (#[trigger] distinct(edges)[k]).same(e);
        assert(false);
    }
}

/// No two members of `distinct(edges)` are equal.
pub proof fn lemma_distinct_apart(edges: Seq<Edge>, j: int, k: int)
    requires
        0 <= j < distinct(edges).len(),
        0 <= k < distinct(edges).len(),
        j != k,
    ensures
        !distinct(edges)[j].same(distinct(edges)[k]),
{
    lemma_distinct(edges);
    if j < k {
        assert(!distinct(edges)[j].same(distinct(edges)[k]));
    } else {
        assert(!distinct(edges)[k].same(distinct(edges)[j]));
    }
}

/// One more occurrence of an edge that was seen before flips the parity of
/// its slot and of no other.
proof fn lemma_toggle_known(seen: Seq<Edge>, e: Edge, slots: Seq<Edge>, alive: Seq<bool>, k: int)
    requires
        slots == distinct(seen),
        alive.len() == slots.len(),
        forall|j: int|
            0 <= j < slots.len() ==> alive[j] == (occurrences(seen, #[trigger] slots[j]) % 2
                == 1),
        0 <= k < slots.len(),
        slots[k].same(e),
    ensures
        distinct(seen.push(e)) == slots,
        forall|j: int|
            0 <= j < slots.len() ==> alive.update(k, !alive[k])[j] == (occurrences(
                seen.push(e),
                #[trigger] slots[j],
            ) % 2 == 1),
{
    lemma_distinct_hit(seen, e, k);
    lemma_distinct_push(seen, e);
    assert forall|j: int| 0 <= j < slots.len() implies alive.update(k, !alive[k])[j] == (
    occurrences(seen.push(e), #[trigger] slots[j]) % 2 == 1) by {
        lemma_occurrences_push(seen, e, slots[j]);
        if j != k {
            lemma_distinct_apart(seen, j, k);
        }
    }
}

/// The first occurrence of an edge opens a slot for it, with odd parity.
proof fn lemma_toggle_fresh(seen: Seq<Edge>, e: Edge, slots: Seq<Edge>, alive: Seq<bool>)
    requires
        slots == distinct(seen),
        alive.len() == slots.len(),
        forall|j: int|
            0 <= j < slots.len() ==> alive[j] == (occurrences(seen, #[trigger] slots[j]) % 2
                == 1),
        forall|j: int| 0 <= j < slots.len() ==> !(#[trigger] slots[j]).same(e),
    ensures
        distinct(seen.push(e)) == slots.push(e),
        forall|j: int|
            0 <= j < slots.len() + 1 ==> alive.push(true)[j] == (occurrences(
                seen.push(e),
                #[trigger] slots.push(e)[j],
            ) % 2 == 1),
{
    lemma_distinct_miss(seen, e);
    lemma_distinct_push(seen, e);
    assert forall|j: int| 0 <= j < slots.len() + 1 implies alive.push(true)[j] == (occurrences(
        seen.push(e),
        #[trigger] slots.push(e)[j],
    ) % 2 == 1) by {
        lemma_occurrences_push(seen, e, slots.push(e)[j]);
        if j < slots.len() {
            assert(slots.push(e)[j] == slots[j]);
        }
    }
}

/// Lets equal edges cancel in pairs: an edge that occurs an even number of
/// times in `edges` leaves, one that occurs an odd number of times stays once,
/// at the place and in the orientation of its first occurrence.
pub fn cancel_pairs(edges: &[Edge]) -> (left: Vec<Edge>)
    ensures
        left@ == unpaired(edges@),
        forall|e: Edge|
            occurrences(edges@, e) % 2 == 1 <==> exists|k: int|
                0 <= k < left.len() && (#[trigger] left[k]).same(e),
        forall|j: int, k: int|
            0 <= j < k < left.len() ==> !(#[trigger] left[j]).same(#[trigger] left[k]),
        forall|k: int|
            0 <= k < left.len() ==> exists|i: int|
                0 <= i < edges.len() && edges[i] == #[trigger] left[k],
{
    let mut slots: Vec<Edge> = Vec::new();
    let mut alive: Vec<bool> = Vec::new();
    let mut places = EdgeIndex::new();
    let mut i: usize = 0;
    while i < edges.len()
        invariant
            i <= edges.len(),
            slots@ == distinct(edges@.take(i as int)),
            places.indexes(slots@),
            alive.len() == slots.len(),
            forall|k: int|
                0 <= k < slots.len() ==> alive[k] == (occurrences(
                    edges@.take(i as int),
                    #[trigger] slots[k],
                ) % 2 == 1),
        decreases edges.len() - i,
    {
        let e = edges[i];
        let ghost seen = edges@.take(i as int);
        proof {
            assert(edges@.take(i + 1) =~= seen.push(e));
        }
        match places.get(&e) {
            Some(k) => {
                proof {
                    lemma_toggle_known(seen, e, slots@, alive@, k as int);
                }
                let flipped = !alive[k];
                alive.set(k, flipped);
            },
            None => {
                proof {
                    places.lemma_unplaced(slots@, e);
                    lemma_toggle_fresh(seen, e, slots@, alive@);
                }
                places.put(&e, slots.len());
                slots.push(e);
                alive.push(true);
            },
        }
        i += 1;
    }
    assert(edges@.take(edges.len() as int) =~= edges@);
    let mut left: Vec<Edge> = Vec::new();
    let mut k: usize = 0;
    while k < slots.len()
        invariant
            k <= slots.len(),
            alive.len() == slots.len(),
            slots@ == distinct(edges@),
            forall|j: int|
                0 <= j < slots.len() ==> alive[j] == (occurrences(edges@, #[trigger] slots[j]) % 2
                    == 1),
            left@ == slots@.take(k as int).filter(occurs_oddly(edges@)),
        decreases slots.len() - k,
    {
        proof {
            reveal(Seq::filter);
            assert(slots@.take(k + 1).drop_last() =~= slots@.take(k as int));
        }
        if alive[k] {
            left.push(slots[k]);
        }
        k += 1;
    }
    proof {
        assert(slots@.take(slots.len() as int) =~= slots@);
        lemma_unpaired(edges@);
    }
    left
}

/// A prefix of a sequence holds no more occurrences of an edge than the
/// sequence.
pub proof fn lemma_occurrences_grow(edges: Seq<Edge>, n: int, e: Edge)
    requires
        0 <= n <= edges.len(),
    ensures
        occurrences(edges.take(n), e) <= occurrences(edges, e),
    decreases edges.len() - n,
{
    if n < edges.len() {
        assert(edges.take(n + 1).drop_last() =~= edges.take(n));
        lemma_occurrences_grow(edges, n + 1, e);
    } else {
        assert(edges.take(n) =~= edges);
    }
}

/// `position(edges, e, k)` is the index of a member equal to `e` before which
/// exactly `k` members equal to `e` stand.
pub proof fn lemma_position(edges: Seq<Edge>, e: Edge, k: nat)
    requires
        k < occurrences(edges, e),
    ensures
        0 <= position(edges, e, k) < edges.len(),
        edges[position(edges, e, k)].same(e),
        occurrences(edges.take(position(edges, e, k)), e) == k,
    decreases edges.len(),
{
    let front = edges.drop_last();
    if occurrences(front, e) > k {
        lemma_position(front, e, k);
        assert(front.take(position(front, e, k)) =~= edges.take(position(edges, e, k)));
    } else {
        assert(edges.take(edges.len() - 1) =~= front);
    }
}

} // verus!
