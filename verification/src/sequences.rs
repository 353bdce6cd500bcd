use vstd::prelude::*;

verus! {

/// Filtering one more member of a sequence keeps what was kept before and
/// adds the member if it passes.
pub proof fn lemma_filter_step<A>(s: Seq<A>, p: spec_fn(A) -> bool, i: int)
    requires
        0 <= i < s.len(),
    ensures
        s.take(i + 1).filter(p) == if p(s[i]) {
            s.take(i).filter(p).push(s[i])
        } else {
            s.take(i).filter(p)
        },
{
    reveal(Seq::filter);
    assert(s.take(i + 1).drop_last() =~= s.take(i));
}

/// Every member of a filtered sequence is a member of the sequence and
/// passes the filter.
pub proof fn lemma_filter_members<A>(s: Seq<A>, p: spec_fn(A) -> bool)
    ensures
        forall|k: int|
            0 <= k < s.filter(p).len() ==> p(#[trigger] s.filter(p)[k]) && s.contains(
                s.filter(p)[k],
            ),
{
    broadcast use vstd::seq_lib::group_filter_ensures;

    lemma_filter_indices(s, p);
    assert forall|k: int| 0 <= k < s.filter(p).len() implies p(#[trigger] s.filter(p)[k])
        && s.contains(s.filter(p)[k]) by {
        let i = choose|i: int| 0 <= i < s.len() && s[i] == s.filter(p)[k];
        assert(s[i] == s.filter(p)[k]);
    }
}

/// Filtering keeps members in their order: the members of `s.filter(p)` are
/// members of `s` at increasing indices.
pub proof fn lemma_filter_indices<A>(s: Seq<A>, p: spec_fn(A) -> bool)
    ensures
        forall|k: int|
            0 <= k < s.filter(p).len() ==> exists|i: int|
                0 <= i < s.len() && s[i] == #[trigger] s.filter(p)[k],
        forall|j: int, k: int|
            0 <= j < k < s.filter(p).len() ==> exists|a: int, b: int|
                0 <= a < b < s.len() && s[a] == #[trigger] s.filter(p)[j] && s[b]
                    == #[trigger] s.filter(p)[k],
    decreases s.len(),
{
    reveal(Seq::filter);
    if s.len() > 0 {
        let front = s.drop_last();
        let f = s.filter(p);
        let ff = front.filter(p);
        lemma_filter_indices(front, p);
        assert forall|k: int| 0 <= k < f.len() implies exists|i: int|
            0 <= i < s.len() && s[i] == #[trigger] f[k] by {
            if k < ff.len() {
                let i = choose|i: int| 0 <= i < front.len() && front[i] == ff[k];
                assert(s[i] == f[k]);
            } else {
                assert(s[s.len() - 1] == f[k]);
            }
        }
        assert forall|j: int, k: int| 0 <= j < k < f.len() implies exists|a: int, b: int|
            0 <= a < b < s.len() && s[a] == #[trigger] f[j] && s[b] == #[trigger] f[k] by {
            if k < ff.len() {
                let (a, b) = choose|a: int, b: int|
                    0 <= a < b < front.len() && front[a] == ff[j] && front[b] == ff[k];
                assert(s[a] == f[j] && s[b] == f[k]);
            } else {
                let a = choose|a: int| 0 <= a < front.len() && front[a] == ff[j];
                assert(s[a] == f[j] && s[s.len() - 1] == f[k]);
            }
        }
    }
}


} // verus!
