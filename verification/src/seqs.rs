//! General facts about sequences: what filtering keeps, and sub-lists.

use vstd::prelude::*;

verus! {

/// Every element of a filtered sequence satisfies what every element of the
/// original satisfies.
pub proof fn lemma_filter_keeps_all<A>(s: Seq<A>, pred: spec_fn(A) -> bool, q: spec_fn(A) -> bool)
    requires
        forall|i: int| 0 <= i < s.len() ==> q(#[trigger] s[i]),
    ensures
        forall|i: int| 0 <= i < s.filter(pred).len() ==> q(#[trigger] s.filter(pred)[i]),
    decreases s.len(),
{
    reveal(Seq::filter);
    if s.len() > 0 {
        let d = s.drop_last();
        assert forall|i: int| 0 <= i < d.len() implies q(#[trigger] d[i]) by {
            assert(d[i] == s[i]);
        }
        lemma_filter_keeps_all(d, pred, q);
        assert(q(s[s.len() - 1]));
        assert forall|i: int| 0 <= i < s.filter(pred).len() implies q(#[trigger] s.filter(pred)[i]) by {
            if i < d.filter(pred).len() {
                assert(s.filter(pred)[i] == d.filter(pred)[i]);
            }
        }
    }
}

/// Filtering a sequence whose elements all pass the predicate keeps it whole.
pub proof fn lemma_filter_all_pass<A>(s: Seq<A>, pred: spec_fn(A) -> bool)
    requires
        forall|i: int| 0 <= i < s.len() ==> pred(#[trigger] s[i]),
    ensures
        s.filter(pred) == s,
    decreases s.len(),
{
    reveal(Seq::filter);
    if s.len() > 0 {
        let d = s.drop_last();
        assert forall|i: int| 0 <= i < d.len() implies pred(#[trigger] d[i]) by {
            assert(d[i] == s[i]);
        }
        lemma_filter_all_pass(d, pred);
        assert(pred(s[s.len() - 1]));
        assert(d.push(s.last()) =~= s);
    }
}

/// `idx` lists, in increasing order, the positions in `b` that the elements of
/// `a` are taken from.
pub open spec fn is_index_map<A>(idx: Seq<int>, a: Seq<A>, b: Seq<A>) -> bool {
    &&& idx.len() == a.len()
    &&& forall|i: int| 0 <= i < idx.len() ==> 0 <= #[trigger] idx[i] < b.len() && a[i] == b[idx[i]]
    &&& forall|i: int, j: int| 0 <= i < j < idx.len() ==> #[trigger] idx[i] < #[trigger] idx[j]
}

/// `a` is an order-preserving sub-list of `b`: its elements are elements of
/// `b`, taken at increasing positions.
pub open spec fn is_sublist<A>(a: Seq<A>, b: Seq<A>) -> bool {
    exists|idx: Seq<int>| is_index_map(idx, a, b)
}

pub proof fn lemma_filter_index_map<A>(s: Seq<A>, p: spec_fn(A) -> bool) -> (idx: Seq<int>)
    ensures
        is_index_map(idx, s.filter(p), s),
    decreases s.len(),
{
    reveal(Seq::filter);
    if s.len() == 0 {
        Seq::<int>::empty()
    } else {
        let d = s.drop_last();
        let prev = lemma_filter_index_map(d, p);
        if p(s.last()) {
            let idx = prev.push(s.len() - 1);
            assert forall|i: int| 0 <= i < idx.len() implies 0 <= #[trigger] idx[i] < s.len()
                && s.filter(p)[i] == s[idx[i]] by {
                if i < prev.len() {
                    assert(s.filter(p)[i] == d.filter(p)[i]);
                    assert(d[prev[i]] == s[prev[i]]);
                }
            }
            idx
        } else {
            assert forall|i: int| 0 <= i < prev.len() implies 0 <= #[trigger] prev[i] < s.len()
                && s.filter(p)[i] == s[prev[i]] by {
                assert(d[prev[i]] == s[prev[i]]);
            }
            prev
        }
    }
}

pub proof fn lemma_increasing_at_least<A>(idx: Seq<int>, b: Seq<A>, i: int)
    requires
        0 <= i < idx.len(),
        forall|k: int| 0 <= k < idx.len() ==> 0 <= #[trigger] idx[k] < b.len(),
        forall|k: int, j: int| 0 <= k < j < idx.len() ==> #[trigger] idx[k] < #[trigger] idx[j],
    ensures
        idx[i] >= i,
    decreases i,
{
    if i > 0 {
        lemma_increasing_at_least(idx, b, i - 1);
        assert(idx[i - 1] < idx[i]);
    }
}

} // verus!
