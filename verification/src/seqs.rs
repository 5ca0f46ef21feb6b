//! Order-preserving provenance: what it means for one sequence to be a
//! subsequence of another, and that a filtered sequence only holds elements
//! of its source. The screening pipeline uses these to tie each stage's
//! output back to its input without saying anything about what the store
//! returned.

use vstd::prelude::*;

verus! {

/// `idx` maps each position of `r` to the position of `s` it was taken
/// from, in strictly increasing order.
pub open spec fn is_index_map<A>(idx: Seq<int>, r: Seq<A>, s: Seq<A>) -> bool {
    &&& idx.len() == r.len()
    &&& (forall|a: int|
        0 <= a < idx.len() ==> 0 <= #[trigger] idx[a] < s.len() && r[a] == s[idx[a]])
    &&& (forall|a: int, b: int| 0 <= a < b < idx.len() ==> idx[a] < idx[b])
}

/// `r` keeps some of `s`'s elements, in `s`'s order.
pub open spec fn is_subsequence_of<A>(r: Seq<A>, s: Seq<A>) -> bool {
    exists|idx: Seq<int>| is_index_map(idx, r, s)
}

/// Every element of a subsequence is an element of its source.
pub proof fn lemma_subsequence_contains<A>(r: Seq<A>, s: Seq<A>)
    requires
        is_subsequence_of(r, s),
    ensures
        forall|i: int| 0 <= i < r.len() ==> s.contains(#[trigger] r[i]),
{
    let idx = choose|idx: Seq<int>| is_index_map(idx, r, s);
    assert forall|i: int| 0 <= i < r.len() implies s.contains(#[trigger] r[i]) by {
        assert(r[i] == s[idx[i]]);
    }
}

/// Every element of a filtered sequence is an element of its source.
pub proof fn lemma_filter_elems<A>(s: Seq<A>, pred: spec_fn(A) -> bool)
    ensures
        forall|i: int|
            0 <= i < s.filter(pred).len() ==> s.contains(#[trigger] s.filter(pred)[i]),
    decreases s.len(),
{
    reveal(Seq::filter);
    if s.len() > 0 {
        lemma_filter_elems(s.drop_last(), pred);
        let rest = s.drop_last().filter(pred);
        assert forall|i: int| 0 <= i < s.filter(pred).len() implies s.contains(
            #[trigger] s.filter(pred)[i],
        ) by {
            if i < rest.len() {
                assert(s.filter(pred)[i] == rest[i]);
                let j = choose|j: int| 0 <= j < s.drop_last().len() && s.drop_last()[j] == rest[i];
                assert(s[j] == rest[i]);
            } else {
                assert(s.filter(pred)[i] == s.last());
                assert(s[s.len() - 1] == s.last());
            }
        }
    }
}

} // verus!
