//! Facts about sequences that several parts of the planner lean on.

use vstd::prelude::*;

verus! {

/// Filtering by two tests that agree on a sequence gives the same.
pub proof fn lemma_filter_same<A>(s: Seq<A>, f: spec_fn(A) -> bool, g: spec_fn(A) -> bool)
    requires
        forall|i: int| 0 <= i < s.len() ==> f(#[trigger] s[i]) == g(s[i]),
    ensures
        s.filter(f) == s.filter(g),
    decreases s.len(),
{
    reveal(Seq::filter);
    if s.len() > 0 {
        let t = s.drop_last();
        assert forall|i: int| 0 <= i < t.len() implies f(#[trigger] t[i]) == g(t[i]) by {
            assert(t[i] == s[i]);
        }
        lemma_filter_same(t, f, g);
    }
}

/// Filtering a sequence with one more element keeps that element if it
/// passes the test.
pub proof fn lemma_filter_push<A>(s: Seq<A>, f: spec_fn(A) -> bool, a: A)
    ensures
        s.push(a).filter(f) == if f(a) { s.filter(f).push(a) } else { s.filter(f) },
{
    reveal(Seq::filter);
    assert(s.push(a).drop_last() =~= s);
}

} // verus!
