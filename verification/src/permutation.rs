//! Sequences in another order.

use vstd::prelude::*;

verus! {

/// `p` names each of the places of `n` things once.
pub open spec fn is_permutation(p: Seq<int>, n: nat) -> bool {
    &&& p.len() == n
    &&& p.no_duplicates()
    &&& forall|i: int| 0 <= i < n ==> 0 <= #[trigger] p[i] < n
}

/// `s` in the order `p`.
pub open spec fn permuted<A>(s: Seq<A>, p: Seq<int>) -> Seq<A> {
    Seq::new(p.len(), |i: int| s[p[i]])
}

/// Different things in another order are the same things.
pub proof fn lemma_permuted<A>(s: Seq<A>, p: Seq<int>)
    requires
        s.no_duplicates(),
        is_permutation(p, s.len()),
    ensures
        permuted(s, p).no_duplicates(),
        permuted(s, p).to_multiset() == s.to_multiset(),
{
    broadcast use vstd::multiset::group_multiset_axioms;
    broadcast use vstd::seq_lib::seq_to_set_is_finite;

    let t = permuted(s, p);
    assert forall|i: int, j: int| 0 <= i < t.len() && 0 <= j < t.len() && i != j implies t[i]
        != t[j] by {
        assert(p[i] != p[j]);
    }
    s.unique_seq_to_set();
    t.unique_seq_to_set();
    assert forall|x: A| #[trigger] t.to_set().contains(x) implies s.to_set().contains(x) by {
        let i = choose|i: int| 0 <= i < t.len() && t[i] == x;
        assert(s[p[i]] == x);
    }
    vstd::set_lib::lemma_subset_equality(t.to_set(), s.to_set());
    s.lemma_multiset_has_no_duplicates();
    t.lemma_multiset_has_no_duplicates();
    s.to_multiset_ensures();
    t.to_multiset_ensures();
    assert forall|x: A| t.to_multiset().count(x) == s.to_multiset().count(x) by {
        assert(t.to_set().contains(x) == s.to_set().contains(x));
        assert(t.contains(x) == s.contains(x));
    }
    assert(t.to_multiset() =~= s.to_multiset());
}

} // verus!
