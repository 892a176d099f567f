//! Sequences that hold the same elements in another order

use vstd::prelude::*;
use vstd::seq_lib::{
    to_multiset_build, to_multiset_contains, to_multiset_insert, to_multiset_len,
    to_multiset_remove,
};

verus! {

/// Sequences of the same elements have the same elements.
pub proof fn lemma_same_elements<A>(x: Seq<A>, y: Seq<A>)
    requires
        x.to_multiset() == y.to_multiset(),
    ensures
        x.len() == y.len(),
        forall|e: A| x.contains(e) <==> y.contains(e),
{
    to_multiset_len(x);
    to_multiset_len(y);
    assert forall|e: A| x.contains(e) <==> y.contains(e) by {
        to_multiset_contains(x, e);
        to_multiset_contains(y, e);
    }
}

/// What is made of each element of a sequence does not go by the order of
/// the sequence: sequences of the same elements, however ordered, give the
/// same values, which may stand in another order.
pub proof fn lemma_map_rearranged<A, B>(x: Seq<A>, y: Seq<A>, g: spec_fn(A) -> B)
    requires
        x.to_multiset() == y.to_multiset(),
    ensures
        x.map_values(g).to_multiset() == y.map_values(g).to_multiset(),
    decreases x.len(),
{
    broadcast use {vstd::seq_lib::group_to_multiset_ensures, vstd::multiset::group_multiset_axioms};

    lemma_same_elements(x, y);
    if x.len() == 0 {
        assert(x.map_values(g) =~= y.map_values(g));
    } else {
        let e = x.last();
        let rest = x.drop_last();
        assert(x.contains(e)) by {
            assert(x[x.len() - 1] == e);
        }
        let j = choose|j: int| 0 <= j < y.len() && y[j] == e;
        let other = y.remove(j);
        assert(rest.push(e) =~= x);
        to_multiset_build(rest, e);
        to_multiset_remove(y, j);
        assert(rest.to_multiset() =~= x.to_multiset().remove(e));
        assert(rest.to_multiset() == other.to_multiset());
        lemma_map_rearranged(rest, other, g);
        assert(x.map_values(g) =~= rest.map_values(g).push(g(e)));
        assert(y.map_values(g) =~= other.map_values(g).insert(j, g(e)));
        to_multiset_build(rest.map_values(g), g(e));
        to_multiset_insert(other.map_values(g), j, g(e));
    }
}

/// What a filter keeps does not go by the order of the sequence: the elements
/// that it keeps are, as a multiset, those of the sequence that pass it.
pub proof fn lemma_filter_rearranged<A>(s: Seq<A>, f: spec_fn(A) -> bool)
    ensures
        s.filter(f).to_multiset() =~= s.to_multiset().filter(f),
    decreases s.len(),
{
    broadcast use vstd::multiset::group_multiset_axioms;

    if s.len() == 0 {
        reveal(Seq::filter);
        s.to_multiset_ensures();
        assert(s.filter(f) =~= s);
        assert(s.to_multiset() =~= vstd::multiset::Multiset::empty());
    } else {
        let init = s.drop_last();
        let x = s.last();
        assert(init.push(x) =~= s);
        lemma_filter_rearranged(init, f);
        init.lemma_filter_push(x, f);
        to_multiset_build(init, x);
        if f(x) {
            to_multiset_build(init.filter(f), x);
        }
    }
}

} // verus!
