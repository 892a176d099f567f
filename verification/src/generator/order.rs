//! Stable ordering by time

use vstd::prelude::*;
use vstd::relations::{sorted_by, total_ordering};
use vstd::seq_lib::{lemma_multiset_commutative, lemma_sorted_unique, to_multiset_build};

verus! {

/// The instant at index `k` of `times`; the epoch outside of it.
pub open spec fn time_at(times: Seq<int>, k: int) -> int {
    if 0 <= k < times.len() {
        times[k]
    } else {
        0
    }
}

/// Whether the sample at index `a` comes no later in time order than the one
/// at index `b`: it is earlier, or as early and not behind it in the batch.
pub open spec fn not_after(times: Seq<int>, a: int, b: int) -> bool {
    time_at(times, a) < time_at(times, b) || (time_at(times, a) == time_at(times, b) && a <= b)
}

/// [`not_after`] as a relation on indices.
pub open spec fn by_time(times: Seq<int>) -> spec_fn(int, int) -> bool {
    |a: int, b: int| not_after(times, a, b)
}

/// The indices `lo`, `lo + 1`, .., `hi - 1`.
pub open spec fn index_range(lo: int, hi: int) -> Seq<int> {
    Seq::new((hi - lo) as nat, |i: int| lo + i)
}

/// The indices of `times` in time order: ascending by instant, samples of one
/// instant in the order of the batch.
pub open spec fn time_order(times: Seq<int>) -> Seq<int> {
    index_range(0, times.len() as int).sort_by(by_time(times))
}

/// Indices as mathematical integers.
pub open spec fn as_ints(indices: Seq<usize>) -> Seq<int> {
    indices.map_values(|k: usize| k as int)
}

/// Instants as mathematical integers.
pub open spec fn instants(times: Seq<i128>) -> Seq<int> {
    times.map_values(|t: i128| t as int)
}

/// Time order with ties broken by position is a total order of the indices.
pub proof fn lemma_by_time_total(times: Seq<int>)
    ensures
        total_ordering(by_time(times)),
{
    let leq = by_time(times);
    assert forall|a: int, b: int, c: int| #[trigger] leq(a, b) && #[trigger] leq(b, c) implies leq(
        a,
        c,
    ) by {}
    assert forall|a: int, b: int| #[trigger] leq(a, b) && #[trigger] leq(b, a) implies a == b by {}
    assert forall|a: int, b: int| #[trigger] leq(a, b) || #[trigger] leq(b, a) by {}
    assert forall|a: int| #[trigger] leq(a, a) by {}
}

/// What [`time_order`] is: every index of the batch exactly once, instants
/// never decreasing, and samples of one instant in their batch order.
pub proof fn lemma_time_order(times: Seq<int>)
    ensures
        time_order(times).len() == times.len(),
        time_order(times).no_duplicates(),
        forall|i: int|
            0 <= i < times.len() ==> 0 <= #[trigger] time_order(times)[i] < times.len(),
        forall|k: int| 0 <= k < times.len() ==> time_order(times).contains(k),
        forall|i: int, j: int|
            0 <= i < j < times.len() ==> {
                let a = #[trigger] time_order(times)[i];
                let b = #[trigger] time_order(times)[j];
                times[a] < times[b] || (times[a] == times[b] && a < b)
            },
{
    broadcast use vstd::seq_lib::group_to_multiset_ensures;

    let all = index_range(0, times.len() as int);
    let order = time_order(times);
    lemma_by_time_total(times);
    all.lemma_sort_by_ensures(by_time(times));
    assert(order.len() == all.len()) by {
        assert(order.to_multiset().len() == all.to_multiset().len());
    }
    assert forall|i: int| 0 <= i < order.len() implies 0 <= #[trigger] order[i] < times.len() by {
        assert(order.to_multiset().count(order[i]) > 0);
        assert(all.contains(order[i]));
    }
    assert forall|k: int| 0 <= k < times.len() implies order.contains(k) by {
        assert(all[k] == k);
        assert(all.to_multiset().count(k) > 0);
    }
    assert(all.no_duplicates());
    all.lemma_multiset_has_no_duplicates();
    order.lemma_multiset_has_no_duplicates_conv();
    assert forall|i: int, j: int| 0 <= i < j < times.len() implies {
        let a = #[trigger] order[i];
        let b = #[trigger] order[j];
        times[a] < times[b] || (times[a] == times[b] && a < b)
    } by {
        assert(by_time(times)(order[i], order[j]));
        assert(order[i] != order[j]);
    }
}

/// [`time_order`] is the only such order: indices of the batch, as many as it
/// has samples, each later in time than the one before it or as late and
/// behind it in the batch, are the indices in time order.
pub proof fn lemma_time_order_unique(order: Seq<int>, times: Seq<int>)
    requires
        order.len() == times.len(),
        forall|i: int| 0 <= i < order.len() ==> 0 <= #[trigger] order[i] < times.len(),
        forall|i: int, j: int|
            0 <= i < j < order.len() ==> {
                let a = #[trigger] order[i];
                let b = #[trigger] order[j];
                times[a] < times[b] || (times[a] == times[b] && a < b)
            },
    ensures
        order == time_order(times),
{
    broadcast use vstd::seq_lib::group_to_multiset_ensures;

    let n = times.len() as int;
    let all = index_range(0, n);
    let range = vstd::set_lib::set_int_range(0, n);
    assert(order.no_duplicates());
    assert(all.no_duplicates());
    order.unique_seq_to_set();
    vstd::set_lib::lemma_int_range(0, n);
    assert(order.to_set().subset_of(range));
    vstd::set_lib::lemma_len_subset(order.to_set(), range);
    vstd::set_lib::lemma_subset_equality(order.to_set(), range);
    order.lemma_multiset_has_no_duplicates();
    all.lemma_multiset_has_no_duplicates();
    assert forall|k: int| order.to_multiset().count(k) == all.to_multiset().count(k) by {
        if 0 <= k < n {
            assert(range.contains(k));
            assert(order.to_set().contains(k));
            assert(order.contains(k));
            assert(all[k] == k);
            assert(all.contains(k));
        } else {
            assert(!order.contains(k));
            assert(!all.contains(k));
        }
    }
    assert(order.to_multiset() =~= all.to_multiset());
    lemma_by_time_total(times);
    all.lemma_sort_by_ensures(by_time(times));
    assert(sorted_by(order, by_time(times)));
    lemma_sorted_unique(order, time_order(times), by_time(times));
}

/// Two runs of indices, each in time order and every index of the first
/// smaller than every index of the second, as one run in time order.
fn merge(times: &Vec<i128>, left: &Vec<usize>, right: &Vec<usize>) -> (out: Vec<usize>)
    requires
        forall|i: int| 0 <= i < left.len() ==> left[i] < times.len(),
        forall|j: int| 0 <= j < right.len() ==> right[j] < times.len(),
        forall|i: int, j: int| 0 <= i < left.len() && 0 <= j < right.len() ==> left[i] < right[j],
        sorted_by(as_ints(left@), by_time(instants(times@))),
        sorted_by(as_ints(right@), by_time(instants(times@))),
        left.len() + right.len() <= usize::MAX,
    ensures
        out.len() == left.len() + right.len(),
        forall|k: int| 0 <= k < out.len() ==> out[k] < times.len(),
        forall|k: int|
            0 <= k < out.len() ==> left@.contains(#[trigger] out[k]) || right@.contains(out[k]),
        sorted_by(as_ints(out@), by_time(instants(times@))),
        as_ints(out@).to_multiset() =~= as_ints(left@).to_multiset().add(
            as_ints(right@).to_multiset(),
        ),
{
    broadcast use {vstd::seq_lib::group_to_multiset_ensures, vstd::multiset::group_multiset_axioms};

    let ghost leq = by_time(instants(times@));
    let ghost ls = as_ints(left@);
    let ghost rs = as_ints(right@);
    let mut out: Vec<usize> = Vec::new();
    let mut i: usize = 0;
    let mut j: usize = 0;
    proof {
        assert(ls.take(0) =~= Seq::<int>::empty());
        assert(rs.take(0) =~= Seq::<int>::empty());
        assert(as_ints(out@) =~= Seq::<int>::empty());
    }
    while i < left.len() || j < right.len()
        invariant
            i <= left.len(),
            j <= right.len(),
            out.len() == i + j,
            leq == by_time(instants(times@)),
            ls == as_ints(left@),
            rs == as_ints(right@),
            forall|i: int| 0 <= i < left.len() ==> left[i] < times.len(),
            forall|j: int| 0 <= j < right.len() ==> right[j] < times.len(),
            forall|i: int, j: int|
                0 <= i < left.len() && 0 <= j < right.len() ==> left[i] < right[j],
            sorted_by(ls, leq),
            sorted_by(rs, leq),
            forall|k: int| 0 <= k < out.len() ==> out[k] < times.len(),
            forall|k: int|
                0 <= k < out.len() ==> left@.contains(#[trigger] out[k]) || right@.contains(
                    out[k],
                ),
            sorted_by(as_ints(out@), leq),
            as_ints(out@).to_multiset() =~= ls.take(i as int).to_multiset().add(
                rs.take(j as int).to_multiset(),
            ),
            forall|k: int|
                0 <= k < out.len() ==> (i < left.len() ==> leq(
                    #[trigger] as_ints(out@)[k],
                    ls[i as int],
                )) && (j < right.len() ==> leq(as_ints(out@)[k], rs[j as int])),
        decreases left.len() - i + right.len() - j,
    {
        let from_left: bool = if j == right.len() {
            true
        } else if i == left.len() {
            false
        } else {
            times[left[i]] <= times[right[j]]
        };
        let ghost before = as_ints(out@);
        if from_left {
            let x: usize = left[i];
            out.push(x);
            proof {
                assert(as_ints(out@) =~= before.push(x as int));
                assert(ls.take(i + 1) =~= ls.take(i as int).push(x as int));
                to_multiset_build(before, x as int);
                to_multiset_build(ls.take(i as int), x as int);
                assert(ls[i as int] == x as int);
                if j < right.len() {
                    assert(leq(x as int, rs[j as int]));
                }
                if i + 1 < left.len() {
                    assert(leq(ls[i as int], ls[i + 1]));
                }
            }
            i = i + 1;
        } else {
            let y: usize = right[j];
            out.push(y);
            proof {
                assert(as_ints(out@) =~= before.push(y as int));
                assert(rs.take(j + 1) =~= rs.take(j as int).push(y as int));
                to_multiset_build(before, y as int);
                to_multiset_build(rs.take(j as int), y as int);
                assert(rs[j as int] == y as int);
                if i < left.len() {
                    assert(leq(y as int, ls[i as int]));
                }
                if j + 1 < right.len() {
                    assert(leq(rs[j as int], rs[j + 1]));
                }
            }
            j = j + 1;
        }
    }
    proof {
        assert(ls.take(i as int) =~= ls);
        assert(rs.take(j as int) =~= rs);
    }
    out
}

/// The indices `lo..hi` in time order.
fn order_range(times: &Vec<i128>, lo: usize, hi: usize) -> (out: Vec<usize>)
    requires
        lo <= hi <= times.len(),
    ensures
        out.len() == hi - lo,
        forall|k: int| 0 <= k < out.len() ==> lo <= #[trigger] out[k] < hi,
        sorted_by(as_ints(out@), by_time(instants(times@))),
        as_ints(out@).to_multiset() =~= index_range(lo as int, hi as int).to_multiset(),
    decreases hi - lo,
{
    broadcast use vstd::seq_lib::group_to_multiset_ensures;

    let mut out: Vec<usize> = Vec::new();
    if hi - lo == 0 {
        proof {
            assert(as_ints(out@) =~= index_range(lo as int, hi as int));
        }
        out
    } else if hi - lo == 1 {
        out.push(lo);
        proof {
            assert(as_ints(out@) =~= index_range(lo as int, hi as int));
        }
        out
    } else {
        let mid: usize = lo + (hi - lo) / 2;
        let left = order_range(times, lo, mid);
        let right = order_range(times, mid, hi);
        let merged = merge(times, &left, &right);
        proof {
            let a = index_range(lo as int, mid as int);
            let b = index_range(mid as int, hi as int);
            assert(index_range(lo as int, hi as int) =~= a + b);
            lemma_multiset_commutative(a, b);
        }
        merged
    }
}

/// The indices of `times` in time order.
pub fn time_sorted_indices(times: &Vec<i128>) -> (order: Vec<usize>)
    ensures
        as_ints(order@) == time_order(instants(times@)),
        order.len() == times.len(),
        forall|k: int| 0 <= k < order.len() ==> order[k] < times.len(),
{
    let order = order_range(times, 0, times.len());
    proof {
        let t = instants(times@);
        let all = index_range(0, t.len() as int);
        lemma_by_time_total(t);
        all.lemma_sort_by_ensures(by_time(t));
        lemma_sorted_unique(as_ints(order@), time_order(t), by_time(t));
    }
    order
}

} // verus!
