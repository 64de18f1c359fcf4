//! Sorting latency samples into ascending order.

use vstd::multiset::*;
use vstd::prelude::*;
use vstd::relations::{sorted_by, total_ordering};
use vstd::seq_lib::*;

verus! {

/// The order in which latencies are compared.
pub open spec fn leq() -> spec_fn(u32, u32) -> bool {
    |a: u32, b: u32| a <= b
}

/// The samples in ascending order.
pub open spec fn ascending(s: Seq<u32>) -> Seq<u32> {
    s.sort_by(leq())
}

/// No element of `s` is larger than one that follows it.
pub open spec fn is_ascending(s: Seq<u32>) -> bool {
    forall|i: int, j: int| 0 <= i <= j < s.len() ==> s[i] <= s[j]
}

/// `ascending` keeps every sample, as often as it occurred, and puts them in
/// order.
pub proof fn lemma_ascending(s: Seq<u32>)
    ensures
        is_ascending(ascending(s)),
        ascending(s).to_multiset() == s.to_multiset(),
        ascending(s).len() == s.len(),
{
    assert(total_ordering(leq()));
    s.lemma_sort_by_ensures(leq());
    let a = ascending(s);
    assert(sorted_by(a, leq()));
    assert forall|i: int, j: int| 0 <= i <= j < a.len() implies a[i] <= a[j] by {
        if i < j {
            assert(leq()(a[i], a[j]));
        }
    }
    to_multiset_len(a);
    to_multiset_len(s);
}

/// There is only one way to put given samples in ascending order.
pub proof fn lemma_ascending_unique(sorted: Seq<u32>, s: Seq<u32>)
    requires
        is_ascending(sorted),
        sorted.to_multiset() == s.to_multiset(),
    ensures
        sorted == ascending(s),
{
    assert(total_ordering(leq()));
    s.lemma_sort_by_ensures(leq());
    assert(sorted_by(sorted, leq())) by {
        assert forall|i: int, j: int| 0 <= i < j < sorted.len() implies #[trigger] leq()(
            sorted[i],
            sorted[j],
        ) by {}
    }
    lemma_sorted_unique(sorted, ascending(s), leq());
}

/// The order of the samples does not matter to `ascending`.
pub proof fn lemma_ascending_permutation(s: Seq<u32>, t: Seq<u32>)
    requires
        s.to_multiset() == t.to_multiset(),
    ensures
        ascending(s) == ascending(t),
{
    lemma_ascending(s);
    lemma_ascending_unique(ascending(s), t);
}

/// Merges two ascending runs into one.
fn merge(left: &Vec<u32>, right: &Vec<u32>) -> (out: Vec<u32>)
    requires
        is_ascending(left@),
        is_ascending(right@),
        left.len() + right.len() <= usize::MAX,
    ensures
        is_ascending(out@),
        out@.to_multiset() == left@.to_multiset().add(right@.to_multiset()),
        out.len() == left.len() + right.len(),
{
    broadcast use group_multiset_axioms;

    let mut out: Vec<u32> = Vec::new();
    let mut i: usize = 0;
    let mut j: usize = 0;
    proof {
        let none = Seq::<u32>::empty();
        assert(left@.take(0) =~= none);
        assert(right@.take(0) =~= none);
        assert(out@ =~= none + none);
        lemma_multiset_commutative(none, none);
    }
    while i < left.len() || j < right.len()
        invariant
            i <= left.len(),
            j <= right.len(),
            out.len() == i + j,
            left.len() + right.len() <= usize::MAX,
            is_ascending(left@),
            is_ascending(right@),
            is_ascending(out@),
            out@.to_multiset() == left@.take(i as int).to_multiset().add(
                right@.take(j as int).to_multiset(),
            ),
            forall|k: int| 0 <= k < out.len() && i < left.len() ==> out[k] <= left[i as int],
            forall|k: int| 0 <= k < out.len() && j < right.len() ==> out[k] <= right[j as int],
        decreases left.len() - i + right.len() - j,
    {
        let from_left: bool = if i >= left.len() {
            false
        } else if j >= right.len() {
            true
        } else {
            left[i] <= right[j]
        };
        let ghost before = out@;
        if from_left {
            let x: u32 = left[i];
            out.push(x);
            proof {
                assert(out@ =~= before.push(x));
                to_multiset_build(before, x);
                assert(left@.take(i + 1) =~= left@.take(i as int).push(x));
                to_multiset_build(left@.take(i as int), x);
                assert(out@.to_multiset() =~= left@.take(i + 1).to_multiset().add(
                    right@.take(j as int).to_multiset(),
                ));
            }
            i += 1;
        } else {
            let x: u32 = right[j];
            out.push(x);
            proof {
                assert(out@ =~= before.push(x));
                to_multiset_build(before, x);
                assert(right@.take(j + 1) =~= right@.take(j as int).push(x));
                to_multiset_build(right@.take(j as int), x);
                assert(out@.to_multiset() =~= left@.take(i as int).to_multiset().add(
                    right@.take(j + 1).to_multiset(),
                ));
            }
            j += 1;
        }
    }
    assert(left@.take(i as int) =~= left@);
    assert(right@.take(j as int) =~= right@);
    out
}

/// Sorts the samples `v[lo..hi]` into a vector of their own.
fn sort_range(v: &Vec<u32>, lo: usize, hi: usize) -> (out: Vec<u32>)
    requires
        lo <= hi <= v.len(),
    ensures
        is_ascending(out@),
        out@.to_multiset() == v@.subrange(lo as int, hi as int).to_multiset(),
        out.len() == hi - lo,
    decreases hi - lo,
{
    if hi - lo <= 1 {
        let mut out: Vec<u32> = Vec::new();
        if lo < hi {
            out.push(v[lo]);
            assert(out@ =~= v@.subrange(lo as int, hi as int));
        } else {
            assert(out@ =~= v@.subrange(lo as int, hi as int));
        }
        out
    } else {
        let mid: usize = lo + (hi - lo) / 2;
        let left = sort_range(v, lo, mid);
        let right = sort_range(v, mid, hi);
        proof {
            let a = v@.subrange(lo as int, mid as int);
            let b = v@.subrange(mid as int, hi as int);
            assert(v@.subrange(lo as int, hi as int) =~= a + b);
            lemma_multiset_commutative(a, b);
        }
        merge(&left, &right)
    }
}

/// Returns the samples in ascending order, leaving `samples` as it is.
pub fn sorted_copy(samples: &Vec<u32>) -> (out: Vec<u32>)
    ensures
        out@ == ascending(samples@),
        out.len() == samples.len(),
{
    let out = sort_range(samples, 0, samples.len());
    proof {
        assert(samples@.subrange(0, samples.len() as int) =~= samples@);
        lemma_ascending_unique(out@, samples@);
    }
    out
}

} // verus!
