//! Work spread over a thread pool, and sorting.
use rayon::iter::{IntoParallelIterator, ParallelIterator};
use rayon::slice::ParallelSliceMut;
use vstd::prelude::*;

verus! {

/// Whether numbers stand in ascending order.
pub open spec fn ascending(values: Seq<u64>) -> bool {
    forall|i: int, j: int| 0 <= i <= j < values.len() ==> values[i] <= values[j]
}

/// `rayon`'s parallel `map` over the range `0..count`, collected into a vector: item `i` of the
/// result is what the function returned for `i`, whichever thread called it.
#[verifier::external_body]
pub(crate) fn par_map<T: Send, F: Fn(usize) -> T + Sync + Send>(count: usize, f: F) -> (results:
    Vec<T>)
    requires
        forall|i: usize| i < count ==> #[trigger] call_requires(f, (i,)),
    ensures
        results@.len() == count,
        forall|i: usize|
            i < count ==> #[trigger] call_ensures(f, (i,), results@[i as int]),
{
    (0..count).into_par_iter().map(f).collect()
}

/// `rayon::current_num_threads`: the size of the current thread pool, which depends on the
/// machine.
#[verifier::external_body]
pub(crate) fn thread_count() -> (threads: usize) {
    rayon::current_num_threads()
}

/// `rayon`'s `par_sort_unstable` on numbers: the same numbers, in ascending order.
#[verifier::external_body]
pub(crate) fn par_sort(values: &mut Vec<u64>)
    ensures
        final(values)@.to_multiset() == old(values)@.to_multiset(),
        ascending(final(values)@),
{
    values.par_sort_unstable();
}

/// `slice::sort_unstable` on numbers: the same numbers, in ascending order.
#[verifier::external_body]
pub(crate) fn sort(values: &mut Vec<u64>)
    ensures
        final(values)@.to_multiset() == old(values)@.to_multiset(),
        ascending(final(values)@),
{
    values.sort_unstable();
}

/// A reordering holds the same numbers, and as many.
pub proof fn lemma_same_members(left: Seq<u64>, right: Seq<u64>)
    requires
        left.to_multiset() == right.to_multiset(),
    ensures
        left.len() == right.len(),
        forall|value: u64| left.contains(value) <==> right.contains(value),
{
    broadcast use vstd::seq_lib::group_to_multiset_ensures;

    assert(left.to_multiset().len() == left.len());
    assert(right.to_multiset().len() == right.len());
    assert forall|value: u64| left.contains(value) <==> right.contains(value) by {
        assert(left.contains(value) <==> left.to_multiset().count(value) > 0);
        assert(right.contains(value) <==> right.to_multiset().count(value) > 0);
    }
}

} // verus!
