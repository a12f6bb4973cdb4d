//! Sparse sets of rows.
use vstd::prelude::*;

use hi_sparse_bitset::config::_128bit;
use hi_sparse_bitset::BitSet;

verus! {

/// How many rows a set can tell apart.
pub const SET_ROWS: usize = 2_097_152;

/// A sparse set of row numbers below [`SET_ROWS`].
#[verifier::external_body]
pub struct RowSet {
    bits: BitSet<_128bit>,
}

/// The rows of a set.
pub uninterp spec fn rows_held(set: RowSet) -> Set<usize>;

/// `hi_sparse_bitset::BitSet::new`: a set without rows.
#[verifier::external_body]
pub(crate) fn empty_row_set() -> (set: RowSet)
    ensures
        rows_held(set) == Set::<usize>::empty(),
{
    RowSet { bits: BitSet::new() }
}

/// `hi_sparse_bitset::BitSet::insert`: the row is in the set afterwards, and the others are as they
/// were. The outside function panics on a row that is too large for its configuration.
#[verifier::external_body]
pub(crate) fn insert_row(set: &mut RowSet, row: usize)
    requires
        row < SET_ROWS,
    ensures
        rows_held(*final(set)) == rows_held(*old(set)).insert(row),
{
    set.bits.insert(row);
}

/// `hi_sparse_bitset::BitSet::iter`: the rows of the set, each once, in ascending order, all below
/// the largest that its configuration takes.
#[verifier::external_body]
pub(crate) fn rows_in(set: &RowSet) -> (rows: Vec<usize>)
    ensures
        forall|i: int, j: int| 0 <= i < j < rows@.len() ==> rows@[i] < rows@[j],
        forall|i: int| 0 <= i < rows@.len() ==> #[trigger] rows@[i] < SET_ROWS,
        rows@.to_set() == rows_held(*set),
{
    set.bits.iter().collect()
}

} // verus!
