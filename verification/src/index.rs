//! An index from the values of a column to the rows that hold them.
use vstd::layout;
use vstd::prelude::*;

use crate::pairs;
use crate::pairs::{pack_tuple, unpack_tuple};
use crate::parallel;
use crate::parallel::sort;
use crate::sorted;
use crate::storage;
use crate::storage::{Column, Error, ManagedBuffer};

verus! {

/// The rows among the first `count` of a column that hold a value, in ascending order.
pub open spec fn rows_holding(values: Seq<u32>, key: u32, count: int) -> Seq<u32>
    decreases count,
{
    if count <= 0 {
        Seq::empty()
    } else if values[count - 1] == key {
        rows_holding(values, key, count - 1).push((count - 1) as u32)
    } else {
        rows_holding(values, key, count - 1)
    }
}

/// The rows of a column that hold a value, in ascending order.
pub open spec fn matching_rows(values: Seq<u32>, key: u32) -> Seq<u32> {
    rows_holding(values, key, values.len() as int)
}

proof fn lemma_rows_holding(values: Seq<u32>, key: u32, count: int)
    requires
        0 <= count <= values.len() <= u32::MAX,
    ensures
        sorted::ascending(rows_holding(values, key, count)),
        forall|r: u32| #[trigger]
            rows_holding(values, key, count).contains(r) <==> r < count && values[r as int] == key,
    decreases count,
{
    if count > 0 {
        lemma_rows_holding(values, key, count - 1);
        let earlier = rows_holding(values, key, count - 1);
        let all = rows_holding(values, key, count);
        assert forall|i: int, j: int| 0 <= i < j < all.len() implies all[i] < all[j] by {
            if j == earlier.len() {
                assert(earlier.contains(earlier[i]));
            }
        }
        assert forall|r: u32| #[trigger] all.contains(r) <==> r < count && values[r as int]
            == key by {
            assert(earlier.contains(r) <==> r < count - 1 && values[r as int] == key);
            vstd::seq_lib::lemma_seq_contains_after_push(earlier, (count - 1) as u32, r);
        }
    }
}

/// The rows that hold a value are listed once each, in ascending order.
pub proof fn lemma_matching_rows(values: Seq<u32>, key: u32)
    requires
        values.len() <= u32::MAX,
    ensures
        sorted::ascending(matching_rows(values, key)),
        forall|r: u32| #[trigger]
            matching_rows(values, key).contains(r) <==> r < values.len() && values[r as int] == key,
{
    lemma_rows_holding(values, key, values.len() as int);
}

/// A sparse index from values to ascending lists of rows, held one after the other.
pub struct U32RangeIndex {
    keys: ManagedBuffer<u32>,
    starts: ManagedBuffer<u32>,
    rows: ManagedBuffer<u32>,
    source_rows: usize,
}

/// Where a key stands in an ascending list.
pub open spec fn key_position(keys: Seq<u32>, key: u32) -> Option<int> {
    if keys.contains(key) {
        Some(keys.index_of(key))
    } else {
        None
    }
}

/// The rows of a key.
pub open spec fn key_rows(keys: Seq<u32>, starts: Seq<u32>, rows: Seq<u32>, key: u32) -> Seq<u32> {
    match key_position(keys, key) {
        Some(i) => rows.subrange(starts[i] as int, starts[i + 1] as int),
        None => Seq::empty(),
    }
}

/// Whether lists make up an index of a column with `count` rows.
pub open spec fn is_index(keys: Seq<u32>, starts: Seq<u32>, rows: Seq<u32>, count: nat) -> bool {
    &&& count <= u32::MAX
    &&& sorted::ascending(keys)
    &&& starts.len() == keys.len() + 1
    &&& forall|i: int, j: int| 0 <= i <= j < starts.len() ==> starts[i] <= starts[j]
    &&& starts[0] == 0
    &&& starts.last() == rows.len()
    &&& rows.len() == count
    &&& forall|i: int| 0 <= i < rows.len() ==> (#[trigger] rows[i]) < count
}

/// Packed rows of a column: the value and the row.
spec fn tagged(values: Seq<u32>) -> Seq<u64> {
    Seq::new(values.len(), |i: int| pairs::packed((values[i], i as u32)))
}

proof fn lemma_tagged_sorted(values: Seq<u32>, ordered: Seq<u64>)
    requires
        values.len() <= u32::MAX,
        ordered.to_multiset() == tagged(values).to_multiset(),
        parallel::ascending(ordered),
    ensures
        ordered.len() == values.len(),
        pairs::strictly_ascending(ordered),
        forall|p: int|
            0 <= p < ordered.len() ==> {
                let pair = pairs::unpacked(#[trigger] ordered[p]);
                pair.1 < values.len() && pair.0 == values[pair.1 as int]
            },
        forall|r: int|
            0 <= r < values.len() ==> ordered.contains(
                pairs::packed((#[trigger] values[r], r as u32)),
            ),
{
    let all = tagged(values);
    parallel::lemma_same_members(ordered, all);
    assert(all.no_duplicates()) by {
        assert forall|i: int, j: int|
            0 <= i < all.len() && 0 <= j < all.len() && i != j implies all[i] != all[j] by {
            pairs::law_packing((values[i], i as u32), (values[j], j as u32));
        }
    }
    all.lemma_multiset_has_no_duplicates();
    ordered.lemma_multiset_has_no_duplicates_conv();
    assert forall|i: int, j: int| 0 <= i < j < ordered.len() implies ordered[i] < ordered[j] by {
        assert(ordered[i] <= ordered[j]);
        assert(ordered[i] != ordered[j]);
    }
    assert forall|p: int| 0 <= p < ordered.len() implies {
        let pair = pairs::unpacked(#[trigger] ordered[p]);
        pair.1 < values.len() && pair.0 == values[pair.1 as int]
    } by {
        assert(ordered.contains(ordered[p]));
        let r = choose|r: int| 0 <= r < all.len() && all[r] == ordered[p];
        pairs::law_packing((values[r], r as u32), (values[r], r as u32));
    }
    assert forall|r: int| 0 <= r < values.len() implies ordered.contains(
        pairs::packed((#[trigger] values[r], r as u32)),
    ) by {
        assert(all[r] == pairs::packed((values[r], r as u32)));
        assert(all.contains(all[r]));
    }
}

/// Whether a position lies in the run of a key: from its start to the next one.
spec fn in_run(ordered: Seq<u64>, keys: Seq<u32>, starts: Seq<u32>, k: int, p: int) -> bool {
    &&& 0 <= k < keys.len()
    &&& pairs::unpacked(ordered[p]).0 == keys[k]
    &&& starts[k] <= p
    &&& k + 1 < keys.len() ==> p < starts[k + 1]
}

/// Whether runs of equal values were found in sorted packed rows, and every position lies in the
/// run that is given for it.
#[verifier::opaque]
spec fn are_runs(
    ordered: Seq<u64>,
    keys: Seq<u32>,
    starts: Seq<u32>,
    runs: Seq<int>,
    count: int,
) -> bool {
    &&& sorted::ascending(keys)
    &&& starts.len() == keys.len()
    &&& runs.len() == count
    &&& count > 0 <==> keys.len() > 0
    &&& forall|i: int, j: int| 0 <= i < j < starts.len() ==> starts[i] < starts[j]
    &&& forall|k: int| 0 <= k < starts.len() ==> (#[trigger] starts[k]) < count
    &&& forall|p: int| 0 <= p < count ==> in_run(ordered, keys, starts, #[trigger] runs[p], p)
}

/// A position between the start of a key and the next one lies in the run of that key.
proof fn lemma_run_of(
    ordered: Seq<u64>,
    keys: Seq<u32>,
    starts: Seq<u32>,
    runs: Seq<int>,
    count: int,
    k: int,
    p: int,
)
    requires
        are_runs(ordered, keys, starts, runs, count),
        0 <= p < count,
        0 <= k < keys.len(),
        starts[k] <= p,
        k + 1 < keys.len() ==> p < starts[k + 1],
    ensures
        runs[p] == k,
        pairs::unpacked(ordered[p]).0 == keys[k],
{
    reveal(are_runs);
    let other = runs[p];
    assert(in_run(ordered, keys, starts, runs[p], p));
    if other < k {
        assert(other + 1 <= k);
        if other + 1 < k {
            assert(starts[other + 1] < starts[k]);
        }
    } else if k < other {
        if k + 1 < other {
            assert(starts[k + 1] < starts[other]);
        }
    }
}

/// What the runs of sorted packed rows say of one key.
proof fn lemma_key_rows(
    values: Seq<u32>,
    ordered: Seq<u64>,
    keys: Seq<u32>,
    starts: Seq<u32>,
    runs: Seq<int>,
    rows: Seq<u32>,
    key: u32,
)
    requires
        values.len() <= u32::MAX,
        ordered.to_multiset() == tagged(values).to_multiset(),
        parallel::ascending(ordered),
        are_runs(ordered, keys, starts, runs, ordered.len() as int),
        rows == Seq::new(ordered.len(), |p: int| pairs::unpacked(ordered[p]).1),
    ensures
        key_rows(keys, starts.push(values.len() as u32), rows, key) == matching_rows(values, key),
        keys.contains(key) <==> values.contains(key),
{
    lemma_tagged_sorted(values, ordered);
    lemma_rows_holding(values, key, values.len() as int);
    let ends = starts.push(values.len() as u32);
    let found = key_rows(keys, ends, rows, key);
    let expected = matching_rows(values, key);
    let count = ordered.len() as int;
    assert(starts.len() == keys.len() && sorted::ascending(keys)) by {
        reveal(are_runs);
    }
    assert forall|r: u32| expected.contains(r) implies keys.contains(key) && found.contains(r) by {
        assert(values[r as int] == key);
        assert(ordered.contains(pairs::packed((values[r as int], r))));
        let p = choose|p: int|
            0 <= p < ordered.len() && ordered[p] == pairs::packed((values[r as int], r));
        pairs::law_packing((key, r), (key, r));
        let run = runs[p];
        assert(in_run(ordered, keys, starts, runs[p], p)) by {
            reveal(are_runs);
        }
        assert(keys[run] == key);
        let k = keys.index_of(key);
        assert(run == k) by {
            if run < k {
                assert(keys[run] < keys[k]);
            } else if k < run {
                assert(keys[k] < keys[run]);
            }
        }
        assert(ends[k] == starts[k]);
        assert(p < ends[k + 1]);
        assert(rows[p] == r);
        lemma_ends_in_order(ordered, keys, starts, runs, values.len(), k);
        assert(found[p - ends[k]] == r);
    }
    if keys.contains(key) {
        let k = keys.index_of(key);
        lemma_ends_in_order(ordered, keys, starts, runs, values.len(), k);
        assert forall|i: int| 0 <= i < found.len() implies expected.contains(
            #[trigger] found[i],
        ) by {
            let p = ends[k] + i;
            lemma_run_of(ordered, keys, starts, runs, count, k, p);
            let pair = pairs::unpacked(ordered[p]);
            assert(pair.1 < values.len() && pair.0 == values[pair.1 as int]);
            assert(found[i] == pair.1);
        }
        assert forall|i: int, j: int| 0 <= i < j < found.len() implies found[i] < found[j] by {
            let p = ends[k] + i;
            let q = ends[k] + j;
            lemma_run_of(ordered, keys, starts, runs, count, k, p);
            lemma_run_of(ordered, keys, starts, runs, count, k, q);
            assert(ordered[p] < ordered[q]);
            pairs::lemma_unpacked(ordered[p]);
            pairs::lemma_unpacked(ordered[q]);
            pairs::law_packing(pairs::unpacked(ordered[p]), pairs::unpacked(ordered[q]));
        }
        assert(found.len() > 0) by {
            reveal(are_runs);
        }
        assert(expected.contains(found[0]));
        assert(values[found[0] as int] == key);
    }
    assert forall|r: u32| found.contains(r) <==> expected.contains(r) by {
        if found.contains(r) {
            let i = choose|i: int| 0 <= i < found.len() && found[i] == r;
            assert(expected.contains(found[i]));
        }
    }
    if values.contains(key) {
        let r = choose|r: int| 0 <= r < values.len() && values[r] == key;
        assert(expected.contains(r as u32));
    }
    sorted::lemma_ascending_unique(found, expected);
}

/// The run of a key is not empty, and ends where the next one begins.
proof fn lemma_ends_in_order(
    ordered: Seq<u64>,
    keys: Seq<u32>,
    starts: Seq<u32>,
    runs: Seq<int>,
    count: nat,
    k: int,
)
    requires
        are_runs(ordered, keys, starts, runs, count as int),
        count <= u32::MAX,
        0 <= k < keys.len(),
    ensures
        starts.len() == keys.len(),
        starts[k] < starts.push(count as u32)[k + 1] <= count,
        k + 1 < keys.len() ==> starts.push(count as u32)[k + 1] == starts[k + 1],
{
    reveal(are_runs);
    if k + 1 < keys.len() {
        assert(starts[k] < starts[k + 1]);
    }
}

/// Runs of sorted packed rows make up the index of the column.
proof fn lemma_runs_index(
    values: Seq<u32>,
    ordered: Seq<u64>,
    keys: Seq<u32>,
    starts: Seq<u32>,
    runs: Seq<int>,
    rows: Seq<u32>,
)
    requires
        values.len() <= u32::MAX,
        ordered.to_multiset() == tagged(values).to_multiset(),
        parallel::ascending(ordered),
        are_runs(ordered, keys, starts, runs, ordered.len() as int),
        rows == Seq::new(ordered.len(), |p: int| pairs::unpacked(ordered[p]).1),
    ensures
        is_index(keys, starts.push(values.len() as u32), rows, values.len()),
        forall|key: u32| #[trigger]
            key_rows(keys, starts.push(values.len() as u32), rows, key) == matching_rows(
                values,
                key,
            ),
        keys.len() == values.to_set().len(),
{
    lemma_tagged_sorted(values, ordered);
    let ends = starts.push(values.len() as u32);
    assert forall|i: int| 0 <= i < rows.len() implies (#[trigger] rows[i]) < values.len() by {
        let pair = pairs::unpacked(ordered[i]);
        assert(pair.1 < values.len());
    }
    assert(is_index(keys, ends, rows, values.len())) by {
        reveal(are_runs);
        if ordered.len() > 0 {
            assert(in_run(ordered, keys, starts, runs[0], 0));
            assert(starts[0] == 0);
        }
    }
    assert forall|key: u32| #[trigger] key_rows(keys, ends, rows, key) == matching_rows(
        values,
        key,
    ) by {
        lemma_key_rows(values, ordered, keys, starts, runs, rows, key);
    }
    assert(keys.no_duplicates());
    keys.unique_seq_to_set();
    assert forall|key: u32| keys.to_set().contains(key) <==> values.to_set().contains(key) by {
        lemma_key_rows(values, ordered, keys, starts, runs, rows, key);
    }
    assert(keys.to_set() =~= values.to_set());
}

impl U32RangeIndex {
    /// The values of the column, in ascending order.
    pub closed spec fn key_list(&self) -> Seq<u32> {
        self.keys@
    }

    pub closed spec fn start_list(&self) -> Seq<u32> {
        self.starts@
    }

    pub closed spec fn row_list(&self) -> Seq<u32> {
        self.rows@
    }

    /// The number of rows of the column.
    pub closed spec fn count(&self) -> nat {
        self.source_rows as nat
    }

    pub open spec fn wf(&self) -> bool {
        is_index(self.key_list(), self.start_list(), self.row_list(), self.count())
    }

    /// The rows of a value.
    pub open spec fn postings(&self, key: u32) -> Seq<u32> {
        key_rows(self.key_list(), self.start_list(), self.row_list(), key)
    }

    /// Indexes a column.
    pub fn build(column: &Column) -> (result: Result<Self, Error>)
        ensures
            is_build(result, column@),
    {
        U32RangeIndex::build_slice(column.as_slice())
    }

    /// Indexes the values of a column.
    ///
    /// Fails if rows cannot be numbered in 32 bits, or if a list cannot be held.
    pub fn build_slice(values: &[u32]) -> (result: Result<Self, Error>)
        ensures
            is_build(result, values@),
    {
        broadcast use layout::layout_of_primitives;

        let source_rows: usize = values.len();
        if source_rows > u32::MAX as usize {
            return Err(Error::TooManyRows(source_rows));
        }
        let mut ordered: Vec<u64> = Vec::new();
        let mut i: usize = 0;
        while i < source_rows
            invariant
                i <= source_rows,
                source_rows == values@.len(),
                source_rows <= u32::MAX,
                ordered@ == tagged(values@).take(i as int),
            decreases source_rows - i,
        {
            ordered.push(pack_tuple(values[i], i as u32));
            i += 1;
            assert(ordered@ =~= tagged(values@).take(i as int));
        }
        assert(ordered@ =~= tagged(values@));
        sort(&mut ordered);
        proof {
            lemma_tagged_sorted(values@, ordered@);
        }
        let mut keys: Vec<u32> = Vec::new();
        let mut starts: Vec<u32> = Vec::new();
        let mut rows: Vec<u32> = Vec::new();
        let ghost mut runs: Seq<int> = Seq::empty();
        let mut position: usize = 0;
        assert(are_runs(ordered@, keys@, starts@, runs, 0)) by {
            reveal(are_runs);
        }
        while position < source_rows
            invariant
                position <= source_rows,
                source_rows == ordered@.len(),
                source_rows <= u32::MAX,
                parallel::ascending(ordered@),
                are_runs(ordered@, keys@, starts@, runs, position as int),
                rows@ == Seq::new(position as nat, |p: int| pairs::unpacked(ordered@[p]).1),
            decreases source_rows - position,
        {
            let pair = unpack_tuple(ordered[position]);
            let fresh = keys.len() == 0 || keys[keys.len() - 1] != pair.0;
            proof {
                if position > 0 {
                    lemma_last_run(
                        ordered@,
                        keys@,
                        starts@,
                        runs,
                        position as int,
                    );
                    assert(ordered@[position - 1] <= ordered@[position as int]);
                    pairs::lemma_unpacked(ordered@[position - 1]);
                    pairs::lemma_unpacked(ordered@[position as int]);
                    pairs::law_packing(
                        pairs::unpacked(ordered@[position as int]),
                        pairs::unpacked(ordered@[position - 1]),
                    );
                }
            }
            let ghost old_runs = runs;
            let ghost old_keys = keys@;
            let ghost old_starts = starts@;
            if fresh {
                keys.push(pair.0);
                starts.push(position as u32);
            }
            rows.push(pair.1);
            proof {
                runs = runs.push(keys@.len() - 1);
                assert(rows@ =~= Seq::new(
                    (position + 1) as nat,
                    |p: int| pairs::unpacked(ordered@[p]).1,
                ));
                lemma_runs_grow(
                    ordered@,
                    old_keys,
                    old_starts,
                    old_runs,
                    keys@,
                    starts@,
                    runs,
                    position as int,
                );
            }
            position += 1;
        }
        let ghost found = starts@;
        starts.push(source_rows as u32);
        proof {
            lemma_runs_index(values@, ordered@, keys@, found, runs, rows@);
            vstd::seq_lib::seq_to_set_is_finite(values@);
            values@.lemma_cardinality_of_set();
        }
        let rows = match ManagedBuffer::from_items(rows) {
            Ok(rows) => rows,
            Err(error) => {
                return Err(error);
            },
        };
        let starts = match ManagedBuffer::from_items(starts) {
            Ok(starts) => starts,
            Err(error) => {
                return Err(error);
            },
        };
        let keys = match ManagedBuffer::from_items(keys) {
            Ok(keys) => keys,
            Err(error) => {
                return Err(error);
            },
        };
        Ok(U32RangeIndex { keys, starts, rows, source_rows })
    }

    pub fn source_rows(&self) -> (rows: usize)
        ensures
            rows == self.count(),
    {
        self.source_rows
    }

    pub fn unique_keys(&self) -> (keys: usize)
        ensures
            keys == self.key_list().len(),
    {
        self.keys.len()
    }

    pub fn keys(&self) -> (keys: &ManagedBuffer<u32>)
        ensures
            keys@ == self.key_list(),
    {
        &self.keys
    }

    pub fn starts(&self) -> (starts: &ManagedBuffer<u32>)
        ensures
            starts@ == self.start_list(),
    {
        &self.starts
    }

    pub fn rows(&self) -> (rows: &ManagedBuffer<u32>)
        ensures
            rows@ == self.row_list(),
    {
        &self.rows
    }

    /// The rows that hold a value, in ascending order.
    pub fn lookup(&self, key: u32) -> (rows: &[u32])
        requires
            self.wf(),
        ensures
            rows@ == self.postings(key),
            rows@.len() <= self.count(),
            forall|i: int| 0 <= i < rows@.len() ==> (#[trigger] rows@[i]) < self.count(),
    {
        let mut low: usize = 0;
        let mut high: usize = self.keys.len();
        while low < high
            invariant
                self.wf(),
                low <= high <= self.keys@.len(),
                forall|i: int| 0 <= i < low ==> self.keys@[i] < key,
                forall|i: int| high <= i < self.keys@.len() ==> self.keys@[i] >= key,
            decreases high - low,
        {
            let middle: usize = low + (high - low) / 2;
            if self.keys.at(middle) < key {
                assert forall|i: int| 0 <= i < middle + 1 implies self.keys@[i] < key by {
                    if i < middle {
                        assert(self.keys@[i] < self.keys@[middle as int]);
                    }
                }
                low = middle + 1;
            } else {
                assert forall|i: int| middle <= i < self.keys@.len() implies self.keys@[i]
                    >= key by {
                    if i > middle {
                        assert(self.keys@[middle as int] < self.keys@[i]);
                    }
                }
                high = middle;
            }
        }
        let ghost keys = self.keys@;
        if low < self.keys.len() && self.keys.at(low) == key {
            proof {
                assert(keys.contains(key)) by {
                    assert(keys[low as int] == key);
                }
                let k = keys.index_of(key);
                assert(k == low) by {
                    if k > low {
                        assert(keys[low as int] < keys[k]);
                    }
                }
                assert(self.starts@[low + 1] <= self.starts@[self.starts@.len() - 1]);
                assert(self.starts@[low as int] <= self.starts@[low + 1]);
            }
            let start: usize = self.starts.at(low) as usize;
            let end: usize = self.starts.at(low + 1) as usize;
            let rows = vstd::slice::slice_subrange(self.rows.as_slice(), start, end);
            assert forall|i: int| 0 <= i < rows@.len() implies (#[trigger] rows@[i])
                < self.count() by {
                assert(self.rows@[start + i] < self.count());
            }
            rows
        } else {
            proof {
                if keys.contains(key) {
                    let k = choose|k: int| 0 <= k < keys.len() && keys[k] == key;
                    assert(k >= low);
                    if k > low {
                        assert(keys[low as int] < keys[k]);
                    }
                }
            }
            let rows = vstd::slice::slice_subrange(self.rows.as_slice(), 0, 0);
            assert(rows@ =~= Seq::<u32>::empty());
            rows
        }
    }
}

/// Whether the outcome of indexing a column is as it has to be.
pub open spec fn is_build(result: Result<U32RangeIndex, Error>, values: Seq<u32>) -> bool {
    if values.len() > u32::MAX {
        result == Err::<U32RangeIndex, Error>(Error::TooManyRows(values.len() as usize))
    } else if storage::size_fits::<u32>(values.len()) && storage::size_fits::<u32>(
        values.to_set().len() + 1,
    ) {
        &&& result is Ok
        &&& result->Ok_0.wf()
        &&& result->Ok_0.count() == values.len()
        &&& result->Ok_0.key_list().len() == values.to_set().len()
        &&& forall|key: u32| #[trigger]
            result->Ok_0.postings(key) == matching_rows(values, key)
    } else {
        result is Err && result->Err_0 == Error::LengthOverflow
    }
}

/// The last position lies in the run of the last key.
proof fn lemma_last_run(
    ordered: Seq<u64>,
    keys: Seq<u32>,
    starts: Seq<u32>,
    runs: Seq<int>,
    position: int,
)
    requires
        are_runs(ordered, keys, starts, runs, position),
        position > 0,
    ensures
        keys.len() > 0,
        keys.last() == pairs::unpacked(ordered[position - 1]).0,
{
    reveal(are_runs);
    let last = runs[position - 1];
    assert(in_run(ordered, keys, starts, runs[position - 1], position - 1));
    if last + 1 < keys.len() {
        assert(starts[last + 1] < position);
    }
}

proof fn lemma_runs_grow(
    ordered: Seq<u64>,
    old_keys: Seq<u32>,
    old_starts: Seq<u32>,
    old_runs: Seq<int>,
    keys: Seq<u32>,
    starts: Seq<u32>,
    runs: Seq<int>,
    position: int,
)
    requires
        0 <= position < ordered.len() <= u32::MAX,
        are_runs(ordered, old_keys, old_starts, old_runs, position),
        position > 0 ==> old_keys.len() > 0 && old_keys.last() <= pairs::unpacked(
            ordered[position],
        ).0,
        ({
            let key = pairs::unpacked(ordered[position]).0;
            if old_keys.len() == 0 || old_keys.last() != key {
                keys == old_keys.push(key) && starts == old_starts.push(position as u32)
            } else {
                keys == old_keys && starts == old_starts
            }
        }),
        runs == old_runs.push(keys.len() - 1),
    ensures
        are_runs(ordered, keys, starts, runs, position + 1),
{
    reveal(are_runs);
    assert forall|i: int, j: int| 0 <= i < j < keys.len() implies keys[i] < keys[j] by {
        if j == old_keys.len() && i < old_keys.len() - 1 {
            assert(old_keys[i] < old_keys[old_keys.len() - 1]);
        }
    }
    assert forall|p: int| 0 <= p < position + 1 implies in_run(
        ordered,
        keys,
        starts,
        #[trigger] runs[p],
        p,
    ) by {
        if p < position {
            assert(in_run(ordered, old_keys, old_starts, old_runs[p], p));
            let k = old_runs[p];
            assert(runs[p] == k);
            assert(starts[k] == old_starts[k]);
            if k + 1 < old_keys.len() {
                assert(starts[k + 1] == old_starts[k + 1]);
            }
        } else {
            let k = keys.len() - 1;
            assert(runs[p] == k);
            if k < old_keys.len() {
                assert(old_starts[k] < position);
            }
        }
    }
}

/// The rows of some first keys, one key after the other.
pub open spec fn listed_rows(index: U32RangeIndex, count: int) -> Seq<u32>
    decreases count,
{
    if count <= 0 {
        Seq::empty()
    } else {
        listed_rows(index, count - 1) + index.postings(index.key_list()[count - 1])
    }
}

proof fn lemma_listed_rows(index: U32RangeIndex, count: int)
    requires
        index.wf(),
        0 <= count <= index.key_list().len(),
    ensures
        listed_rows(index, count) == index.row_list().take(index.start_list()[count] as int),
    decreases count,
{
    let keys = index.key_list();
    let starts = index.start_list();
    let rows = index.row_list();
    if count > 0 {
        lemma_listed_rows(index, count - 1);
        let key = keys[count - 1];
        assert(keys.contains(key));
        assert(keys.index_of(key) == count - 1) by {
            let k = keys.index_of(key);
            assert(0 <= k < keys.len() && keys[k] == key);
        }
        assert(starts[count - 1] <= starts[count]);
        assert(starts[count] <= starts[starts.len() - 1]);
        assert(rows.take(starts[count] as int) =~= rows.take(starts[count - 1] as int)
            + rows.subrange(starts[count - 1] as int, starts[count] as int));
    } else {
        assert(rows.take(0) =~= Seq::empty());
    }
}

/// What holds of the rows of some first keys: each row once, those whose value is among the keys.
proof fn lemma_listed_once(index: U32RangeIndex, values: Seq<u32>, count: int)
    requires
        index.wf(),
        values.len() <= u32::MAX,
        forall|key: u32| #[trigger] index.postings(key) == matching_rows(values, key),
        0 <= count <= index.key_list().len(),
    ensures
        listed_rows(index, count).no_duplicates(),
        forall|r: u32| #[trigger]
            listed_rows(index, count).contains(r) <==> r < values.len() && exists|k: int|
                0 <= k < count && index.key_list()[k] == values[r as int],
    decreases count,
{
    let keys = index.key_list();
    if count > 0 {
        lemma_listed_once(index, values, count - 1);
        let earlier = listed_rows(index, count - 1);
        let key = keys[count - 1];
        let own = index.postings(key);
        let all = listed_rows(index, count);
        lemma_matching_rows(values, key);
        assert forall|r: u32| #[trigger] earlier.contains(r) implies !own.contains(r) by {
            if own.contains(r) {
                assert(values[r as int] == key);
                let k = choose|k: int| 0 <= k < count - 1 && keys[k] == values[r as int];
                assert(keys[k] < keys[count - 1]);
            }
        }
        assert forall|i: int, j: int| 0 <= i < j < all.len() implies all[i] != all[j] by {
            if j < earlier.len() {
                assert(earlier[i] != earlier[j]);
            } else if i >= earlier.len() {
                assert(own[i - earlier.len()] < own[j - earlier.len()]);
            } else {
                assert(earlier.contains(earlier[i]));
                assert(own.contains(own[j - earlier.len()]));
            }
        }
        assert forall|r: u32| #[trigger] all.contains(r) <==> r < values.len() && exists|k: int|
            0 <= k < count && keys[k] == values[r as int] by {
            if all.contains(r) {
                let m = choose|m: int| 0 <= m < all.len() && all[m] == r;
                if m < earlier.len() {
                    assert(earlier[m] == r);
                    assert(earlier.contains(r));
                    let k = choose|k: int| 0 <= k < count - 1 && keys[k] == values[r as int];
                    assert(keys[k] == values[r as int]);
                } else {
                    assert(own[m - earlier.len()] == r);
                    assert(own.contains(r));
                    assert(keys[count - 1] == values[r as int]);
                }
            }
            if r < values.len() && exists|k: int| 0 <= k < count && keys[k] == values[r as int] {
                let k = choose|k: int| 0 <= k < count && keys[k] == values[r as int];
                if k < count - 1 {
                    assert(earlier.contains(r));
                    let m = choose|m: int| 0 <= m < earlier.len() && earlier[m] == r;
                    assert(all[m] == r);
                } else {
                    assert(own.contains(r));
                    let m = choose|m: int| 0 <= m < own.len() && own[m] == r;
                    assert(all[earlier.len() + m] == r);
                }
            }
        }
    }
}

/// What an index of a column consists of: its keys are the values of the column, in ascending order,
/// its starts run from zero to the number of rows, and its rows are those of its keys one after the
/// other, each row of the column once.
pub proof fn law_index_lists_the_column(index: U32RangeIndex, values: Seq<u32>)
    requires
        values.len() <= u32::MAX,
        is_build(Ok(index), values),
    ensures
        sorted::ascending(index.key_list()),
        forall|key: u32| #[trigger] index.key_list().contains(key) <==> values.contains(key),
        index.start_list().len() == index.key_list().len() + 1,
        index.start_list()[0] == 0,
        index.start_list().last() == values.len(),
        index.row_list() == listed_rows(index, index.key_list().len() as int),
        index.row_list().len() == values.len(),
        index.row_list().no_duplicates(),
        forall|r: u32| #[trigger] index.row_list().contains(r) <==> r < values.len(),
{
    let keys = index.key_list();
    let count = keys.len() as int;
    lemma_listed_rows(index, count);
    assert(index.row_list().take(index.row_list().len() as int) =~= index.row_list());
    lemma_listed_once(index, values, count);
    assert forall|key: u32| values.contains(key) implies #[trigger] keys.contains(key) by {
        let r = choose|r: int| 0 <= r < values.len() && values[r] == key;
        lemma_matching_rows(values, key);
        assert(matching_rows(values, key).contains(r as u32));
        assert(index.postings(key).len() > 0);
    }
    assert(keys.no_duplicates());
    keys.unique_seq_to_set();
    assert(values.to_set().subset_of(keys.to_set())) by {
        assert forall|key: u32| #[trigger] values.to_set().contains(key) implies keys.to_set().contains(
            key,
        ) by {
            assert(values.contains(key));
            assert(keys.contains(key));
        }
    }
    vstd::set_lib::lemma_subset_equality(values.to_set(), keys.to_set());
    assert forall|key: u32| #[trigger] keys.contains(key) implies values.contains(key) by {
        assert(keys.to_set().contains(key));
        assert(values.to_set().contains(key));
    }
    assert forall|r: u32| #[trigger] index.row_list().contains(r) <==> r < values.len() by {
        if r < values.len() {
            assert(values.contains(values[r as int]));
            assert(keys.contains(values[r as int]));
            let k = choose|k: int| 0 <= k < keys.len() && keys[k] == values[r as int];
            assert(keys[k] == values[r as int]);
        }
    }
}

} // verus!
