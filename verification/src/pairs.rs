//! Pairs of numbers: their order, their packed form, sorting, merging and removing repetitions.
use vstd::prelude::*;

use crate::chunks;
use crate::chunks::{chunk_bounds, gather};
use crate::parallel;
use crate::parallel::{par_map, par_sort, sort};

verus! {

/// A row of a binary relation.
pub type Pair = (u32, u32);

/// Lexicographic order.
pub open spec fn pair_less(a: Pair, b: Pair) -> bool {
    a.0 < b.0 || (a.0 == b.0 && a.1 < b.1)
}

/// Whether pairs are in ascending order; repetitions are allowed.
pub open spec fn pairs_sorted(pairs: Seq<Pair>) -> bool {
    forall|i: int, j: int|
        #![trigger pairs[i], pairs[j]]
        0 <= i <= j < pairs.len() ==> !pair_less(pairs[j], pairs[i])
}

/// Whether pairs are in ascending order, without repetitions.
pub open spec fn pairs_ascending(pairs: Seq<Pair>) -> bool {
    forall|i: int, j: int|
        #![trigger pairs[i], pairs[j]]
        0 <= i < j < pairs.len() ==> pair_less(pairs[i], pairs[j])
}

/// Whether two lists hold the same pairs.
pub open spec fn same_pairs(a: Seq<Pair>, b: Seq<Pair>) -> bool {
    forall|p: Pair|
        #![trigger a.contains(p)]
        #![trigger b.contains(p)]
        a.contains(p) <==> b.contains(p)
}

/// An ascending list is fixed by the pairs that it holds.
pub proof fn law_ascending_pairs_unique(a: Seq<Pair>, b: Seq<Pair>)
    requires
        pairs_ascending(a),
        pairs_ascending(b),
        same_pairs(a, b),
    ensures
        a == b,
    decreases a.len(),
{
    if a.len() == 0 {
        if b.len() > 0 {
            assert(b.contains(b[0]));
            assert(a.contains(b[0]));
        }
        assert(a =~= b);
    } else {
        assert(a.contains(a.last()));
        assert(b.contains(a.last()));
        let k = choose|k: int| 0 <= k < b.len() && b[k] == a.last();
        assert(b.contains(b.last()));
        assert(a.contains(b.last()));
        let m = choose|m: int| 0 <= m < a.len() && a[m] == b.last();
        assert(a.last() == b.last()) by {
            if k < b.len() - 1 {
                assert(pair_less(b[k], b[b.len() - 1]));
                if m < a.len() - 1 {
                    assert(pair_less(a[m], a[a.len() - 1]));
                }
            }
        }
        let shorter = a.drop_last();
        let other = b.drop_last();
        assert forall|p: Pair| shorter.contains(p) <==> other.contains(p) by {
            if shorter.contains(p) {
                let i = choose|i: int| 0 <= i < shorter.len() && shorter[i] == p;
                assert(a[i] == p);
                assert(a.contains(p));
                assert(b.contains(p));
                let j = choose|j: int| 0 <= j < b.len() && b[j] == p;
                assert(pair_less(a[i], a[a.len() - 1]));
                assert(other[j] == p);
            }
            if other.contains(p) {
                let i = choose|i: int| 0 <= i < other.len() && other[i] == p;
                assert(b[i] == p);
                assert(b.contains(p));
                assert(a.contains(p));
                let j = choose|j: int| 0 <= j < a.len() && a[j] == p;
                assert(pair_less(b[i], b[b.len() - 1]));
                assert(shorter[j] == p);
            }
        }
        law_ascending_pairs_unique(shorter, other);
        assert(a =~= shorter.push(a.last()));
        assert(b =~= other.push(b.last()));
    }
}

/// A pair as one number: the first half is the higher one.
pub open spec fn packed(pair: Pair) -> u64 {
    (pair.0 as int * 0x1_0000_0000 + pair.1) as u64
}

/// The pair that a number stands for.
pub open spec fn unpacked(value: u64) -> Pair {
    ((value / 0x1_0000_0000) as u32, (value % 0x1_0000_0000) as u32)
}

/// Packing keeps the order, and loses nothing.
pub proof fn law_packing(a: Pair, b: Pair)
    ensures
        packed(a) < packed(b) <==> pair_less(a, b),
        packed(a) == packed(b) <==> a == b,
        unpacked(packed(a)) == a,
        packed(a) == a.0 * 0x1_0000_0000 + a.1,
{
}

pub proof fn lemma_unpacked(value: u64)
    ensures
        packed(unpacked(value)) == value,
{
}

/// A pair as one number.
pub fn pack_tuple(first: u32, second: u32) -> (value: u64)
    ensures
        value == packed((first, second)),
{
    assert(((first as u64) << 32) | (second as u64) == (first as u64) * 0x1_0000_0000u64 + (
    second as u64)) by (bit_vector);
    ((first as u64) << 32) | (second as u64)
}

pub(crate) fn unpack_tuple(value: u64) -> (pair: Pair)
    ensures
        pair == unpacked(value),
{
    assert(value >> 32 == value / 0x1_0000_0000u64) by (bit_vector);
    assert(value & 0xffff_ffff == value % 0x1_0000_0000u64) by (bit_vector);
    ((value >> 32) as u32, (value & 0xffff_ffff) as u32)
}

/// The pairs that some numbers stand for.
pub open spec fn unpacked_all(values: Seq<u64>) -> Seq<Pair> {
    Seq::new(values.len(), |i: int| unpacked(values[i]))
}

/// Pairs as numbers.
pub open spec fn packed_all(pairs: Seq<Pair>) -> Seq<u64> {
    Seq::new(pairs.len(), |i: int| packed(pairs[i]))
}

/// Whether numbers are in ascending order, without repetitions.
pub open spec fn strictly_ascending(values: Seq<u64>) -> bool {
    forall|i: int, j: int| 0 <= i < j < values.len() ==> values[i] < values[j]
}

/// Numbers in strictly ascending order stand for pairs in strictly ascending order, and hold the
/// same pairs as any list of numbers with the same members.
proof fn lemma_unpack_ascending(values: Seq<u64>, pairs: Seq<Pair>)
    requires
        strictly_ascending(values),
        forall|v: u64|
            #![trigger values.contains(v)]
            #![trigger packed_all(pairs).contains(v)]
            values.contains(v) <==> packed_all(pairs).contains(v),
    ensures
        pairs_ascending(unpacked_all(values)),
        same_pairs(unpacked_all(values), pairs),
{
    let result = unpacked_all(values);
    assert forall|i: int, j: int|
        #![trigger result[i], result[j]]
        0 <= i < j < result.len() implies pair_less(result[i], result[j]) by {
        lemma_unpacked(values[i]);
        lemma_unpacked(values[j]);
        law_packing(result[i], result[j]);
    }
    assert forall|p: Pair| result.contains(p) <==> pairs.contains(p) by {
        if result.contains(p) {
            let i = choose|i: int| 0 <= i < result.len() && result[i] == p;
            assert(values.contains(values[i]));
            let k = choose|k: int|
                0 <= k < pairs.len() && packed_all(pairs)[k] == values[i];
            assert(packed(pairs[k]) == values[i]);
            law_packing(pairs[k], p);
            assert(pairs[k] == p);
        }
        if pairs.contains(p) {
            let k = choose|k: int| 0 <= k < pairs.len() && pairs[k] == p;
            assert(packed_all(pairs)[k] == packed(p));
            assert(packed_all(pairs).contains(packed(p)));
            assert(values.contains(packed(p)));
            let i = choose|i: int| 0 <= i < values.len() && values[i] == packed(p);
            law_packing(p, p);
            assert(result[i] == p);
        }
    }
}

/// Moves the first of each run of equal numbers to the front, in order, and counts them.
pub fn deduplicate_sorted(values: &mut Vec<u64>) -> (unique: usize)
    ensures
        unique <= old(values)@.len(),
        final(values)@.len() == old(values)@.len(),
        parallel::ascending(old(values)@) ==> strictly_ascending(
            final(values)@.take(unique as int),
        ),
        forall|v: u64| #[trigger]
            final(values)@.take(unique as int).contains(v) <==> old(values)@.contains(v),
{
    let ghost before = values@;
    let count: usize = values.len();
    let mut unique: usize = 0;
    let mut read: usize = 0;
    // Where each kept number comes from, and where each number read so far is kept.
    let ghost mut origin: Seq<int> = Seq::empty();
    let ghost mut place: Seq<int> = Seq::empty();
    while read < count
        invariant
            unique <= read <= count,
            count == before.len(),
            values@.len() == before.len(),
            forall|i: int| read <= i < count ==> values@[i] == before[i],
            unique == 0 <==> read == 0,
            read > 0 ==> values@[unique - 1] == before[read - 1],
            parallel::ascending(before) ==> forall|i: int, j: int|
                0 <= i < j < unique ==> values@[i] < values@[j],
            origin.len() == unique,
            place.len() == read,
            forall|i: int|
                0 <= i < unique ==> 0 <= #[trigger] origin[i] < read && before[origin[i]]
                    == values@[i],
            forall|k: int|
                0 <= k < read ==> 0 <= #[trigger] place[k] < unique && values@[place[k]]
                    == before[k],
        decreases count - read,
    {
        let value: u64 = values[read];
        if unique == 0 || value != values[unique - 1] {
            values.set(unique, value);
            proof {
                if read > 0 && parallel::ascending(before) {
                    assert(before[read - 1] <= before[read as int]);
                }
                origin = origin.push(read as int);
                place = place.push(unique as int);
            }
            unique += 1;
        } else {
            proof {
                place = place.push(unique - 1);
            }
        }
        read += 1;
    }
    let ghost result = values@.take(unique as int);
    assert forall|v: u64| #[trigger] result.contains(v) <==> before.contains(v) by {
        if result.contains(v) {
            let i = choose|i: int| 0 <= i < result.len() && result[i] == v;
            assert(before[origin[i]] == v);
        }
        if before.contains(v) {
            let k = choose|k: int| 0 <= k < before.len() && before[k] == v;
            assert(result[place[k]] == v);
        }
    }
    unique
}

/// The rows of two columns.
pub open spec fn zipped(first: Seq<u32>, second: Seq<u32>) -> Seq<Pair> {
    Seq::new(first.len(), |i: int| (first[i], second[i]))
}

/// Two columns of a relation, equally long.
#[derive(Clone, Copy)]
pub struct BinaryColumns<'a> {
    pub first: &'a [u32],
    pub second: &'a [u32],
}

impl<'a> BinaryColumns<'a> {
    pub open spec fn wf(self) -> bool {
        self.first@.len() == self.second@.len()
    }

    /// The rows.
    pub open spec fn rows(self) -> Seq<Pair> {
        zipped(self.first@, self.second@)
    }

    fn len(self) -> (length: usize)
        ensures
            length == self.rows().len(),
    {
        self.first.len()
    }

    fn row(self, index: usize) -> (row: Pair)
        requires
            self.wf(),
            index < self.rows().len(),
        ensures
            row == self.rows()[index as int],
    {
        (self.first[index], self.second[index])
    }

    fn packed_row(self, index: usize) -> (value: u64)
        requires
            self.wf(),
            index < self.rows().len(),
        ensures
            value == packed(self.rows()[index as int]),
    {
        pack_tuple(self.first[index], self.second[index])
    }
}

/// Whether a list holds the pairs of another once each, in ascending order.
pub open spec fn is_distinct(result: Seq<Pair>, rows: Seq<Pair>) -> bool {
    pairs_ascending(result) && same_pairs(result, rows)
}

fn pack_rows(columns: BinaryColumns) -> (values: Vec<u64>)
    requires
        columns.wf(),
    ensures
        values@ == packed_all(columns.rows()),
{
    let count: usize = columns.len();
    let mut values: Vec<u64> = Vec::new();
    let mut i: usize = 0;
    while i < count
        invariant
            i <= count,
            count == columns.rows().len(),
            columns.wf(),
            values@ == packed_all(columns.rows()).take(i as int),
        decreases count - i,
    {
        values.push(columns.packed_row(i));
        assert(values@ =~= packed_all(columns.rows()).take(i + 1));
        i += 1;
    }
    assert(values@ =~= packed_all(columns.rows()));
    values
}

fn par_pack_rows(columns: BinaryColumns) -> (values: Vec<u64>)
    requires
        columns.wf(),
    ensures
        values@ == packed_all(columns.rows()),
{
    let pack_row = |i: usize| -> (value: u64)
        requires
            columns.wf() && (i as int) < columns.rows().len(),
        ensures
            value == packed(columns.rows()[i as int]),
    {
        columns.packed_row(i)
    };
    let values = par_map(columns.len(), pack_row);
    proof {
        assert forall|k: int| 0 <= k < values@.len() implies values@[k] == packed_all(
            columns.rows(),
        )[k] by {
            assert(call_ensures(pack_row, (k as usize,), values@[k as usize as int]));
        }
        assert(values@ =~= packed_all(columns.rows()));
    }
    values
}

fn unpack_rows(values: &Vec<u64>, unique: usize) -> (rows: Vec<Pair>)
    requires
        unique <= values@.len(),
    ensures
        rows@ == unpacked_all(values@.take(unique as int)),
{
    let mut rows: Vec<Pair> = Vec::new();
    let mut i: usize = 0;
    while i < unique
        invariant
            i <= unique <= values@.len(),
            rows@ == unpacked_all(values@.take(i as int)),
        decreases unique - i,
    {
        rows.push(unpack_tuple(values[i]));
        i += 1;
        assert(rows@ =~= unpacked_all(values@.take(i as int)));
    }
    rows
}

fn par_unpack_rows(values: &Vec<u64>, unique: usize) -> (rows: Vec<Pair>)
    requires
        unique <= values@.len(),
    ensures
        rows@ == unpacked_all(values@.take(unique as int)),
{
    let unpack_row = |i: usize| -> (row: Pair)
        requires
            (i as int) < values@.len(),
        ensures
            row == unpacked(values@[i as int]),
    {
        unpack_tuple(values[i])
    };
    let rows = par_map(unique, unpack_row);
    proof {
        assert forall|k: int| 0 <= k < rows@.len() implies rows@[k] == unpacked_all(
            values@.take(unique as int),
        )[k] by {
            assert(call_ensures(unpack_row, (k as usize,), rows@[k as usize as int]));
        }
        assert(rows@ =~= unpacked_all(values@.take(unique as int)));
    }
    rows
}

/// The rows of two columns once each, in ascending order.
pub(crate) fn distinct_rows(columns: BinaryColumns, in_parallel: bool) -> (rows: Vec<Pair>)
    requires
        columns.wf(),
    ensures
        is_distinct(rows@, columns.rows()),
        rows@.len() <= columns.rows().len(),
{
    let mut values = if in_parallel {
        par_pack_rows(columns)
    } else {
        pack_rows(columns)
    };
    let ghost before = values@;
    if in_parallel {
        par_sort(&mut values);
    } else {
        sort(&mut values);
    }
    proof {
        parallel::lemma_same_members(before, values@);
    }
    let ghost sorted_values = values@;
    let unique: usize = deduplicate_sorted(&mut values);
    proof {
        let kept = values@.take(unique as int);
        assert forall|v: u64| kept.contains(v) <==> packed_all(columns.rows()).contains(v) by {
            assert(kept.contains(v) <==> sorted_values.contains(v));
            assert(sorted_values.contains(v) <==> before.contains(v));
        }
        lemma_unpack_ascending(kept, columns.rows());
    }
    if in_parallel {
        par_unpack_rows(&values, unique)
    } else {
        unpack_rows(&values, unique)
    }
}

fn row_below(a: Pair, b: Pair) -> (less: bool)
    ensures
        less == pair_less(a, b),
{
    a.0 < b.0 || (a.0 == b.0 && a.1 < b.1)
}

/// Where rows that are below a pair end and others begin. In sorted rows this is where the first
/// row stands that is not below the pair.
fn lower_bound_pair(columns: BinaryColumns, pair: Pair) -> (position: usize)
    requires
        columns.wf(),
    ensures
        position <= columns.rows().len(),
        position > 0 ==> pair_less(columns.rows()[position - 1], pair),
        position < columns.rows().len() ==> !pair_less(columns.rows()[position as int], pair),
        pairs_sorted(columns.rows()) ==> forall|i: int|
            0 <= i < columns.rows().len() ==> (pair_less(#[trigger] columns.rows()[i], pair) <==> i
                < position),
{
    let mut low: usize = 0;
    let mut high: usize = columns.len();
    while low < high
        invariant
            columns.wf(),
            low <= high <= columns.rows().len(),
            low > 0 ==> pair_less(columns.rows()[low - 1], pair),
            high < columns.rows().len() ==> !pair_less(columns.rows()[high as int], pair),
            pairs_sorted(columns.rows()) ==> forall|i: int|
                0 <= i < low ==> pair_less(#[trigger] columns.rows()[i], pair),
            pairs_sorted(columns.rows()) ==> forall|i: int|
                high <= i < columns.rows().len() ==> !pair_less(#[trigger] columns.rows()[i], pair),
        decreases high - low,
    {
        let middle: usize = low + (high - low) / 2;
        if row_below(columns.row(middle), pair) {
            proof {
                if pairs_sorted(columns.rows()) {
                    assert forall|i: int| 0 <= i < middle + 1 implies pair_less(
                        #[trigger] columns.rows()[i],
                        pair,
                    ) by {
                        assert(!pair_less(columns.rows()[middle as int], columns.rows()[i]));
                    }
                }
            }
            low = middle + 1;
        } else {
            proof {
                if pairs_sorted(columns.rows()) {
                    assert forall|i: int| middle <= i < columns.rows().len() implies !pair_less(
                        #[trigger] columns.rows()[i],
                        pair,
                    ) by {
                        assert(!pair_less(columns.rows()[i], columns.rows()[middle as int]));
                    }
                }
            }
            high = middle;
        }
    }
    low
}

/// The rows of a range that another list does not hold, in order.
pub open spec fn difference(left: Seq<Pair>, right: Seq<Pair>, from: int, to: int) -> Seq<Pair>
    decreases to - from,
{
    if from >= to {
        Seq::empty()
    } else if right.contains(left[to - 1]) {
        difference(left, right, from, to - 1)
    } else {
        difference(left, right, from, to - 1).push(left[to - 1])
    }
}

proof fn lemma_difference_additive(left: Seq<Pair>, right: Seq<Pair>, a: int, b: int, c: int)
    requires
        0 <= a <= b <= c,
    ensures
        difference(left, right, a, c) == difference(left, right, a, b) + difference(
            left,
            right,
            b,
            c,
        ),
    decreases c - b,
{
    if b < c {
        lemma_difference_additive(left, right, a, b, c - 1);
    }
    assert(difference(left, right, a, c) =~= difference(left, right, a, b) + difference(
        left,
        right,
        b,
        c,
    ));
}

/// Subtracts the rows of a sorted relation from a range of those of another, walking both. The
/// walk of the right rows begins at `right_start`.
fn subtract_from(
    left: BinaryColumns,
    right: BinaryColumns,
    from: usize,
    to: usize,
    right_start: usize,
) -> (rows: Vec<Pair>)
    requires
        left.wf(),
        right.wf(),
        from <= to <= left.rows().len(),
        right_start <= right.rows().len(),
        from < to && pairs_sorted(right.rows()) ==> forall|i: int|
            0 <= i < right_start ==> pair_less(
                #[trigger] right.rows()[i],
                left.rows()[from as int],
            ),
    ensures
        rows@.len() <= to - from,
        pairs_sorted(left.rows()) && pairs_sorted(right.rows()) ==> rows@ == difference(
            left.rows(),
            right.rows(),
            from as int,
            to as int,
        ),
{
    let ghost sorted = pairs_sorted(left.rows()) && pairs_sorted(right.rows());
    let ghost l = left.rows();
    let ghost r = right.rows();
    let right_len: usize = right.len();
    let mut rows: Vec<Pair> = Vec::new();
    let mut right_row: usize = right_start;
    let mut left_row: usize = from;
    while left_row < to
        invariant
            left.wf(),
            right.wf(),
            l == left.rows(),
            r == right.rows(),
            right_len == r.len(),
            sorted == (pairs_sorted(l) && pairs_sorted(r)),
            from <= left_row <= to <= l.len(),
            right_row <= r.len(),
            rows@.len() <= left_row - from,
            sorted ==> rows@ == difference(l, r, from as int, left_row as int),
            sorted && left_row < to ==> forall|i: int|
                0 <= i < right_row ==> pair_less(#[trigger] r[i], l[left_row as int]),
        decreases to - left_row,
    {
        let pair = left.row(left_row);
        while right_row < right_len && row_below(right.row(right_row), pair)
            invariant
                right.wf(),
                r == right.rows(),
                right_len == r.len(),
                right_row <= r.len(),
                sorted ==> forall|i: int|
                    0 <= i < right_row ==> pair_less(#[trigger] r[i], pair),
            decreases right_len - right_row,
        {
            right_row += 1;
        }
        let mut matched = false;
        if right_row < right_len {
            let other = right.row(right_row);
            matched = other.0 == pair.0 && other.1 == pair.1;
        }
        proof {
            if sorted {
                assert(r.contains(pair) <==> matched) by {
                    if r.contains(pair) {
                        let k = choose|k: int| 0 <= k < r.len() && r[k] == pair;
                        assert(k >= right_row);
                        assert(!pair_less(r[k], r[right_row as int]));
                        assert(!pair_less(r[right_row as int], pair));
                    }
                }
                if left_row + 1 < to {
                    assert(!pair_less(l[left_row + 1], l[left_row as int]));
                    assert forall|i: int| 0 <= i < right_row implies pair_less(
                        #[trigger] r[i],
                        l[left_row + 1],
                    ) by {
                        assert(pair_less(r[i], pair));
                    }
                }
            }
        }
        if !matched {
            rows.push(pair);
        }
        left_row += 1;
    }
    rows
}

/// Subtracts the rows of one sorted relation from those of another.
pub(crate) fn subtract_rows(left: BinaryColumns, right: BinaryColumns) -> (rows: Vec<Pair>)
    requires
        left.wf(),
        right.wf(),
    ensures
        rows@.len() <= left.rows().len(),
        pairs_sorted(left.rows()) && pairs_sorted(right.rows()) ==> rows@ == difference(
            left.rows(),
            right.rows(),
            0,
            left.rows().len() as int,
        ),
{
    subtract_from(left, right, 0, left.len(), 0)
}

/// The difference of one range, its place in the right rows found by search.
fn subtract_chunk(left: BinaryColumns, right: BinaryColumns, from: usize, to: usize) -> (rows: Vec<
    Pair,
>)
    requires
        left.wf(),
        right.wf(),
        from < to <= left.rows().len(),
    ensures
        rows@.len() <= to - from,
        pairs_sorted(left.rows()) && pairs_sorted(right.rows()) ==> rows@ == difference(
            left.rows(),
            right.rows(),
            from as int,
            to as int,
        ),
{
    let right_start: usize = lower_bound_pair(right, left.row(from));
    subtract_from(left, right, from, to, right_start)
}

/// Whether a range of rows can be worked on.
spec fn is_range(bounds: Seq<usize>, i: int, len: nat) -> bool {
    0 <= i && i + 1 < bounds.len() && bounds[i] < bounds[i + 1] <= len
}

/// Subtracts the rows of one sorted relation from those of another, range by range.
pub(crate) fn par_subtract_rows(
    left: BinaryColumns,
    right: BinaryColumns,
    workers: usize,
) -> (rows: Vec<Pair>)
    requires
        left.wf(),
        right.wf(),
        workers > 0,
    ensures
        rows@.len() <= left.rows().len(),
        pairs_sorted(left.rows()) && pairs_sorted(right.rows()) ==> rows@ == difference(
            left.rows(),
            right.rows(),
            0,
            left.rows().len() as int,
        ),
{
    let len: usize = left.len();
    let bounds = chunk_bounds(len, workers);
    let ghost l = left.rows();
    let ghost r = right.rows();
    let ghost sorted = pairs_sorted(l) && pairs_sorted(r);
    let subtract = |i: usize| -> (part: Vec<Pair>)
        requires
            left.wf() && right.wf() && is_range(bounds@, i as int, left.rows().len()),
        ensures
            part@.len() <= bounds@[i + 1] - bounds@[i as int],
            pairs_sorted(left.rows()) && pairs_sorted(right.rows()) ==> part@ == difference(
                left.rows(),
                right.rows(),
                bounds@[i as int] as int,
                bounds@[i + 1] as int,
            ),
    {
        assert(i < bounds.len());
        subtract_chunk(left, right, bounds[i], bounds[i + 1])
    };
    proof {
        assert forall|i: usize| i < bounds@.len() - 1 implies #[trigger] call_requires(
            subtract,
            (i,),
        ) by {
            assert(bounds@[i as int] < bounds@[i + 1]);
            assert(bounds@[i + 1] <= bounds@[bounds@.len() - 1]);
        }
    }
    let parts = par_map(bounds.len() - 1, subtract);
    let rows = gather(&parts);
    proof {
        let views = chunks::part_views(parts@);
        assert forall|i: int| 0 <= i < parts@.len() implies (#[trigger] views[i]).len()
            <= bounds@[i + 1] - bounds@[i] by {
            assert(call_ensures(subtract, (i as usize,), parts@[i as usize as int]));
        }
        lemma_flat_length(views, bounds@, views.len() as int);
        assert(views.take(views.len() as int) =~= views);
        if sorted {
            let yields = |a: int, b: int| difference(l, r, a, b);
            assert forall|i: int| 0 <= i < views.len() implies #[trigger] views[i] == yields(
                bounds@[i] as int,
                bounds@[i + 1] as int,
            ) by {
                assert(call_ensures(subtract, (i as usize,), parts@[i as usize as int]));
            }
            assert forall|a: int, b: int, c: int|
                #![trigger yields(a, b), yields(b, c)]
                0 <= a <= b <= c <= len implies yields(a, c) == yields(a, b) + yields(b, c) by {
                lemma_difference_additive(l, r, a, b, c);
            }
            chunks::lemma_flat_ranges(views, bounds@, yields, len as int, views.len() as int);
        }
    }
    rows
}

proof fn lemma_flat_length<T>(parts: Seq<Seq<T>>, bounds: Seq<usize>, count: int)
    requires
        parts.len() + 1 == bounds.len(),
        bounds[0] == 0,
        forall|i: int|
            0 <= i < parts.len() ==> (#[trigger] parts[i]).len() <= bounds[i + 1] - bounds[i],
        0 <= count <= parts.len(),
    ensures
        chunks::flat(parts.take(count)).len() <= bounds[count],
    decreases count,
{
    if count > 0 {
        lemma_flat_length(parts, bounds, count - 1);
        assert(parts.take(count).drop_last() =~= parts.take(count - 1));
        assert(parts.take(count).last() == parts[count - 1]);
    }
}

/// Whether a list holds the pairs of two others once each, in ascending order.
pub open spec fn is_union(result: Seq<Pair>, left: Seq<Pair>, right: Seq<Pair>) -> bool {
    is_distinct(result, left + right)
}

proof fn lemma_taken_contains(rows: Seq<Pair>, count: int, pair: Pair)
    requires
        0 <= count < rows.len(),
    ensures
        rows.take(count + 1).contains(pair) <==> (rows.take(count).contains(pair) || pair
            == rows[count]),
{
    assert(rows.take(count + 1) =~= rows.take(count).push(rows[count]));
    vstd::seq_lib::lemma_seq_contains_after_push(rows.take(count), rows[count], pair);
}

/// Whether a result so far holds exactly the rows that were walked, in ascending order, none above
/// the rows to come.
spec fn is_merging(
    result: Seq<Pair>,
    left: Seq<Pair>,
    right: Seq<Pair>,
    l: int,
    r: int,
) -> bool {
    &&& pairs_ascending(result)
    &&& forall|p: Pair|
        #![trigger result.contains(p)]
        result.contains(p) <==> (left.take(l).contains(p) || right.take(r).contains(p))
    &&& result.len() > 0 && l < left.len() ==> !pair_less(left[l], result.last())
    &&& result.len() > 0 && r < right.len() ==> !pair_less(right[r], result.last())
}

/// Walking one more row, which is not above the other row to come, keeps the result in order.
proof fn lemma_merge_step(
    result: Seq<Pair>,
    left: Seq<Pair>,
    right: Seq<Pair>,
    l: int,
    r: int,
    from_left: bool,
)
    requires
        pairs_sorted(left),
        pairs_sorted(right),
        0 <= l <= left.len(),
        0 <= r <= right.len(),
        is_merging(result, left, right, l, r),
        from_left ==> l < left.len() && (r < right.len() ==> !pair_less(right[r], left[l])),
        !from_left ==> r < right.len() && (l < left.len() ==> !pair_less(left[l], right[r])),
    ensures
        ({
            let pair = if from_left {
                left[l]
            } else {
                right[r]
            };
            let next = if result.len() > 0 && result.last() == pair {
                result
            } else {
                result.push(pair)
            };
            if from_left {
                is_merging(next, left, right, l + 1, r)
            } else {
                is_merging(next, left, right, l, r + 1)
            }
        }),
{
    let pair = if from_left {
        left[l]
    } else {
        right[r]
    };
    let repeated = result.len() > 0 && result.last() == pair;
    let next = if repeated {
        result
    } else {
        result.push(pair)
    };
    let l1 = if from_left {
        l + 1
    } else {
        l
    };
    let r1 = if from_left {
        r
    } else {
        r + 1
    };
    assert forall|p: Pair|
        #![trigger next.contains(p)]
        next.contains(p) <==> (left.take(l1).contains(p) || right.take(r1).contains(p)) by {
        assert(result.contains(p) <==> (left.take(l).contains(p) || right.take(r).contains(p)));
        if from_left {
            lemma_taken_contains(left, l, p);
        } else {
            lemma_taken_contains(right, r, p);
        }
        if repeated {
            assert(result.contains(result[result.len() - 1]));
        } else {
            vstd::seq_lib::lemma_seq_contains_after_push(result, pair, p);
        }
    }
    if from_left && l1 < left.len() {
        assert(!pair_less(left[l1], left[l]));
    }
    if !from_left && r1 < right.len() {
        assert(!pair_less(right[r1], right[r]));
    }
    assert forall|i: int, j: int|
        #![trigger next[i], next[j]]
        0 <= i < j < next.len() implies pair_less(next[i], next[j]) by {
        if j == result.len() && i < result.len() - 1 {
            assert(pair_less(result[i], result[result.len() - 1]));
        }
    }
}

/// The rows of two sorted relations once each, by walking both.
pub(crate) fn unite_rows(left: BinaryColumns, right: BinaryColumns) -> (rows: Vec<Pair>)
    requires
        left.wf(),
        right.wf(),
    ensures
        rows@.len() <= left.rows().len() + right.rows().len(),
        pairs_sorted(left.rows()) && pairs_sorted(right.rows()) ==> is_union(
            rows@,
            left.rows(),
            right.rows(),
        ),
{
    let ghost l = left.rows();
    let ghost r = right.rows();
    let ghost sorted = pairs_sorted(l) && pairs_sorted(r);
    let left_len: usize = left.len();
    let right_len: usize = right.len();
    let mut rows: Vec<Pair> = Vec::new();
    let mut left_row: usize = 0;
    let mut right_row: usize = 0;
    while left_row < left_len || right_row < right_len
        invariant
            left.wf(),
            right.wf(),
            l == left.rows(),
            r == right.rows(),
            left_len == l.len(),
            right_len == r.len(),
            left_row <= left_len,
            right_row <= right_len,
            rows@.len() <= left_row + right_row,
            sorted == (pairs_sorted(l) && pairs_sorted(r)),
            sorted ==> is_merging(rows@, l, r, left_row as int, right_row as int),
        decreases (left_len - left_row) + (right_len - right_row),
    {
        let from_left = right_row == right_len || (left_row < left_len && !row_below(
            right.row(right_row),
            left.row(left_row),
        ));
        let pair = if from_left {
            left.row(left_row)
        } else {
            right.row(right_row)
        };
        proof {
            if sorted {
                lemma_merge_step(
                    rows@,
                    l,
                    r,
                    left_row as int,
                    right_row as int,
                    from_left,
                );
            }
        }
        let mut repeated = false;
        if rows.len() > 0 {
            let last = rows[rows.len() - 1];
            repeated = last.0 == pair.0 && last.1 == pair.1;
        }
        if !repeated {
            rows.push(pair);
        }
        if from_left {
            left_row += 1;
        } else {
            right_row += 1;
        }
    }
    proof {
        if sorted {
            assert(l.take(l.len() as int) =~= l);
            assert(r.take(r.len() as int) =~= r);
            assert forall|p: Pair| rows@.contains(p) <==> (l + r).contains(p) by {
                lemma_sum_contains(l, r, p);
            }
        }
    }
    rows
}

pub proof fn lemma_sum_contains<T>(a: Seq<T>, b: Seq<T>, item: T)
    ensures
        (a + b).contains(item) <==> (a.contains(item) || b.contains(item)),
{
    if a.contains(item) {
        let i = choose|i: int| 0 <= i < a.len() && a[i] == item;
        assert((a + b)[i] == item);
    }
    if b.contains(item) {
        let i = choose|i: int| 0 <= i < b.len() && b[i] == item;
        assert((a + b)[a.len() + i] == item);
    }
}

/// Whether the first `l` and `r` of two sorted lists are none above the others.
pub open spec fn is_split(left: Seq<u64>, right: Seq<u64>, l: int, r: int) -> bool {
    &&& 0 <= l <= left.len()
    &&& 0 <= r <= right.len()
    &&& l > 0 && r < right.len() ==> left[l - 1] <= right[r]
    &&& r > 0 && l < left.len() ==> right[r - 1] <= left[l]
}

/// The least number after a split of two sorted lists.
pub open spec fn next_value(left: Seq<u64>, right: Seq<u64>, l: int, r: int) -> u64 {
    if r >= right.len() || (l < left.len() && left[l] <= right[r]) {
        left[l]
    } else {
        right[r]
    }
}

/// The split of two sorted lists after `position` numbers were taken, the left one first where
/// they are equal.
pub open spec fn split_at(left: Seq<u64>, right: Seq<u64>, position: int) -> (int, int)
    decreases position,
{
    if position <= 0 {
        (0, 0)
    } else {
        let (l, r) = split_at(left, right, position - 1);
        if r >= right.len() || (l < left.len() && left[l] <= right[r]) {
            (l + 1, r)
        } else {
            (l, r + 1)
        }
    }
}

/// The numbers of two sorted lists, merged.
pub open spec fn merged(left: Seq<u64>, right: Seq<u64>, from: int, to: int) -> Seq<u64> {
    Seq::new(
        (to - from) as nat,
        |k: int| {
            let (l, r) = split_at(left, right, from + k);
            next_value(left, right, l, r)
        },
    )
}

proof fn lemma_split_at(left: Seq<u64>, right: Seq<u64>, position: int)
    requires
        parallel::ascending(left),
        parallel::ascending(right),
        0 <= position <= left.len() + right.len(),
    ensures
        ({
            let (l, r) = split_at(left, right, position);
            is_split(left, right, l, r) && l + r == position
        }),
    decreases position,
{
    if position > 0 {
        lemma_split_at(left, right, position - 1);
    }
}

/// Splits of the same size have the same next number.
proof fn lemma_splits_agree(left: Seq<u64>, right: Seq<u64>, l: int, r: int, m: int, s: int)
    requires
        parallel::ascending(left),
        parallel::ascending(right),
        is_split(left, right, l, r),
        is_split(left, right, m, s),
        l + r == m + s,
        l + r < left.len() + right.len(),
    ensures
        next_value(left, right, l, r) == next_value(left, right, m, s),
{
    if l < m {
        assert(right[s] <= right[r - 1]);
        assert(right[r - 1] <= left[l]);
        assert(left[l] <= left[m - 1]);
        assert(left[m - 1] <= right[s]);
        if m < left.len() {
            assert(left[m - 1] <= left[m]);
        }
        if r < right.len() {
            assert(right[r - 1] <= right[r]);
        }
    } else if m < l {
        assert(right[r] <= right[s - 1]);
        assert(right[s - 1] <= left[m]);
        assert(left[m] <= left[l - 1]);
        assert(left[l - 1] <= right[r]);
        if l < left.len() {
            assert(left[l - 1] <= left[l]);
        }
        if s < right.len() {
            assert(right[s - 1] <= right[s]);
        }
    }
}

/// How many numbers of the left list are among the first `output_position` of the merged ones.
fn merge_partition(left: &Vec<u64>, right: &Vec<u64>, output_position: usize) -> (position: usize)
    requires
        output_position <= left@.len() + right@.len(),
    ensures
        position <= left@.len(),
        position <= output_position,
        output_position - position <= right@.len(),
        parallel::ascending(left@) && parallel::ascending(right@) ==> is_split(
            left@,
            right@,
            position as int,
            output_position - position,
        ),
{
    let ghost sorted = parallel::ascending(left@) && parallel::ascending(right@);
    let mut low: usize = if output_position > right.len() {
        output_position - right.len()
    } else {
        0
    };
    let mut high: usize = if output_position < left.len() {
        output_position
    } else {
        left.len()
    };
    let ghost least = low;
    let ghost most = high;
    while low < high
        invariant
            least <= low <= high <= most,
            most <= left@.len(),
            most <= output_position,
            output_position - least <= right@.len(),
            least == 0 || output_position - least == right@.len(),
            most == left@.len() || most == output_position,
            sorted == (parallel::ascending(left@) && parallel::ascending(right@)),
            sorted && low > least ==> left@[low - 1] <= right@[output_position - low],
            sorted && high < most ==> right@[output_position - high - 1] <= left@[high as int],
        decreases high - low,
    {
        let left_position: usize = low + (high - low) / 2;
        let right_position: usize = output_position - left_position;
        if right_position > 0 && right[right_position - 1] > left[left_position] {
            low = left_position + 1;
        } else {
            high = left_position;
        }
    }
    low
}

/// Merges the numbers of two sorted lists from one position of the result to another.
fn merge_packed_range(left: &Vec<u64>, right: &Vec<u64>, from: usize, to: usize) -> (output: Vec<
    u64,
>)
    requires
        from <= to <= left@.len() + right@.len(),
    ensures
        output@.len() == to - from,
        parallel::ascending(left@) && parallel::ascending(right@) ==> output@ == merged(
            left@,
            right@,
            from as int,
            to as int,
        ),
{
    let ghost sorted = parallel::ascending(left@) && parallel::ascending(right@);
    let mut left_row: usize = merge_partition(left, right, from);
    let mut right_row: usize = from - left_row;
    let mut output: Vec<u64> = Vec::new();
    let mut position: usize = from;
    while position < to
        invariant
            from <= position <= to <= left@.len() + right@.len(),
            left_row + right_row == position,
            left_row <= left@.len(),
            right_row <= right@.len(),
            output@.len() == position - from,
            sorted == (parallel::ascending(left@) && parallel::ascending(right@)),
            sorted ==> is_split(left@, right@, left_row as int, right_row as int),
            sorted ==> output@ == merged(left@, right@, from as int, position as int),
        decreases to - position,
    {
        proof {
            if sorted {
                lemma_split_at(left@, right@, position as int);
                let (l, r) = split_at(left@, right@, position as int);
                lemma_splits_agree(left@, right@, left_row as int, right_row as int, l, r);
                assert(merged(left@, right@, from as int, position + 1) =~= merged(
                    left@,
                    right@,
                    from as int,
                    position as int,
                ).push(next_value(left@, right@, left_row as int, right_row as int)));
            }
        }
        if right_row == right.len() || (left_row < left.len() && left[left_row]
            <= right[right_row]) {
            output.push(left[left_row]);
            left_row += 1;
        } else {
            output.push(right[right_row]);
            right_row += 1;
        }
        position += 1;
    }
    output
}

/// The merged numbers are in order, and are those of the two lists.
proof fn lemma_merged(left: Seq<u64>, right: Seq<u64>, count: int)
    requires
        parallel::ascending(left),
        parallel::ascending(right),
        0 <= count <= left.len() + right.len(),
    ensures
        parallel::ascending(merged(left, right, 0, count)),
        count > 0 ==> ({
            let (l, r) = split_at(left, right, count);
            let last = merged(left, right, 0, count)[count - 1];
            (l < left.len() ==> last <= left[l]) && (r < right.len() ==> last <= right[r])
        }),
        forall|v: u64|
            #![trigger merged(left, right, 0, count).contains(v)]
            merged(left, right, 0, count).contains(v) <==> ({
                let (l, r) = split_at(left, right, count);
                left.take(l).contains(v) || right.take(r).contains(v)
            }),
    decreases count,
{
    let all = merged(left, right, 0, count);
    if count > 0 {
        lemma_merged(left, right, count - 1);
        lemma_split_at(left, right, count - 1);
        lemma_split_at(left, right, count);
        let before = merged(left, right, 0, count - 1);
        let (l, r) = split_at(left, right, count - 1);
        let (m, s) = split_at(left, right, count);
        let value = next_value(left, right, l, r);
        assert(all =~= before.push(value));
        if m > l && m < left.len() {
            assert(left[l] <= left[m]);
        }
        if s > r && s < right.len() {
            assert(right[r] <= right[s]);
        }
        assert forall|i: int, j: int| 0 <= i <= j < all.len() implies all[i] <= all[j] by {
            if j == count - 1 && i < count - 1 {
                assert(before[i] <= before[count - 2]);
            }
        }
        assert forall|v: u64|
            #![trigger all.contains(v)]
            all.contains(v) <==> (left.take(m).contains(v) || right.take(s).contains(v)) by {
            assert(before.contains(v) <==> (left.take(l).contains(v) || right.take(r).contains(
                v,
            )));
            vstd::seq_lib::lemma_seq_contains_after_push(before, value, v);
            if m > l {
                assert(left.take(m) =~= left.take(l).push(value));
                vstd::seq_lib::lemma_seq_contains_after_push(left.take(l), value, v);
            } else {
                assert(right.take(s) =~= right.take(r).push(value));
                vstd::seq_lib::lemma_seq_contains_after_push(right.take(r), value, v);
            }
        }
    } else {
        assert(all =~= Seq::<u64>::empty());
        assert(left.take(0) =~= Seq::<u64>::empty());
        assert(right.take(0) =~= Seq::<u64>::empty());
    }
}

proof fn lemma_packed_sorted(pairs: Seq<Pair>)
    requires
        pairs_sorted(pairs),
    ensures
        parallel::ascending(packed_all(pairs)),
{
    let values = packed_all(pairs);
    assert forall|i: int, j: int| 0 <= i <= j < values.len() implies values[i] <= values[j] by {
        assert(!pair_less(pairs[j], pairs[i]));
        law_packing(pairs[j], pairs[i]);
    }
}

/// The rows of two sorted relations once each, merged range by range.
pub(crate) fn par_unite_rows(left: BinaryColumns, right: BinaryColumns, workers: usize) -> (rows: Vec<
    Pair,
>)
    requires
        left.wf(),
        right.wf(),
        workers > 0,
        left.rows().len() + right.rows().len() <= usize::MAX,
    ensures
        rows@.len() <= left.rows().len() + right.rows().len(),
        pairs_sorted(left.rows()) && pairs_sorted(right.rows()) ==> is_union(
            rows@,
            left.rows(),
            right.rows(),
        ),
{
    let ghost sorted = pairs_sorted(left.rows()) && pairs_sorted(right.rows());
    let packed_left = par_pack_rows(left);
    let packed_right = par_pack_rows(right);
    proof {
        if sorted {
            lemma_packed_sorted(left.rows());
            lemma_packed_sorted(right.rows());
        }
    }
    let total: usize = packed_left.len() + packed_right.len();
    let bounds = chunk_bounds(total, workers);
    let merge = |i: usize| -> (part: Vec<u64>)
        requires
            is_range(bounds@, i as int, packed_left@.len() + packed_right@.len()),
        ensures
            part@.len() == bounds@[i + 1] - bounds@[i as int],
            parallel::ascending(packed_left@) && parallel::ascending(packed_right@) ==> part@
                == merged(
                packed_left@,
                packed_right@,
                bounds@[i as int] as int,
                bounds@[i + 1] as int,
            ),
    {
        assert(i < bounds.len());
        merge_packed_range(&packed_left, &packed_right, bounds[i], bounds[i + 1])
    };
    proof {
        assert forall|i: usize| i < bounds@.len() - 1 implies #[trigger] call_requires(
            merge,
            (i,),
        ) by {
            assert(bounds@[i as int] < bounds@[i + 1]);
            assert(bounds@[i + 1] <= bounds@[bounds@.len() - 1]);
        }
    }
    let parts = par_map(bounds.len() - 1, merge);
    let mut values = gather(&parts);
    let ghost all = values@;
    proof {
        let views = chunks::part_views(parts@);
        assert forall|i: int| 0 <= i < views.len() implies (#[trigger] views[i]).len()
            <= bounds@[i + 1] - bounds@[i] by {
            assert(call_ensures(merge, (i as usize,), parts@[i as usize as int]));
        }
        lemma_flat_length(views, bounds@, views.len() as int);
        assert(views.take(views.len() as int) =~= views);
        if sorted {
            let yields = |a: int, b: int| merged(packed_left@, packed_right@, a, b);
            assert forall|i: int| 0 <= i < views.len() implies #[trigger] views[i] == yields(
                bounds@[i] as int,
                bounds@[i + 1] as int,
            ) by {
                assert(call_ensures(merge, (i as usize,), parts@[i as usize as int]));
            }
            assert forall|a: int, b: int, c: int|
                #![trigger yields(a, b), yields(b, c)]
                0 <= a <= b <= c <= total implies yields(a, c) == yields(a, b) + yields(b, c) by {
                assert(yields(a, c) =~= yields(a, b) + yields(b, c));
            }
            assert(yields(0, 0) =~= Seq::<u64>::empty());
            chunks::lemma_flat_ranges(views, bounds@, yields, total as int, views.len() as int);
            assert(all == merged(packed_left@, packed_right@, 0, total as int));
            lemma_merged(packed_left@, packed_right@, total as int);
            lemma_split_at(packed_left@, packed_right@, total as int);
            assert(packed_left@.take(packed_left@.len() as int) =~= packed_left@);
            assert(packed_right@.take(packed_right@.len() as int) =~= packed_right@);
        }
    }
    let unique: usize = deduplicate_sorted(&mut values);
    proof {
        if sorted {
            let kept = values@.take(unique as int);
            let both = left.rows() + right.rows();
            assert(packed_all(both) =~= packed_left@ + packed_right@);
            assert forall|v: u64| kept.contains(v) <==> packed_all(both).contains(v) by {
                assert(kept.contains(v) <==> all.contains(v));
                lemma_sum_contains(packed_left@, packed_right@, v);
            }
            lemma_unpack_ascending(kept, both);
        }
    }
    par_unpack_rows(&values, unique)
}

} // verus!
