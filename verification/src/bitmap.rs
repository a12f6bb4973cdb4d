//! An index of a column whose lists of rows are bitmaps.
use vstd::prelude::*;

use crate::execution::Error;
use crate::index;
use crate::index::U32RangeIndex;
use crate::join;
use crate::join::{emit_rows, join_on, KeyRows, ProjectionColumn};
use crate::pairs::Pair;
use crate::parallel::thread_count;
use crate::relational::BinaryEqualityJoin;
use crate::row_set::{empty_row_set, insert_row, rows_held, rows_in, RowSet, SET_ROWS};
use crate::sorted;
use crate::sorted::position_of;
use crate::storage;
use crate::storage::{Column, RelationView};
use crate::workspace::JoinWorkspace;

verus! {

/// Which of the sets of a bitmap a row is in.
pub open spec fn part_of(row: u32) -> u32 {
    row / (SET_ROWS as u32)
}

/// Whether numbered sets hold a row: the set of that part of the rows holds its place there.
pub open spec fn holds_row(parts: Seq<(u32, RowSet)>, row: u32) -> bool {
    exists|p: int|
        0 <= p < parts.len() && (#[trigger] parts[p]).0 == part_of(row) && rows_held(
            parts[p].1,
        ).contains((row as usize) % SET_ROWS)
}

/// Whether numbered sets are in the order of the rows.
pub open spec fn parts_ordered(parts: Seq<(u32, RowSet)>) -> bool {
    &&& forall|i: int, j: int|
        #![trigger parts[i], parts[j]]
        0 <= i < j < parts.len() ==> parts[i].0 < parts[j].0
    &&& forall|i: int| 0 <= i < parts.len() ==> (#[trigger] parts[i]).0 <= u32::MAX / (SET_ROWS as u32)
}

/// The rows of a value, in sparse sets, with their number.
pub struct BitmapPosting {
    parts: Vec<(u32, RowSet)>,
    count: usize,
    all: Ghost<Seq<u32>>,
}

/// A row is found from its part and its place there.
proof fn lemma_row_place(row: u32)
    ensures
        part_of(row) as int * SET_ROWS + (row as usize) % SET_ROWS == row,
        (row as usize) % SET_ROWS < SET_ROWS,
        part_of(row) <= u32::MAX / (SET_ROWS as u32),
{
}

/// One more set behind the others.
proof fn lemma_holds_push(parts: Seq<(u32, RowSet)>, part: (u32, RowSet), row: u32)
    ensures
        holds_row(parts.push(part), row) <==> holds_row(parts, row) || (part.0 == part_of(row)
            && rows_held(part.1).contains((row as usize) % SET_ROWS)),
{
    let longer = parts.push(part);
    if holds_row(longer, row) {
        let p = choose|p: int|
            0 <= p < longer.len() && (#[trigger] longer[p]).0 == part_of(row) && rows_held(
                longer[p].1,
            ).contains((row as usize) % SET_ROWS);
        if p < parts.len() {
            assert(parts[p] == longer[p]);
        }
    }
    if holds_row(parts, row) {
        let p = choose|p: int|
            0 <= p < parts.len() && (#[trigger] parts[p]).0 == part_of(row) && rows_held(
                parts[p].1,
            ).contains((row as usize) % SET_ROWS);
        assert(longer[p] == parts[p]);
    }
    assert(longer[parts.len() as int] == part);
}

impl BitmapPosting {
    /// The rows, in ascending order.
    pub closed spec fn listed(&self) -> Seq<u32> {
        self.all@
    }

    pub closed spec fn wf(&self) -> bool {
        &&& self.count == self.listed().len()
        &&& sorted::ascending(self.listed())
        &&& parts_ordered(self.parts@)
        &&& forall|row: u32|
            #![trigger self.listed().contains(row)]
            #![trigger holds_row(self.parts@, row)]
            self.listed().contains(row) <==> holds_row(self.parts@, row)
    }

    /// The bitmap of ascending rows.
    fn of(rows: &[u32]) -> (posting: Self)
        requires
            sorted::ascending(rows@),
        ensures
            posting.wf(),
            posting.listed() == rows@,
    {
        let size: u32 = SET_ROWS as u32;
        let mut parts: Vec<(u32, RowSet)> = Vec::new();
        let mut i: usize = 0;
        assert(rows@.take(0) =~= Seq::<u32>::empty());
        while i < rows.len()
            invariant
                i <= rows@.len(),
                size == SET_ROWS,
                sorted::ascending(rows@),
                parts_ordered(parts@),
                forall|p: int|
                    0 <= p < parts@.len() && i < rows@.len() ==> (#[trigger] parts@[p]).0
                        < part_of(rows@[i as int]),
                forall|row: u32|
                    #![trigger rows@.take(i as int).contains(row)]
                    #![trigger holds_row(parts@, row)]
                    rows@.take(i as int).contains(row) <==> holds_row(parts@, row),
            decreases rows@.len() - i,
        {
            let part: u32 = rows[i] / size;
            let mut set = empty_row_set();
            let ghost first = i as int;
            let ghost before = parts@;
            while i < rows.len() && rows[i] / size == part
                invariant
                    first <= i <= rows@.len(),
                    first < rows@.len(),
                    size == SET_ROWS,
                    sorted::ascending(rows@),
                    part == part_of(rows@[first]),
                    forall|k: int| first <= k < i ==> part_of(#[trigger] rows@[k]) == part,
                    forall|row: u32|
                        part_of(row) == part ==> (#[trigger] rows_held(set).contains(
                            (row as usize) % SET_ROWS,
                        ) <==> exists|k: int| first <= k < i && #[trigger] rows@[k] == row),
                decreases rows@.len() - i,
            {
                let ghost held = rows_held(set);
                let ghost now = rows@[i as int];
                let place: usize = (rows[i] % size) as usize;
                insert_row(&mut set, place);
                proof {
                    lemma_row_place(now);
                    assert forall|row: u32| part_of(row) == part implies (#[trigger] rows_held(
                        set,
                    ).contains((row as usize) % SET_ROWS) <==> exists|k: int|
                        first <= k < i + 1 && #[trigger] rows@[k] == row) by {
                        lemma_row_place(row);
                        if held.contains((row as usize) % SET_ROWS) {
                            let k = choose|k: int| first <= k < i && #[trigger] rows@[k] == row;
                            assert(rows@[k] == row);
                        }
                        if row == now {
                            assert(rows@[i as int] == row);
                        }
                        if exists|k: int| first <= k < i + 1 && #[trigger] rows@[k] == row {
                            let k = choose|k: int| first <= k < i + 1 && #[trigger] rows@[k] == row;
                            if k < i {
                                assert(rows@[k] == row);
                            }
                        }
                    }
                }
                i += 1;
            }
            let ghost added = (part, set);
            parts.push((part, set));
            proof {
                assert(parts@ =~= before.push(added));
                assert(rows@[first] / size == part);
                lemma_row_place(rows@[first]);
                assert(first < i);
                if i < rows@.len() {
                    assert(rows@[first] < rows@[i as int]);
                    assert(part < part_of(rows@[i as int]));
                }
                assert forall|row: u32|
                    #![trigger rows@.take(i as int).contains(row)]
                    #![trigger holds_row(parts@, row)]
                    rows@.take(i as int).contains(row) <==> holds_row(parts@, row) by {
                    lemma_holds_push(before, added, row);
                    if rows@.take(i as int).contains(row) {
                        let k = choose|k: int| 0 <= k < i && rows@.take(i as int)[k] == row;
                        if k < first {
                            assert(rows@.take(first)[k] == row);
                        } else {
                            assert(rows@[k] == row);
                            assert(rows_held(set).contains((row as usize) % SET_ROWS));
                        }
                    }
                    if holds_row(before, row) {
                        assert(rows@.take(first).contains(row));
                        let k = choose|k: int| 0 <= k < first && rows@.take(first)[k] == row;
                        assert(rows@.take(i as int)[k] == row);
                    }
                    if part == part_of(row) && rows_held(set).contains((row as usize) % SET_ROWS) {
                        let k = choose|k: int| first <= k < i && #[trigger] rows@[k] == row;
                        assert(rows@.take(i as int)[k] == row);
                    }
                }
            }
        }
        assert(rows@.take(rows@.len() as int) =~= rows@);
        BitmapPosting { parts, count: rows.len(), all: Ghost(rows@) }
    }

    pub fn len(&self) -> (count: usize)
        requires
            self.wf(),
        ensures
            count == self.listed().len(),
    {
        self.count
    }

    pub fn is_empty(&self) -> (empty: bool)
        requires
            self.wf(),
        ensures
            empty == (self.listed().len() == 0),
    {
        self.count == 0
    }

    /// The rows, in ascending order.
    pub fn rows(&self) -> (rows: Vec<u32>)
        requires
            self.wf(),
        ensures
            rows@ == self.listed(),
    {
        let size: u32 = SET_ROWS as u32;
        let mut rows: Vec<u32> = Vec::new();
        let mut p: usize = 0;
        while p < self.parts.len()
            invariant
                p <= self.parts@.len(),
                size == SET_ROWS,
                self.wf(),
                sorted::ascending(rows@),
                forall|k: int, q: int|
                    #![trigger rows@[k], self.parts@[q]]
                    0 <= k < rows@.len() && p <= q < self.parts@.len() ==> part_of(rows@[k])
                        < self.parts@[q].0,
                forall|row: u32|
                    #![trigger rows@.contains(row)]
                    #![trigger holds_row(self.parts@.take(p as int), row)]
                    rows@.contains(row) <==> holds_row(self.parts@.take(p as int), row),
            decreases self.parts@.len() - p,
        {
            let part: u32 = self.parts[p].0;
            let found = rows_in(&self.parts[p].1);
            let ghost set = self.parts@[p as int].1;
            let ghost before = rows@;
            let mut k: usize = 0;
            while k < found.len()
                invariant
                    k <= found@.len(),
                    size == SET_ROWS,
                    part <= u32::MAX / size,
                    forall|i: int, j: int| 0 <= i < j < found@.len() ==> found@[i] < found@[j],
                    forall|i: int| 0 <= i < found@.len() ==> #[trigger] found@[i] < SET_ROWS,
                    rows@.len() == before.len() + k,
                    forall|i: int| 0 <= i < before.len() ==> #[trigger] rows@[i] == before[i],
                    forall|i: int|
                        0 <= i < k ==> #[trigger] rows@[before.len() + i] == part * SET_ROWS
                            + found@[i],
                decreases found@.len() - k,
            {
                assert(part * size + found@[k as int] <= u32::MAX) by (nonlinear_arith)
                    requires
                        part <= u32::MAX / size,
                        size == 2_097_152,
                        found@[k as int] < 2_097_152,
                ;
                assert(part * size <= u32::MAX) by (nonlinear_arith)
                    requires
                        part <= u32::MAX / size,
                        size == 2_097_152,
                ;
                rows.push(part * size + found[k] as u32);
                k += 1;
            }
            proof {
                lemma_part_added(self.parts@, before, rows@, p as int, found@);
            }
            p += 1;
        }
        proof {
            assert(self.parts@.take(self.parts@.len() as int) =~= self.parts@);
            sorted::lemma_ascending_unique(rows@, self.listed());
        }
        rows
    }
}

/// The rows of one more set, behind those of the sets before it.
proof fn lemma_part_added(
    parts: Seq<(u32, RowSet)>,
    before: Seq<u32>,
    after: Seq<u32>,
    p: int,
    found: Seq<usize>,
)
    requires
        0 <= p < parts.len(),
        parts_ordered(parts),
        sorted::ascending(before),
        forall|k: int, q: int|
            #![trigger before[k], parts[q]]
            0 <= k < before.len() && p <= q < parts.len() ==> part_of(before[k]) < parts[q].0,
        forall|row: u32|
            #![trigger before.contains(row)]
            #![trigger holds_row(parts.take(p), row)]
            before.contains(row) <==> holds_row(parts.take(p), row),
        forall|i: int, j: int| 0 <= i < j < found.len() ==> found[i] < found[j],
        forall|i: int| 0 <= i < found.len() ==> #[trigger] found[i] < SET_ROWS,
        found.to_set() == rows_held(parts[p].1),
        after.len() == before.len() + found.len(),
        forall|i: int| 0 <= i < before.len() ==> #[trigger] after[i] == before[i],
        forall|i: int|
            0 <= i < found.len() ==> #[trigger] after[before.len() + i] == parts[p].0 * SET_ROWS
                + found[i],
    ensures
        sorted::ascending(after),
        forall|k: int, q: int|
            #![trigger after[k], parts[q]]
            0 <= k < after.len() && p + 1 <= q < parts.len() ==> part_of(after[k]) < parts[q].0,
        forall|row: u32|
            #![trigger after.contains(row)]
            #![trigger holds_row(parts.take(p + 1), row)]
            after.contains(row) <==> holds_row(parts.take(p + 1), row),
{
    let part = parts[p].0;
    let n = before.len() as int;
    assert forall|k: int| n <= k < after.len() implies part_of(#[trigger] after[k]) == part
        && (after[k] as usize) % SET_ROWS == found[k - n] by {
        assert(after[n + (k - n)] == part * SET_ROWS + found[k - n]);
    }
    assert forall|k: int| 0 <= k < n implies part_of(#[trigger] after[k]) < part by {
        let q = parts[p];
        assert(before[k] == after[k]);
    }
    assert forall|i: int, j: int| 0 <= i < j < after.len() implies after[i] < after[j] by {
        if j < n {
            assert(before[i] < before[j]);
        } else if i < n {
            assert(part_of(after[i]) < part_of(after[j]));
        } else {
            assert(after[n + (i - n)] == part * SET_ROWS + found[i - n]);
            assert(after[n + (j - n)] == part * SET_ROWS + found[j - n]);
            assert(found[i - n] < found[j - n]);
        }
    }
    assert forall|k: int, q: int|
        #![trigger after[k], parts[q]]
        0 <= k < after.len() && p + 1 <= q < parts.len() implies part_of(after[k]) < parts[q].0 by {
        assert(parts[p].0 < parts[q].0);
    }
    assert(parts.take(p + 1) =~= parts.take(p).push(parts[p]));
    assert forall|row: u32|
        #![trigger after.contains(row)]
        #![trigger holds_row(parts.take(p + 1), row)]
        after.contains(row) <==> holds_row(parts.take(p + 1), row) by {
        lemma_holds_push(parts.take(p), parts[p], row);
        lemma_row_place(row);
        let place = (row as usize) % SET_ROWS;
        if after.contains(row) {
            let k = choose|k: int| 0 <= k < after.len() && after[k] == row;
            if k < n {
                assert(before[k] == row);
                assert(before.contains(row));
            } else {
                assert(found.contains(found[k - n]));
                assert(found.to_set().contains(place));
            }
        }
        if holds_row(parts.take(p), row) {
            assert(before.contains(row));
            let k = choose|k: int| 0 <= k < before.len() && before[k] == row;
            assert(after[k] == row);
        }
        if part == part_of(row) && rows_held(parts[p].1).contains(place) {
            assert(found.to_set().contains(place));
            let i = choose|i: int| 0 <= i < found.len() && found[i] == place;
            assert(after[n + i] == part * SET_ROWS + found[i]);
            assert(after[n + i] == row);
        }
    }
}

/// A sparse index from values to bitmaps of rows.
pub struct U32BitmapIndex {
    keys: Vec<u32>,
    postings: Vec<BitmapPosting>,
    source_rows: usize,
}

/// As many keys as there are values, among them every value, are values.
proof fn lemma_keys_occur(keys: Seq<u32>, values: Seq<u32>, postings: spec_fn(u32) -> Seq<u32>)
    requires
        values.len() <= u32::MAX,
        sorted::ascending(keys),
        keys.len() == values.to_set().len(),
        forall|key: u32| !keys.contains(key) ==> (#[trigger] postings(key)).len() == 0,
        forall|key: u32| #[trigger] postings(key) == index::matching_rows(values, key),
    ensures
        forall|key: u32| #[trigger] keys.contains(key) ==> postings(key).len() > 0,
{
    let listed = keys.to_set();
    let occurring = values.to_set();
    vstd::seq_lib::seq_to_set_is_finite(keys);
    vstd::seq_lib::seq_to_set_is_finite(values);
    assert(keys.no_duplicates());
    keys.unique_seq_to_set();
    assert forall|key: u32| #[trigger] occurring.contains(key) implies listed.contains(key) by {
        let r = choose|r: int| 0 <= r < values.len() && values[r] == key;
        index::lemma_matching_rows(values, key);
        assert(index::matching_rows(values, key).contains(r as u32));
        assert(postings(key).len() > 0);
    }
    vstd::set_lib::lemma_subset_equality(occurring, listed);
    assert forall|key: u32| #[trigger] keys.contains(key) implies postings(key).len() > 0 by {
        assert(listed.contains(key));
        assert(occurring.contains(key));
        let r = choose|r: int| 0 <= r < values.len() && values[r] == key;
        index::lemma_matching_rows(values, key);
        assert(index::matching_rows(values, key).contains(r as u32));
    }
}

impl U32BitmapIndex {
    /// The number of rows of the column.
    pub closed spec fn count(&self) -> nat {
        self.source_rows as nat
    }

    pub closed spec fn wf(&self) -> bool {
        &&& sorted::ascending(self.keys@)
        &&& self.keys@.len() == self.postings@.len()
        &&& self.source_rows <= u32::MAX
        &&& forall|i: int|
            0 <= i < self.postings@.len() ==> {
                &&& (#[trigger] self.postings@[i]).wf()
                &&& 0 < self.postings@[i].listed().len() <= self.source_rows
                &&& forall|j: int|
                    0 <= j < self.postings@[i].listed().len() ==> (
                    #[trigger] self.postings@[i].listed()[j]) < self.source_rows
            }
    }

    /// The rows of a value.
    pub closed spec fn postings(&self, key: u32) -> Seq<u32> {
        match index::key_position(self.keys@, key) {
            Some(i) => self.postings@[i].listed(),
            None => Seq::empty(),
        }
    }

    /// The number of different values.
    pub closed spec fn key_count(&self) -> nat {
        self.keys@.len()
    }

    /// Indexes a column.
    ///
    /// Fails if rows cannot be numbered in 32 bits, or if the lists cannot be held.
    pub fn build(column: &Column) -> (result: Result<Self, storage::Error>)
        ensures
            if column@.len() > u32::MAX {
                result is Err && result->Err_0 == storage::Error::TooManyRows(
                    column@.len() as usize,
                )
            } else if storage::size_fits::<u32>(column@.len()) && storage::size_fits::<u32>(
                column@.to_set().len() + 1,
            ) {
                &&& result is Ok
                &&& result->Ok_0.wf()
                &&& result->Ok_0.count() == column@.len()
                &&& result->Ok_0.key_count() == column@.to_set().len()
                &&& forall|key: u32| #[trigger]
                    result->Ok_0.postings(key) == index::matching_rows(column@, key)
            } else {
                result is Err && result->Err_0 == storage::Error::LengthOverflow
            },
    {
        let lists = match U32RangeIndex::build(column) {
            Ok(lists) => lists,
            Err(error) => {
                return Err(error);
            },
        };
        let found = lists.keys().as_slice();
        let mut keys: Vec<u32> = Vec::new();
        let mut postings: Vec<BitmapPosting> = Vec::new();
        let mut i: usize = 0;
        while i < found.len()
            invariant
                i <= found@.len(),
                lists.wf(),
                found@ == lists.key_list(),
                lists.count() == column@.len() <= u32::MAX,
                forall|key: u32| #[trigger]
                    lists.postings(key) == index::matching_rows(column@, key),
                keys@ == found@.take(i as int),
                postings@.len() == i,
                forall|k: int|
                    0 <= k < i ==> {
                        &&& (#[trigger] postings@[k]).wf()
                        &&& postings@[k].listed() == lists.postings(found@[k])
                        &&& postings@[k].listed().len() <= lists.count()
                        &&& forall|j: int|
                            0 <= j < postings@[k].listed().len() ==> (
                            #[trigger] postings@[k].listed()[j]) < lists.count()
                    },
            decreases found@.len() - i,
        {
            let key: u32 = found[i];
            let rows = lists.lookup(key);
            proof {
                index::lemma_matching_rows(column@, key);
            }
            let posting = BitmapPosting::of(rows);
            keys.push(key);
            postings.push(posting);
            assert(keys@ =~= found@.take(i + 1));
            i += 1;
        }
        proof {
            lemma_keys_occur(lists.key_list(), column@, |key: u32| lists.postings(key));
            assert forall|k: int| 0 <= k < postings@.len() implies (
            #[trigger] postings@[k]).listed().len() > 0 by {
                assert(found@.contains(found@[k]));
            }
        }
        let source_rows: usize = lists.source_rows();
        let bitmaps = U32BitmapIndex { keys, postings, source_rows };
        proof {
            assert(keys@ =~= lists.key_list());
            assert forall|key: u32| #[trigger] bitmaps.postings(key) == index::matching_rows(
                column@,
                key,
            ) by {
                if lists.key_list().contains(key) {
                    let k = lists.key_list().index_of(key);
                    assert(bitmaps.postings@[k].listed() == lists.postings(found@[k]));
                } else {
                    assert(lists.postings(key) == Seq::<u32>::empty());
                }
            }
        }
        Ok(bitmaps)
    }

    pub fn source_rows(&self) -> (rows: usize)
        ensures
            rows == self.count(),
    {
        self.source_rows
    }

    pub fn unique_keys(&self) -> (keys: usize)
        ensures
            keys == self.key_count(),
    {
        self.keys.len()
    }

    /// The bitmap of a value, if the column has it.
    pub fn lookup(&self, key: u32) -> (posting: Option<&BitmapPosting>)
        requires
            self.wf(),
        ensures
            posting is Some <==> self.postings(key).len() > 0,
            posting matches Some(found) ==> {
                &&& found.wf()
                &&& found.listed() == self.postings(key)
                &&& found.listed().len() <= self.count()
                &&& forall|j: int|
                    0 <= j < found.listed().len() ==> (#[trigger] found.listed()[j])
                        < self.count()
            },
    {
        match position_of(&self.keys, key) {
            Some(i) => {
                proof {
                    let found = self.keys@.index_of(key);
                    assert(self.keys@.contains(key));
                    assert(self.keys@[found] == key);
                    if found < i {
                        assert(self.keys@[found] < self.keys@[i as int]);
                    }
                    if i < found {
                        assert(self.keys@[i as int] < self.keys@[found]);
                    }
                }
                let found = &self.postings[i];
                assert(self.postings@[i as int].wf());
                Some(found)
            },
            None => None,
        }
    }
}

impl KeyRows for U32BitmapIndex {
    open spec fn well_formed(&self) -> bool {
        self.wf()
    }

    open spec fn row_limit(&self) -> nat {
        self.count()
    }

    open spec fn list(&self, key: u32) -> Seq<u32> {
        self.postings(key)
    }

    proof fn lemma_list(&self, key: u32) {
        if self.keys@.contains(key) {
            let i = self.keys@.index_of(key);
            assert(self.postings@[i].wf());
            assert forall|j: int| 0 <= j < self.list(key).len() implies (
            #[trigger] self.list(key)[j]) < self.row_limit() by {
                assert(self.postings@[i].listed()[j] < self.source_rows);
            }
        }
    }

    fn row_count(&self) -> (count: usize) {
        self.source_rows
    }

    fn match_count(&self, key: u32) -> (count: usize) {
        match self.lookup(key) {
            Some(posting) => posting.len(),
            None => 0,
        }
    }

    fn emit(
        &self,
        key: u32,
        left_row: usize,
        first: ProjectionColumn<'_>,
        second: ProjectionColumn<'_>,
        rows: &mut Vec<Pair>,
    ) {
        match self.lookup(key) {
            Some(posting) => {
                let found = posting.rows();
                assert forall|k: int| 0 <= k < found@.len() implies {
                    &&& first.holds(left_row as int, (#[trigger] found@[k]) as nat + 1)
                    &&& second.holds(left_row as int, found@[k] as nat + 1)
                } by {
                    assert(posting.listed()[k] < self.count());
                }
                emit_rows(found.as_slice(), left_row, first, second, rows);
            },
            None => {
                assert(rows@ + Seq::new(
                    self.list(key).len(),
                    |j: int|
                        (
                            first.at(left_row as int, self.list(key)[j] as int),
                            second.at(left_row as int, self.list(key)[j] as int),
                        ),
                ) =~= rows@);
            },
        }
    }
}

/// Joins through a bitmap index, on this thread.
pub fn join_cpu_bitmap_serial(
    left: RelationView<'_>,
    right: RelationView<'_>,
    right_index: &U32BitmapIndex,
    plan: BinaryEqualityJoin,
    workspace: &mut JoinWorkspace,
) -> (result: Result<(), Error>)
    requires
        left.wf(),
        right.wf(),
        right_index.wf(),
        old(workspace)@.wf(),
        old(workspace)@.output.contents().len() >= 2,
    ensures
        join::join_done(
            left,
            right,
            right_index.count(),
            |k: u32| right_index.postings(k),
            plan,
            old(workspace)@,
            final(workspace)@,
            result,
        ),
{
    assert(join::lists(right_index) =~= (|k: u32| right_index.postings(k)));
    join_on(left, right, right_index, plan, workspace, 1)
}

/// Joins through a bitmap index, on the thread pool.
pub fn join_cpu_bitmap_parallel(
    left: RelationView<'_>,
    right: RelationView<'_>,
    right_index: &U32BitmapIndex,
    plan: BinaryEqualityJoin,
    workspace: &mut JoinWorkspace,
) -> (result: Result<(), Error>)
    requires
        left.wf(),
        right.wf(),
        right_index.wf(),
        old(workspace)@.wf(),
        old(workspace)@.output.contents().len() >= 2,
    ensures
        join::join_done(
            left,
            right,
            right_index.count(),
            |k: u32| right_index.postings(k),
            plan,
            old(workspace)@,
            final(workspace)@,
            result,
        ),
{
    assert(join::lists(right_index) =~= (|k: u32| right_index.postings(k)));
    let threads: usize = thread_count();
    if left.is_empty() || threads == 0 {
        return join_on(left, right, right_index, plan, workspace, 1);
    }
    join_on(left, right, right_index, plan, workspace, threads)
}

/// A range index and a bitmap index of the same values list the same rows of every key, so that a
/// join through either yields the same.
pub proof fn law_indexes_agree(range: U32RangeIndex, bitmaps: U32BitmapIndex, values: Seq<u32>)
    requires
        forall|key: u32| #[trigger] range.postings(key) == index::matching_rows(values, key),
        forall|key: u32| #[trigger] bitmaps.postings(key) == index::matching_rows(values, key),
    ensures
        (|key: u32| range.postings(key)) == (|key: u32| bitmaps.postings(key)),
{
    assert((|key: u32| range.postings(key)) =~= (|key: u32| bitmaps.postings(key)));
}

} // verus!
