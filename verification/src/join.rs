//! Joining relations through an index.
use vstd::prelude::*;

use crate::chunks;
use crate::chunks::{chunk_bounds, gather};
use crate::execution;
use crate::execution::{check_row_count, relation_column, Error, ErrorView};
use crate::index::U32RangeIndex;
use crate::pairs::Pair;
use crate::parallel::{par_map, thread_count};
use crate::placement::{JoinPlacementContext, JoinPlacementPolicy, Placement};
use crate::relational::{BinaryEqualityJoin, JoinInput, JoinProjection};
use crate::storage::RelationView;
use crate::workspace::{JoinParts, JoinWorkspace};

verus! {

/// The value that a projection takes from a left and a right row.
pub open spec fn projected(
    left: RelationView<'_>,
    right: RelationView<'_>,
    projection: JoinProjection,
    left_row: int,
    right_row: int,
) -> u32 {
    match projection.input {
        JoinInput::Left => left@[projection.column as int][left_row],
        JoinInput::Right => right@[projection.column as int][right_row],
    }
}

/// What one left row yields: a pair for each right row that the index lists for its key.
pub open spec fn row_join(
    left: RelationView<'_>,
    right: RelationView<'_>,
    plan: BinaryEqualityJoin,
    list: spec_fn(u32) -> Seq<u32>,
    left_row: int,
) -> Seq<Pair> {
    let rows = list(left@[plan.left_key as int][left_row]);
    Seq::new(
        rows.len(),
        |j: int|
            (
                projected(left, right, plan.output@[0], left_row, rows[j] as int),
                projected(left, right, plan.output@[1], left_row, rows[j] as int),
            ),
    )
}

/// What a range of left rows yields, in order.
pub open spec fn join_rows(
    left: RelationView<'_>,
    right: RelationView<'_>,
    plan: BinaryEqualityJoin,
    list: spec_fn(u32) -> Seq<u32>,
    from: int,
    to: int,
) -> Seq<Pair>
    decreases to - from,
{
    if from >= to {
        Seq::empty()
    } else {
        join_rows(left, right, plan, list, from, to - 1) + row_join(left, right, plan, list, to - 1)
    }
}

proof fn lemma_join_additive(
    left: RelationView<'_>,
    right: RelationView<'_>,
    plan: BinaryEqualityJoin,
    list: spec_fn(u32) -> Seq<u32>,
    a: int,
    b: int,
    c: int,
)
    requires
        0 <= a <= b <= c,
    ensures
        join_rows(left, right, plan, list, a, c) == join_rows(left, right, plan, list, a, b)
            + join_rows(left, right, plan, list, b, c),
    decreases c - b,
{
    if b < c {
        lemma_join_additive(left, right, plan, list, a, b, c - 1);
    }
    assert(join_rows(left, right, plan, list, a, c) =~= join_rows(left, right, plan, list, a, b)
        + join_rows(left, right, plan, list, b, c));
}

/// The right rows of each key.
pub trait KeyRows: Sync {
    /// Whether the lists are as they have to be.
    spec fn well_formed(&self) -> bool;

    /// The number of right rows.
    spec fn row_limit(&self) -> nat;

    /// The rows of a key, in ascending order.
    spec fn list(&self, key: u32) -> Seq<u32>;

    /// Listed rows are right rows.
    proof fn lemma_list(&self, key: u32)
        requires
            self.well_formed(),
        ensures
            forall|j: int|
                0 <= j < self.list(key).len() ==> (#[trigger] self.list(key)[j])
                    < self.row_limit(),
    ;

    /// The number of right rows.
    fn row_count(&self) -> (count: usize)
        ensures
            count == self.row_limit(),
    ;

    /// The number of rows of a key.
    fn match_count(&self, key: u32) -> (count: usize)
        requires
            self.well_formed(),
            self.row_limit() <= u32::MAX,
        ensures
            count == self.list(key).len(),
            count <= u32::MAX,
    ;

    /// Appends what a left row yields.
    fn emit(
        &self,
        key: u32,
        left_row: usize,
        first: ProjectionColumn<'_>,
        second: ProjectionColumn<'_>,
        rows: &mut Vec<Pair>,
    )
        requires
            self.well_formed(),
            self.row_limit() <= u32::MAX,
            first.holds(left_row as int, self.row_limit()),
            second.holds(left_row as int, self.row_limit()),
        ensures
            final(rows)@ == old(rows)@ + Seq::new(
                self.list(key).len(),
                |j: int|
                    (
                        first.at(left_row as int, self.list(key)[j] as int),
                        second.at(left_row as int, self.list(key)[j] as int),
                    ),
            ),
    ;
}

/// The rows of each key of an index.
pub open spec fn lists<I: KeyRows>(index: &I) -> spec_fn(u32) -> Seq<u32> {
    |key: u32| index.list(key)
}

/// A column that a projection reads, of the left or of the right relation.
#[derive(Clone, Copy)]
pub enum ProjectionColumn<'a> {
    Left(&'a [u32]),
    Right(&'a [u32]),
}

impl<'a> ProjectionColumn<'a> {
    /// The value for a left and a right row.
    pub open spec fn at(self, left_row: int, right_row: int) -> u32 {
        match self {
            ProjectionColumn::Left(column) => column@[left_row],
            ProjectionColumn::Right(column) => column@[right_row],
        }
    }

    /// Whether there is a value for a left row and any of the right rows.
    pub open spec fn holds(self, left_row: int, right_rows: nat) -> bool {
        match self {
            ProjectionColumn::Left(column) => 0 <= left_row < column@.len(),
            ProjectionColumn::Right(column) => right_rows <= column@.len(),
        }
    }

    pub fn value(self, left_row: usize, right_row: usize) -> (value: u32)
        requires
            match self {
                ProjectionColumn::Left(column) => left_row < column@.len(),
                ProjectionColumn::Right(column) => right_row < column@.len(),
            },
        ensures
            value == self.at(left_row as int, right_row as int),
    {
        match self {
            ProjectionColumn::Left(column) => column[left_row],
            ProjectionColumn::Right(column) => column[right_row],
        }
    }

    /// The number by which the device knows the side.
    pub fn side(self) -> (side: u32)
        ensures
            side == match self {
                ProjectionColumn::Left(_) => 0u32,
                ProjectionColumn::Right(_) => 1u32,
            },
    {
        match self {
            ProjectionColumn::Left(_) => 0,
            ProjectionColumn::Right(_) => 1,
        }
    }
}

impl KeyRows for U32RangeIndex {
    open spec fn well_formed(&self) -> bool {
        self.wf()
    }

    open spec fn row_limit(&self) -> nat {
        self.count()
    }

    open spec fn list(&self, key: u32) -> Seq<u32> {
        self.postings(key)
    }

    proof fn lemma_list(&self, key: u32) {
        let keys = self.key_list();
        if keys.contains(key) {
            let i = keys.index_of(key);
            assert(self.start_list()[i] <= self.start_list()[i + 1]);
            assert(self.start_list()[i + 1] <= self.start_list()[self.start_list().len() - 1]);
            assert forall|j: int| 0 <= j < self.list(key).len() implies (
            #[trigger] self.list(key)[j]) < self.row_limit() by {
                assert(self.row_list()[self.start_list()[i] + j] < self.count());
            }
        }
    }

    fn row_count(&self) -> (count: usize) {
        self.source_rows()
    }

    fn match_count(&self, key: u32) -> (count: usize) {
        self.lookup(key).len()
    }

    fn emit(
        &self,
        key: u32,
        left_row: usize,
        first: ProjectionColumn<'_>,
        second: ProjectionColumn<'_>,
        rows: &mut Vec<Pair>,
    ) {
        emit_rows(self.lookup(key), left_row, first, second, rows);
    }
}

/// Appends what a left row yields with some right rows.
pub(crate) fn emit_rows(
    found: &[u32],
    left_row: usize,
    first: ProjectionColumn<'_>,
    second: ProjectionColumn<'_>,
    rows: &mut Vec<Pair>,
)
    requires
        forall|k: int|
            0 <= k < found@.len() ==> {
                &&& first.holds(left_row as int, (#[trigger] found@[k]) as nat + 1)
                &&& second.holds(left_row as int, found@[k] as nat + 1)
            },
    ensures
        final(rows)@ == old(rows)@ + Seq::new(
            found@.len(),
            |j: int|
                (
                    first.at(left_row as int, found@[j] as int),
                    second.at(left_row as int, found@[j] as int),
                ),
        ),
{
    let ghost before = rows@;
    let ghost all = Seq::new(
        found@.len(),
        |j: int|
            (
                first.at(left_row as int, found@[j] as int),
                second.at(left_row as int, found@[j] as int),
            ),
    );
    let mut i: usize = 0;
    assert(before + all.take(0) =~= before);
    while i < found.len()
        invariant
            i <= found@.len(),
            forall|k: int|
                0 <= k < found@.len() ==> {
                    &&& first.holds(left_row as int, (#[trigger] found@[k]) as nat + 1)
                    &&& second.holds(left_row as int, found@[k] as nat + 1)
                },
            all == Seq::new(
                found@.len(),
                |j: int|
                    (
                        first.at(left_row as int, found@[j] as int),
                        second.at(left_row as int, found@[j] as int),
                    ),
            ),
            rows@ == before + all.take(i as int),
        decreases found@.len() - i,
    {
        assert(first.holds(left_row as int, found@[i as int] as nat + 1));
        let right_row: usize = found[i] as usize;
        rows.push((first.value(left_row, right_row), second.value(left_row, right_row)));
        assert(all.take(i + 1) =~= all.take(i as int).push(all[i as int]));
        i += 1;
    }
    assert(all.take(i as int) =~= all);
}

/// Why a join cannot read its input, if so.
pub open spec fn join_input_problem(
    left: RelationView<'_>,
    right: RelationView<'_>,
    index_rows: nat,
    plan: BinaryEqualityJoin,
) -> Option<ErrorView> {
    execution::first_of(
        execution::rows_problem(left.rows()),
        execution::first_of(
            execution::rows_problem(right.rows()),
            execution::first_of(
                execution::column_problem(left, "left"@, plan.left_key),
                execution::first_of(
                    execution::column_problem(right, "right"@, plan.right_key),
                    execution::first_of(
                        if right.rows() != index_rows {
                            Some(
                                ErrorView::IndexSourceMismatch {
                                    relation_rows: right.rows(),
                                    index_rows,
                                },
                            )
                        } else {
                            None
                        },
                        execution::first_of(
                            projection_problem(left, right, plan.output@[0]),
                            projection_problem(left, right, plan.output@[1]),
                        ),
                    ),
                ),
            ),
        ),
    )
}

pub open spec fn projection_problem(
    left: RelationView<'_>,
    right: RelationView<'_>,
    projection: JoinProjection,
) -> Option<ErrorView> {
    match projection.input {
        JoinInput::Left => execution::column_problem(left, "left"@, projection.column),
        JoinInput::Right => execution::column_problem(right, "right"@, projection.column),
    }
}

/// Why a join fails, if it does: its input, the room for counts, or the size of its output.
pub open spec fn join_problem(
    left: RelationView<'_>,
    right: RelationView<'_>,
    index_rows: nat,
    list: spec_fn(u32) -> Seq<u32>,
    plan: BinaryEqualityJoin,
    workspace: JoinParts,
) -> Option<ErrorView> {
    let total = join_rows(left, right, plan, list, 0, left.rows() as int).len();
    execution::first_of(
        join_input_problem(left, right, index_rows, plan),
        execution::first_of(
            execution::storage_problem(workspace.can_reserve_outer(left.rows())),
            if total > usize::MAX {
                Some(ErrorView::OutputTooLarge(total))
            } else {
                execution::storage_problem(workspace.output.can_reserve(total))
            },
        ),
    )
}

/// Whether a run of the operator left what it has to.
pub open spec fn join_done<T>(
    left: RelationView<'_>,
    right: RelationView<'_>,
    index_rows: nat,
    list: spec_fn(u32) -> Seq<u32>,
    plan: BinaryEqualityJoin,
    before: JoinParts,
    after: JoinParts,
    result: Result<T, Error>,
) -> bool {
    &&& after.wf()
    &&& after.output.contents().len() == before.output.contents().len()
    &&& execution::fails_as(result, join_problem(left, right, index_rows, list, plan, before))
    &&& match result {
        Ok(_) => after.output.pairs() == join_rows(
            left,
            right,
            plan,
            list,
            0,
            left.rows() as int,
        ),
        Err(_) => after.output == before.output,
    }
}

fn projection_column<'a>(
    left: RelationView<'a>,
    right: RelationView<'a>,
    projection: JoinProjection,
) -> (result: Result<ProjectionColumn<'a>, Error>)
    requires
        left.wf(),
        right.wf(),
    ensures
        execution::fails_as(result, projection_problem(left, right, projection)),
        result matches Ok(column) ==> {
            &&& forall|l: int, r: int|
                0 <= l < left.rows() && 0 <= r < right.rows() ==> #[trigger] column.at(l, r)
                    == projected(left, right, projection, l, r)
            &&& forall|l: int| 0 <= l < left.rows() ==> #[trigger] column.holds(l, right.rows())
        },
{
    match projection.input {
        JoinInput::Left => match relation_column(left, "left", projection.column) {
            Ok(column) => Ok(ProjectionColumn::Left(column)),
            Err(error) => Err(error),
        },
        JoinInput::Right => match relation_column(right, "right", projection.column) {
            Ok(column) => Ok(ProjectionColumn::Right(column)),
            Err(error) => Err(error),
        },
    }
}

/// The columns that a join reads.
#[derive(Clone, Copy)]
pub struct JoinColumns<'a> {
    pub key: &'a [u32],
    pub first: ProjectionColumn<'a>,
    pub second: ProjectionColumn<'a>,
}

/// Whether columns are those that a plan names.
pub open spec fn reads(
    columns: JoinColumns<'_>,
    left: RelationView<'_>,
    right: RelationView<'_>,
    plan: BinaryEqualityJoin,
) -> bool {
    &&& columns.key@ == left@[plan.left_key as int].take(left.rows() as int)
    &&& columns.key@.len() == left.rows()
    &&& left@[plan.left_key as int].len() >= left.rows()
    &&& forall|l: int, r: int|
        0 <= l < left.rows() && 0 <= r < right.rows() ==> #[trigger] columns.first.at(l, r)
            == projected(left, right, plan.output@[0], l, r)
    &&& forall|l: int, r: int|
        0 <= l < left.rows() && 0 <= r < right.rows() ==> #[trigger] columns.second.at(l, r)
            == projected(left, right, plan.output@[1], l, r)
    &&& forall|l: int| 0 <= l < left.rows() ==> #[trigger] columns.first.holds(l, right.rows())
    &&& forall|l: int| 0 <= l < left.rows() ==> #[trigger] columns.second.holds(l, right.rows())
}

/// The columns that a join reads, if the relations have them and the index fits.
pub fn join_inputs<'a>(
    left: RelationView<'a>,
    right: RelationView<'a>,
    index_rows: usize,
    plan: BinaryEqualityJoin,
) -> (result: Result<JoinColumns<'a>, Error>)
    requires
        left.wf(),
        right.wf(),
    ensures
        execution::fails_as(result, join_input_problem(left, right, index_rows as nat, plan)),
        result matches Ok(columns) ==> {
            &&& reads(columns, left, right, plan)
            &&& left.rows() <= u32::MAX
            &&& right.rows() <= u32::MAX
            &&& right.rows() == index_rows
        },
{
    match check_row_count(left.len()) {
        Ok(_) => {},
        Err(error) => {
            return Err(error);
        },
    }
    match check_row_count(right.len()) {
        Ok(_) => {},
        Err(error) => {
            return Err(error);
        },
    }
    let key = match relation_column(left, "left", plan.left_key) {
        Ok(key) => key,
        Err(error) => {
            return Err(error);
        },
    };
    match relation_column(right, "right", plan.right_key) {
        Ok(_) => {},
        Err(error) => {
            return Err(error);
        },
    }
    if right.len() != index_rows {
        return Err(Error::IndexSourceMismatch { relation_rows: right.len(), index_rows });
    }
    let first = match projection_column(left, right, plan.output[0]) {
        Ok(first) => first,
        Err(error) => {
            return Err(error);
        },
    };
    let second = match projection_column(left, right, plan.output[1]) {
        Ok(second) => second,
        Err(error) => {
            return Err(error);
        },
    };
    assert(left@[plan.left_key as int].len() >= left.rows());
    Ok(JoinColumns { key, first, second })
}

/// The number of rows that the first left rows yield.
spec fn yield_total(list: spec_fn(u32) -> Seq<u32>, keys: Seq<u32>, count: int) -> nat
    decreases count,
{
    if count <= 0 {
        0
    } else {
        yield_total(list, keys, count - 1) + list(keys[count - 1]).len()
    }
}

proof fn lemma_yield_total(
    left: RelationView<'_>,
    right: RelationView<'_>,
    plan: BinaryEqualityJoin,
    list: spec_fn(u32) -> Seq<u32>,
    keys: Seq<u32>,
    count: int,
)
    requires
        keys == left@[plan.left_key as int].take(left.rows() as int),
        left@[plan.left_key as int].len() >= left.rows(),
        0 <= count <= left.rows(),
    ensures
        yield_total(list, keys, count) == join_rows(left, right, plan, list, 0, count).len(),
    decreases count,
{
    if count > 0 {
        lemma_yield_total(left, right, plan, list, keys, count - 1);
    }
}

/// Whether a workspace holds how many rows each left row yields, and where they begin.
spec fn are_counts(parts: JoinParts, list: spec_fn(u32) -> Seq<u32>, keys: Seq<u32>) -> bool {
    forall|i: int|
        0 <= i < keys.len() ==> {
            &&& (#[trigger] parts.counts[i]) == list(keys[i]).len()
            &&& parts.offsets[i] == yield_total(list, keys, i)
        }
}

/// Counts the rows that each left row yields, and notes where they begin.
fn count_join_rows<I: KeyRows>(
    key: &[u32],
    index: &I,
    workspace: &mut JoinWorkspace,
    in_parallel: bool,
) -> (result: Result<usize, Error>)
    requires
        index.well_formed(),
        index.row_limit() <= u32::MAX,
        key@.len() <= u32::MAX,
    ensures
        final(workspace)@.output == old(workspace)@.output,
        ({
            let list = lists(index);
            let total = yield_total(list, key@, key@.len() as int);
            &&& execution::fails_as(
                result,
                execution::first_of(
                    execution::storage_problem(old(workspace)@.can_reserve_outer(key@.len())),
                    if total > usize::MAX {
                        Some(ErrorView::OutputTooLarge(total))
                    } else {
                        None
                    },
                ),
            )
            &&& result matches Ok(found) ==> {
                &&& found == total
                &&& are_counts(final(workspace)@, list, key@)
            }
        }),
{
    let ghost list = lists(index);
    let count: usize = key.len();
    match workspace.reserve_outer_rows(count) {
        Ok(_) => {},
        Err(error) => {
            return Err(Error::Storage(error));
        },
    }
    let count_matches = |i: usize| -> (matches: u64)
        requires
            index.well_formed() && index.row_limit() <= u32::MAX && (i as int) < key@.len(),
        ensures
            matches == index.list(key@[i as int]).len() && matches <= u32::MAX,
    {
        index.match_count(key[i]) as u64
    };
    let mut counts: Vec<u64> = Vec::new();
    if in_parallel {
        counts = par_map(count, count_matches);
        proof {
            assert forall|i: int| 0 <= i < count implies (#[trigger] counts@[i]) == index.list(
                key@[i],
            ).len() && counts@[i] <= u32::MAX by {
                assert(call_ensures(count_matches, (i as usize,), counts@[i as usize as int]));
            }
        }
    } else {
        let mut i: usize = 0;
        while i < count
            invariant
                i <= count,
                count == key@.len(),
                index.well_formed(),
                index.row_limit() <= u32::MAX,
                counts@.len() == i,
                forall|j: int|
                    0 <= j < i ==> (#[trigger] counts@[j]) == index.list(key@[j]).len()
                        && counts@[j] <= u32::MAX,
            decreases count - i,
        {
            counts.push(index.match_count(key[i]) as u64);
            i += 1;
        }
    }
    let mut offsets: Vec<u64> = Vec::new();
    let mut total: u64 = 0;
    let mut i: usize = 0;
    while i < count
        invariant
            i <= count,
            count == key@.len(),
            count <= u32::MAX,
            counts@.len() == count,
            offsets@.len() == i,
            list == lists(index),
            forall|j: int|
                0 <= j < count ==> (#[trigger] counts@[j]) == index.list(key@[j]).len()
                    && counts@[j] <= u32::MAX,
            total == yield_total(list, key@, i as int),
            total <= i * 0xffff_ffff,
            forall|j: int|
                0 <= j < i ==> (#[trigger] offsets@[j]) == yield_total(list, key@, j),
        decreases count - i,
    {
        assert(counts@[i as int] <= u32::MAX);
        offsets.push(total);
        total += counts[i];
        i += 1;
    }
    workspace.write_counts(&counts, &offsets);
    proof {
        let after = workspace@;
        assert forall|k: int| 0 <= k < count implies {
            &&& (#[trigger] after.counts[k]) == list(key@[k]).len()
            &&& after.offsets[k] == yield_total(list, key@, k)
        } by {
            assert(after.counts.take(count as int)[k] == counts@[k]);
            assert(after.offsets.take(count as int)[k] == offsets@[k]);
        }
        assert(are_counts(after, list, key@));
    }
    if total > usize::MAX as u64 {
        return Err(Error::OutputTooLarge(total));
    }
    Ok(total as usize)
}

/// What a range of left rows yields.
fn join_range<I: KeyRows>(
    columns: JoinColumns<'_>,
    index: &I,
    from: usize,
    to: usize,
    Ghost(left): Ghost<RelationView<'_>>,
    Ghost(right): Ghost<RelationView<'_>>,
    Ghost(plan): Ghost<BinaryEqualityJoin>,
) -> (rows: Vec<Pair>)
    requires
        reads(columns, left, right, plan),
        index.well_formed(),
        index.row_limit() == right.rows(),
        right.rows() <= u32::MAX,
        from <= to <= left.rows(),
    ensures
        rows@ == join_rows(
            left,
            right,
            plan,
            lists(index),
            from as int,
            to as int,
        ),
{
    let ghost list = lists(index);
    let mut rows: Vec<Pair> = Vec::new();
    let mut row: usize = from;
    while row < to
        invariant
            from <= row <= to <= left.rows(),
            reads(columns, left, right, plan),
            index.well_formed(),
            index.row_limit() == right.rows(),
            right.rows() <= u32::MAX,
            list == lists(index),
            rows@ == join_rows(left, right, plan, list, from as int, row as int),
        decreases to - row,
    {
        let ghost before = rows@;
        assert(columns.first.holds(row as int, right.rows()));
        assert(columns.second.holds(row as int, right.rows()));
        index.emit(columns.key[row], row, columns.first, columns.second, &mut rows);
        proof {
            index.lemma_list(columns.key@[row as int]);
            assert(rows@ =~= before + row_join(left, right, plan, list, row as int));
        }
        row += 1;
    }
    rows
}

/// Joins through an index, on the calling thread or range by range on the thread pool.
pub(crate) fn join_on<I: KeyRows>(
    left: RelationView<'_>,
    right: RelationView<'_>,
    index: &I,
    plan: BinaryEqualityJoin,
    workspace: &mut JoinWorkspace,
    threads: usize,
) -> (result: Result<(), Error>)
    requires
        left.wf(),
        right.wf(),
        index.well_formed(),
        old(workspace)@.wf(),
        old(workspace)@.output.contents().len() >= 2,
        threads > 0,
    ensures
        join_done(
            left,
            right,
            index.row_limit(),
            lists(index),
            plan,
            old(workspace)@,
            final(workspace)@,
            result,
        ),
{
    let ghost list = lists(index);
    let columns = match join_inputs(left, right, index.row_count(), plan) {
        Ok(columns) => columns,
        Err(error) => {
            return Err(error);
        },
    };
    let count: usize = left.len();
    proof {
        lemma_yield_total(left, right, plan, list, columns.key@, count as int);
    }
    match count_join_rows(columns.key, index, workspace, threads > 1) {
        Ok(_) => {},
        Err(error) => {
            return Err(error);
        },
    }
    let rows = if threads > 1 {
        par_join(columns, index, count, threads, Ghost(left), Ghost(right), Ghost(plan))
    } else {
        join_range(columns, index, 0, count, Ghost(left), Ghost(right), Ghost(plan))
    };
    match workspace.write(&rows) {
        Ok(_) => Ok(()),
        Err(error) => Err(Error::Storage(error)),
    }
}

/// What all left rows yield, range by range on the thread pool.
fn par_join<I: KeyRows>(
    columns: JoinColumns<'_>,
    index: &I,
    count: usize,
    threads: usize,
    Ghost(left): Ghost<RelationView<'_>>,
    Ghost(right): Ghost<RelationView<'_>>,
    Ghost(plan): Ghost<BinaryEqualityJoin>,
) -> (rows: Vec<Pair>)
    requires
        reads(columns, left, right, plan),
        index.well_formed(),
        index.row_limit() == right.rows(),
        right.rows() <= u32::MAX,
        count == left.rows(),
        threads > 0,
    ensures
        rows@ == join_rows(left, right, plan, lists(index), 0, count as int),
{
    let ghost list = lists(index);
    let bounds = chunk_bounds(count, threads);
    let join_chunk = |i: usize| -> (part: Vec<Pair>)
        requires
            reads(columns, left, right, plan) && index.well_formed() && index.row_limit()
                == right.rows() && right.rows() <= u32::MAX && is_range(
                bounds@,
                i as int,
                left.rows(),
            ),
        ensures
            part@ == join_rows(
                left,
                right,
                plan,
                lists(index),
                bounds@[i as int] as int,
                bounds@[i + 1] as int,
            ),
    {
        assert(i < bounds.len());
        join_range(
            columns,
            index,
            bounds[i],
            bounds[i + 1],
            Ghost(left),
            Ghost(right),
            Ghost(plan),
        )
    };
    proof {
        assert forall|i: usize| i < bounds@.len() - 1 implies #[trigger] call_requires(
            join_chunk,
            (i,),
        ) by {
            assert(bounds@[i as int] < bounds@[i + 1]);
            assert(bounds@[i + 1] <= bounds@[bounds@.len() - 1]);
        }
    }
    let parts = par_map(bounds.len() - 1, join_chunk);
    let rows = gather(&parts);
    proof {
        let views = chunks::part_views(parts@);
        let yields = |a: int, b: int| join_rows(left, right, plan, list, a, b);
        assert forall|i: int| 0 <= i < views.len() implies #[trigger] views[i] == yields(
            bounds@[i] as int,
            bounds@[i + 1] as int,
        ) by {
            assert(call_ensures(join_chunk, (i as usize,), parts@[i as usize as int]));
        }
        assert forall|a: int, b: int, c: int|
            #![trigger yields(a, b), yields(b, c)]
            0 <= a <= b <= c <= count implies yields(a, c) == yields(a, b) + yields(b, c) by {
            lemma_join_additive(left, right, plan, list, a, b, c);
        }
        chunks::lemma_flat_ranges(views, bounds@, yields, count as int, views.len() as int);
        assert(views.take(views.len() as int) =~= views);
    }
    rows
}

/// Whether a range of rows can be worked on.
spec fn is_range(bounds: Seq<usize>, i: int, len: nat) -> bool {
    0 <= i && i + 1 < bounds.len() && bounds[i] < bounds[i + 1] <= len
}

/// Joins through a range index, on the calling thread.
pub fn join_cpu_serial(
    left: RelationView<'_>,
    right: RelationView<'_>,
    right_index: &U32RangeIndex,
    plan: BinaryEqualityJoin,
    workspace: &mut JoinWorkspace,
) -> (result: Result<(), Error>)
    requires
        left.wf(),
        right.wf(),
        right_index.wf(),
        old(workspace)@.wf(),
        old(workspace)@.output.contents().len() >= 2,
    ensures
        join_done(
            left,
            right,
            right_index.count(),
            |k: u32| right_index.postings(k),
            plan,
            old(workspace)@,
            final(workspace)@,
            result,
        ),
{
    assert(lists(right_index) =~= (|k: u32| right_index.postings(k)));
    join_on(left, right, right_index, plan, workspace, 1)
}

/// Joins through a range index, on the thread pool.
pub fn join_cpu_parallel(
    left: RelationView<'_>,
    right: RelationView<'_>,
    right_index: &U32RangeIndex,
    plan: BinaryEqualityJoin,
    workspace: &mut JoinWorkspace,
) -> (result: Result<(), Error>)
    requires
        left.wf(),
        right.wf(),
        right_index.wf(),
        old(workspace)@.wf(),
        old(workspace)@.output.contents().len() >= 2,
    ensures
        join_done(
            left,
            right,
            right_index.count(),
            |k: u32| right_index.postings(k),
            plan,
            old(workspace)@,
            final(workspace)@,
            result,
        ),
{
    assert(lists(right_index) =~= (|k: u32| right_index.postings(k)));
    let threads: usize = thread_count();
    if left.is_empty() || threads == 0 {
        return join_on(left, right, right_index, plan, workspace, 1);
    }
    join_on(left, right, right_index, plan, workspace, threads)
}

/// Joins where the policy places the operator.
///
/// What is placed on the device is left to the caller: the output stays as it was.
pub fn join_auto(
    left: RelationView<'_>,
    right: RelationView<'_>,
    right_index: &U32RangeIndex,
    plan: BinaryEqualityJoin,
    workspace: &mut JoinWorkspace,
    gpu_available: bool,
    policy: JoinPlacementPolicy,
) -> (result: Result<Placement, Error>)
    requires
        left.wf(),
        right.wf(),
        right_index.wf(),
        old(workspace)@.wf(),
        old(workspace)@.output.contents().len() >= 2,
    ensures
        ({
            let placement = policy.placement(
                JoinPlacementContext { delta_rows: left.rows() as usize, gpu_available },
            );
            if placement == Placement::Gpu {
                execution::left_to_device(result, *final(workspace) == *old(workspace))
            } else {
                &&& join_done(
                    left,
                    right,
                    right_index.count(),
                    |k: u32| right_index.postings(k),
                    plan,
                    old(workspace)@,
                    final(workspace)@,
                    result,
                )
                &&& execution::ran_on(result, placement)
            }
        }),
{
    let placement = policy.place(
        JoinPlacementContext { delta_rows: left.len(), gpu_available },
    );
    let done = match placement {
        Placement::CpuSerial => join_cpu_serial(left, right, right_index, plan, workspace),
        Placement::CpuParallel => join_cpu_parallel(left, right, right_index, plan, workspace),
        Placement::Gpu => Ok(()),
    };
    match done {
        Ok(_) => Ok(placement),
        Err(error) => Err(error),
    }
}

} // verus!
