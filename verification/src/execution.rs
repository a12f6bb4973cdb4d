//! Operators on relations: selecting, removing repetitions, subtracting, uniting, joining.
use vstd::prelude::*;

use crate::chunks;
use crate::chunks::{chunk_bounds, gather};
use crate::pairs;
use crate::pairs::{
    distinct_rows, par_subtract_rows, par_unite_rows, subtract_rows, unite_rows, BinaryColumns,
    Pair,
};
use crate::parallel::{par_map, thread_count};
use crate::placement::{
    AntiJoinPlacementContext, AntiJoinPlacementPolicy, DistinctPlacementContext,
    DistinctPlacementPolicy, FilterPlacementContext, FilterPlacementPolicy, InputProvenance,
    Placement, UnionPlacementContext, UnionPlacementPolicy,
};
use crate::relational::{
    BinaryDistinct, SortedBinaryAntiJoin, SortedBinaryUnion, U32Predicate,
};
use crate::storage;
use crate::storage::{Column, RelationBuffer, RelationView};
use crate::text;
use crate::text::decimal_text;
use crate::workspace::{
    AntiJoinWorkspace, DistinctWorkspace, OperatorParts, OperatorWorkspace, UnionWorkspace,
};

verus! {

/// What an operator error says.
pub enum ErrorView {
    Storage(storage::Error),
    TooManyRows(nat),
    MissingColumn { input: Seq<char>, column: u32 },
    IndexSourceMismatch { relation_rows: nat, index_rows: nat },
    OutputTooLarge(nat),
}

#[derive(Debug, Clone, Copy, PartialEq, Eq)]
pub enum Error {
    Storage(storage::Error),
    TooManyRows(usize),
    MissingColumn { input: &'static str, column: u32 },
    IndexSourceMismatch { relation_rows: usize, index_rows: usize },
    OutputTooLarge(u64),
}

impl View for Error {
    type V = ErrorView;

    open spec fn view(&self) -> ErrorView {
        match *self {
            Error::Storage(error) => ErrorView::Storage(error),
            Error::TooManyRows(rows) => ErrorView::TooManyRows(rows as nat),
            Error::MissingColumn { input, column } => ErrorView::MissingColumn {
                input: input@,
                column,
            },
            Error::IndexSourceMismatch {
                relation_rows,
                index_rows,
            } => ErrorView::IndexSourceMismatch {
                relation_rows: relation_rows as nat,
                index_rows: index_rows as nat,
            },
            Error::OutputTooLarge(rows) => ErrorView::OutputTooLarge(rows as nat),
        }
    }
}

/// The text of an operator error.
pub open spec fn error_text(error: ErrorView) -> Seq<char> {
    match error {
        ErrorView::Storage(error) => error.text(),
        ErrorView::TooManyRows(rows) => text::decimal(rows)
            + " rows cannot be represented by u32 row IDs"@,
        ErrorView::MissingColumn { input, column } => input + " relation has no column "@
            + text::decimal(column as nat),
        ErrorView::IndexSourceMismatch { relation_rows, index_rows } => "right relation has "@
            + text::decimal(relation_rows) + " rows but its index has "@ + text::decimal(
            index_rows,
        ),
        ErrorView::OutputTooLarge(rows) => "join output of "@ + text::decimal(rows)
            + " rows exceeds addressable memory"@,
    }
}

/// Writes a 64-bit number in decimal.
fn decimal_u64(n: u64) -> (result: String)
    ensures
        result@ == text::decimal(n as nat),
    decreases n,
{
    if n < 10 {
        decimal_text(n as usize)
    } else {
        let mut result = decimal_u64(n / 10);
        let last = decimal_text((n % 10) as usize);
        result.append(last.as_str());
        assert(result@ =~= text::decimal(n as nat / 10).push(text::digit(n as nat % 10)));
        result
    }
}

impl Error {
    pub fn message(&self) -> (message: String)
        ensures
            message@ == error_text(self@),
    {
        match self {
            Error::Storage(error) => error.message(),
            Error::TooManyRows(rows) => {
                let mut message = decimal_text(*rows);
                message.append(" rows cannot be represented by u32 row IDs");
                message
            },
            Error::MissingColumn { input, column } => {
                let mut message = String::new();
                message.append(input);
                assert(message@ =~= input@);
                message.append(" relation has no column ");
                let column = decimal_text(*column as usize);
                message.append(column.as_str());
                message
            },
            Error::IndexSourceMismatch { relation_rows, index_rows } => {
                let mut message = "right relation has ".to_owned();
                let relation_rows = decimal_text(*relation_rows);
                message.append(relation_rows.as_str());
                message.append(" rows but its index has ");
                let index_rows = decimal_text(*index_rows);
                message.append(index_rows.as_str());
                message
            },
            Error::OutputTooLarge(rows) => {
                let mut message = "join output of ".to_owned();
                let rows = decimal_u64(*rows);
                message.append(rows.as_str());
                message.append(" rows exceeds addressable memory");
                message
            },
        }
    }
}

/// Whether a result is a success exactly where no error is expected, else the expected error.
pub open spec fn fails_as<T>(result: Result<T, Error>, expected: Option<ErrorView>) -> bool {
    match expected {
        None => result is Ok,
        Some(error) => result is Err && result->Err_0@ == error,
    }
}

/// The first of two problems.
pub open spec fn first_of(a: Option<ErrorView>, b: Option<ErrorView>) -> Option<ErrorView> {
    if a is Some {
        a
    } else {
        b
    }
}

/// Rows have to be numbered in 32 bits.
pub open spec fn rows_problem(rows: nat) -> Option<ErrorView> {
    if rows > u32::MAX {
        Some(ErrorView::TooManyRows(rows))
    } else {
        None
    }
}

/// A column has to be there.
pub open spec fn column_problem(
    relation: RelationView<'_>,
    input: Seq<char>,
    column: u32,
) -> Option<ErrorView> {
    if (column as int) < relation@.len() {
        None
    } else {
        Some(ErrorView::MissingColumn { input, column })
    }
}

pub open spec fn storage_problem(held: bool) -> Option<ErrorView> {
    if held {
        None
    } else {
        Some(ErrorView::Storage(storage::Error::LengthOverflow))
    }
}

/// The rows of two columns of a relation.
pub open spec fn column_pairs(relation: RelationView<'_>, columns: Seq<u32>) -> Seq<Pair> {
    pairs::zipped(
        relation@[columns[0] as int].take(relation.rows() as int),
        relation@[columns[1] as int].take(relation.rows() as int),
    )
}

pub fn check_row_count(rows: usize) -> (result: Result<(), Error>)
    ensures
        fails_as(result, rows_problem(rows as nat)),
{
    if rows > u32::MAX as usize {
        Err(Error::TooManyRows(rows))
    } else {
        Ok(())
    }
}

pub(crate) fn relation_column<'a>(relation: RelationView<'a>, input: &'static str, column: u32) -> (result: Result<
    &'a [u32],
    Error,
>)
    requires
        relation.wf(),
    ensures
        fails_as(result, column_problem(relation, input@, column)),
        result matches Ok(values) ==> values@ == relation@[column as int].take(
            relation.rows() as int,
        ) && values@.len() == relation.rows(),
{
    match relation.column_slice(column as usize) {
        Some(values) => {
            assert(relation@[column as int].len() >= relation.rows());
            Ok(values)
        },
        None => Err(Error::MissingColumn { input, column }),
    }
}

/// Two columns of a relation have to be there.
pub open spec fn pair_problem(
    relation: RelationView<'_>,
    input: Seq<char>,
    columns: Seq<u32>,
) -> Option<ErrorView> {
    first_of(
        column_problem(relation, input, columns[0]),
        column_problem(relation, input, columns[1]),
    )
}

fn pair_columns<'a>(relation: RelationView<'a>, input: &'static str, columns: [u32; 2]) -> (result:
    Result<BinaryColumns<'a>, Error>)
    requires
        relation.wf(),
    ensures
        fails_as(result, pair_problem(relation, input@, columns@)),
        result matches Ok(found) ==> {
            &&& found.wf()
            &&& found.rows() == column_pairs(relation, columns@)
            &&& found.rows().len() == relation.rows()
        },
{
    let first = match relation_column(relation, input, columns[0]) {
        Ok(first) => first,
        Err(error) => {
            return Err(error);
        },
    };
    let second = match relation_column(relation, input, columns[1]) {
        Ok(second) => second,
        Err(error) => {
            return Err(error);
        },
    };
    Ok(BinaryColumns { first, second })
}

/// Why removing repetitions fails, if it does.
pub open spec fn distinct_problem(
    input: RelationView<'_>,
    plan: BinaryDistinct,
    output: RelationBuffer,
) -> Option<ErrorView> {
    first_of(
        rows_problem(input.rows()),
        first_of(
            pair_problem(input, "input"@, plan.columns@),
            storage_problem(output.can_reserve(input.rows())),
        ),
    )
}

/// Whether a run of the operator left what it has to.
pub open spec fn distinct_done<T>(
    input: RelationView<'_>,
    plan: BinaryDistinct,
    before: DistinctWorkspace,
    after: DistinctWorkspace,
    result: Result<T, Error>,
) -> bool {
    &&& after.wf()
    &&& fails_as(result, distinct_problem(input, plan, before.buffer()))
    &&& match result {
        Ok(_) => pairs::is_distinct(after.buffer().pairs(), column_pairs(input, plan.columns@)),
        Err(_) => after.buffer() == before.buffer(),
    }
}

/// The columns that removing repetitions reads.
pub fn distinct_inputs<'a>(input: RelationView<'a>, plan: BinaryDistinct) -> (result: Result<
    BinaryColumns<'a>,
    Error,
>)
    requires
        input.wf(),
    ensures
        fails_as(
            result,
            first_of(rows_problem(input.rows()), pair_problem(input, "input"@, plan.columns@)),
        ),
        result matches Ok(found) ==> {
            &&& found.wf()
            &&& found.rows() == column_pairs(input, plan.columns@)
            &&& found.rows().len() == input.rows()
        },
{
    match check_row_count(input.len()) {
        Ok(_) => pair_columns(input, "input", plan.columns),
        Err(error) => Err(error),
    }
}

fn distinct_on(
    input: RelationView<'_>,
    plan: BinaryDistinct,
    workspace: &mut DistinctWorkspace,
    in_parallel: bool,
) -> (result: Result<(), Error>)
    requires
        input.wf(),
        old(workspace).wf(),
    ensures
        distinct_done(input, plan, *old(workspace), *final(workspace), result),
{
    let columns = match distinct_inputs(input, plan) {
        Ok(columns) => columns,
        Err(error) => {
            return Err(error);
        },
    };
    let rows = distinct_rows(columns, in_parallel);
    match workspace.write(input.len(), &rows) {
        Ok(_) => Ok(()),
        Err(error) => Err(Error::Storage(error)),
    }
}

/// Sorts the pairs of two columns and removes repetitions, on the calling thread.
pub fn distinct_cpu_serial(
    input: RelationView<'_>,
    plan: BinaryDistinct,
    workspace: &mut DistinctWorkspace,
) -> (result: Result<(), Error>)
    requires
        input.wf(),
        old(workspace).wf(),
    ensures
        distinct_done(input, plan, *old(workspace), *final(workspace), result),
{
    distinct_on(input, plan, workspace, false)
}

/// Sorts the pairs of two columns and removes repetitions, on the thread pool.
pub fn distinct_cpu_parallel(
    input: RelationView<'_>,
    plan: BinaryDistinct,
    workspace: &mut DistinctWorkspace,
) -> (result: Result<(), Error>)
    requires
        input.wf(),
        old(workspace).wf(),
    ensures
        distinct_done(input, plan, *old(workspace), *final(workspace), result),
{
    let in_parallel = !input.is_empty() && thread_count() > 1;
    distinct_on(input, plan, workspace, in_parallel)
}

/// Whether an operator that is placed on the device left everything to it.
pub open spec fn left_to_device(result: Result<Placement, Error>, unchanged: bool) -> bool {
    result is Ok && result->Ok_0 == Placement::Gpu && unchanged
}

pub open spec fn ran_on(result: Result<Placement, Error>, placement: Placement) -> bool {
    result matches Ok(found) ==> found == placement
}

/// Removes repetitions where the policy places the operator.
///
/// What is placed on the device is left to the caller: the output stays as it was.
pub fn distinct_auto(
    input: RelationView<'_>,
    plan: BinaryDistinct,
    input_provenance: InputProvenance,
    workspace: &mut DistinctWorkspace,
    gpu_available: bool,
    policy: DistinctPlacementPolicy,
) -> (result: Result<Placement, Error>)
    requires
        input.wf(),
        old(workspace).wf(),
    ensures
        ({
            let placement = policy.placement(
                DistinctPlacementContext {
                    rows: input.rows() as usize,
                    input_provenance,
                    gpu_available,
                },
            );
            if placement == Placement::Gpu {
                left_to_device(result, *final(workspace) == *old(workspace))
            } else {
                &&& distinct_done(input, plan, *old(workspace), *final(workspace), result)
                &&& ran_on(result, placement)
            }
        }),
{
    let placement = policy.place(
        DistinctPlacementContext { rows: input.len(), input_provenance, gpu_available },
    );
    let done = match placement {
        Placement::CpuSerial => distinct_cpu_serial(input, plan, workspace),
        Placement::CpuParallel => distinct_cpu_parallel(input, plan, workspace),
        Placement::Gpu => Ok(()),
    };
    match done {
        Ok(_) => Ok(placement),
        Err(error) => Err(error),
    }
}

/// Why an operator on two relations cannot read its input, if so.
pub open spec fn two_sided_problem(
    left: RelationView<'_>,
    right: RelationView<'_>,
    left_columns: Seq<u32>,
    right_columns: Seq<u32>,
) -> Option<ErrorView> {
    first_of(
        rows_problem(left.rows()),
        first_of(
            rows_problem(right.rows()),
            first_of(
                pair_problem(left, "left"@, left_columns),
                pair_problem(right, "right"@, right_columns),
            ),
        ),
    )
}

fn two_sided_inputs<'a>(
    left: RelationView<'a>,
    right: RelationView<'a>,
    left_columns: [u32; 2],
    right_columns: [u32; 2],
) -> (result: Result<(BinaryColumns<'a>, BinaryColumns<'a>), Error>)
    requires
        left.wf(),
        right.wf(),
    ensures
        fails_as(result, two_sided_problem(left, right, left_columns@, right_columns@)),
        result matches Ok((a, b)) ==> {
            &&& a.wf()
            &&& b.wf()
            &&& a.rows() == column_pairs(left, left_columns@)
            &&& b.rows() == column_pairs(right, right_columns@)
            &&& a.rows().len() == left.rows() <= u32::MAX
            &&& b.rows().len() == right.rows() <= u32::MAX
        },
{
    match check_row_count(left.len()) {
        Ok(_) => {},
        Err(error) => {
            return Err(error);
        },
    }
    match check_row_count(right.len()) {
        Ok(_) => {},
        Err(error) => {
            return Err(error);
        },
    }
    let a = match pair_columns(left, "left", left_columns) {
        Ok(a) => a,
        Err(error) => {
            return Err(error);
        },
    };
    match pair_columns(right, "right", right_columns) {
        Ok(b) => Ok((a, b)),
        Err(error) => Err(error),
    }
}

/// The columns that subtracting reads.
pub fn anti_join_inputs<'a>(
    left: RelationView<'a>,
    right: RelationView<'a>,
    plan: SortedBinaryAntiJoin,
) -> (result: Result<(BinaryColumns<'a>, BinaryColumns<'a>), Error>)
    requires
        left.wf(),
        right.wf(),
    ensures
        fails_as(result, two_sided_problem(left, right, plan.left@, plan.right@)),
        result matches Ok((a, b)) ==> {
            &&& a.rows() == column_pairs(left, plan.left@)
            &&& b.rows() == column_pairs(right, plan.right@)
        },
{
    two_sided_inputs(left, right, plan.left, plan.right)
}

/// The columns that uniting reads.
pub fn union_inputs<'a>(
    left: RelationView<'a>,
    right: RelationView<'a>,
    plan: SortedBinaryUnion,
) -> (result: Result<(BinaryColumns<'a>, BinaryColumns<'a>), Error>)
    requires
        left.wf(),
        right.wf(),
    ensures
        fails_as(result, two_sided_problem(left, right, plan.left@, plan.right@)),
        result matches Ok((a, b)) ==> {
            &&& a.rows() == column_pairs(left, plan.left@)
            &&& b.rows() == column_pairs(right, plan.right@)
        },
{
    two_sided_inputs(left, right, plan.left, plan.right)
}

/// Why subtracting fails, if it does.
pub open spec fn anti_join_problem(
    left: RelationView<'_>,
    right: RelationView<'_>,
    plan: SortedBinaryAntiJoin,
    output: RelationBuffer,
) -> Option<ErrorView> {
    first_of(
        two_sided_problem(left, right, plan.left@, plan.right@),
        storage_problem(output.can_reserve(left.rows())),
    )
}

/// Whether a run of the operator left what it has to: of sorted relations, the left rows that the
/// right relation does not hold, in order.
pub open spec fn anti_join_done<T>(
    left: RelationView<'_>,
    right: RelationView<'_>,
    plan: SortedBinaryAntiJoin,
    before: AntiJoinWorkspace,
    after: AntiJoinWorkspace,
    result: Result<T, Error>,
) -> bool {
    let a = column_pairs(left, plan.left@);
    let b = column_pairs(right, plan.right@);
    &&& after.wf()
    &&& fails_as(result, anti_join_problem(left, right, plan, before.buffer()))
    &&& match result {
        Ok(_) => {
            &&& after.buffer().rows() <= left.rows()
            &&& pairs::pairs_sorted(a) && pairs::pairs_sorted(b) ==> after.buffer().pairs()
                == pairs::difference(a, b, 0, a.len() as int)
        },
        Err(_) => after.buffer() == before.buffer(),
    }
}

/// Subtracts one sorted relation from another by walking both, on the calling thread.
pub fn anti_join_cpu_serial(
    left: RelationView<'_>,
    right: RelationView<'_>,
    plan: SortedBinaryAntiJoin,
    workspace: &mut AntiJoinWorkspace,
) -> (result: Result<(), Error>)
    requires
        left.wf(),
        right.wf(),
        old(workspace).wf(),
    ensures
        anti_join_done(left, right, plan, *old(workspace), *final(workspace), result),
{
    let (a, b) = match two_sided_inputs(left, right, plan.left, plan.right) {
        Ok(columns) => columns,
        Err(error) => {
            return Err(error);
        },
    };
    let rows = subtract_rows(a, b);
    match workspace.write(left.len(), &rows) {
        Ok(_) => Ok(()),
        Err(error) => Err(Error::Storage(error)),
    }
}

/// Subtracts one sorted relation from another, range by range on the thread pool.
pub fn anti_join_cpu_parallel(
    left: RelationView<'_>,
    right: RelationView<'_>,
    plan: SortedBinaryAntiJoin,
    workspace: &mut AntiJoinWorkspace,
) -> (result: Result<(), Error>)
    requires
        left.wf(),
        right.wf(),
        old(workspace).wf(),
    ensures
        anti_join_done(left, right, plan, *old(workspace), *final(workspace), result),
{
    let threads: usize = thread_count();
    if left.is_empty() || threads <= 1 {
        return anti_join_cpu_serial(left, right, plan, workspace);
    }
    let (a, b) = match two_sided_inputs(left, right, plan.left, plan.right) {
        Ok(columns) => columns,
        Err(error) => {
            return Err(error);
        },
    };
    let rows = par_subtract_rows(a, b, threads);
    match workspace.write(left.len(), &rows) {
        Ok(_) => Ok(()),
        Err(error) => Err(Error::Storage(error)),
    }
}

/// Subtracts where the policy places the operator.
///
/// What is placed on the device is left to the caller: the output stays as it was.
pub fn anti_join_auto(
    left: RelationView<'_>,
    right: RelationView<'_>,
    plan: SortedBinaryAntiJoin,
    input_provenance: InputProvenance,
    workspace: &mut AntiJoinWorkspace,
    gpu_available: bool,
    policy: AntiJoinPlacementPolicy,
) -> (result: Result<Placement, Error>)
    requires
        left.wf(),
        right.wf(),
        old(workspace).wf(),
    ensures
        ({
            let placement = policy.placement(
                AntiJoinPlacementContext {
                    left_rows: left.rows() as usize,
                    input_provenance,
                    gpu_available,
                },
            );
            if placement == Placement::Gpu {
                left_to_device(result, *final(workspace) == *old(workspace))
            } else {
                &&& anti_join_done(left, right, plan, *old(workspace), *final(workspace), result)
                &&& ran_on(result, placement)
            }
        }),
{
    let placement = policy.place(
        AntiJoinPlacementContext { left_rows: left.len(), input_provenance, gpu_available },
    );
    let done = match placement {
        Placement::CpuSerial => anti_join_cpu_serial(left, right, plan, workspace),
        Placement::CpuParallel => anti_join_cpu_parallel(left, right, plan, workspace),
        Placement::Gpu => Ok(()),
    };
    match done {
        Ok(_) => Ok(placement),
        Err(error) => Err(error),
    }
}

/// Why uniting fails, if it does; `overflow` is what rows beyond counting are reported as.
pub open spec fn union_problem(
    left: RelationView<'_>,
    right: RelationView<'_>,
    plan: SortedBinaryUnion,
    output: RelationBuffer,
    overflow: ErrorView,
) -> Option<ErrorView> {
    first_of(
        two_sided_problem(left, right, plan.left@, plan.right@),
        if left.rows() + right.rows() > usize::MAX {
            Some(overflow)
        } else {
            storage_problem(output.can_reserve(left.rows() + right.rows()))
        },
    )
}

/// Whether a run of the operator left what it has to: of sorted relations, the rows of both, once
/// each, in order.
pub open spec fn union_done<T>(
    left: RelationView<'_>,
    right: RelationView<'_>,
    plan: SortedBinaryUnion,
    before: UnionWorkspace,
    after: UnionWorkspace,
    result: Result<T, Error>,
    overflow: ErrorView,
) -> bool {
    let a = column_pairs(left, plan.left@);
    let b = column_pairs(right, plan.right@);
    &&& after.wf()
    &&& fails_as(result, union_problem(left, right, plan, before.buffer(), overflow))
    &&& match result {
        Ok(_) => {
            &&& after.buffer().rows() <= left.rows() + right.rows()
            &&& pairs::pairs_sorted(a) && pairs::pairs_sorted(b) ==> pairs::is_union(
                after.buffer().pairs(),
                a,
                b,
            )
        },
        Err(_) => after.buffer() == before.buffer(),
    }
}

/// What serial uniting reports rows beyond counting as.
pub open spec fn serial_overflow() -> ErrorView {
    ErrorView::Storage(storage::Error::LengthOverflow)
}

/// What parallel uniting reports rows beyond counting as.
pub open spec fn parallel_overflow() -> ErrorView {
    ErrorView::OutputTooLarge(u64::MAX as nat)
}

/// Unites two sorted relations by walking both, on the calling thread.
pub fn union_cpu_serial(
    left: RelationView<'_>,
    right: RelationView<'_>,
    plan: SortedBinaryUnion,
    workspace: &mut UnionWorkspace,
) -> (result: Result<(), Error>)
    requires
        left.wf(),
        right.wf(),
        old(workspace).wf(),
    ensures
        union_done(
            left,
            right,
            plan,
            *old(workspace),
            *final(workspace),
            result,
            serial_overflow(),
        ),
{
    let (a, b) = match two_sided_inputs(left, right, plan.left, plan.right) {
        Ok(columns) => columns,
        Err(error) => {
            return Err(error);
        },
    };
    let total: usize = match left.len().checked_add(right.len()) {
        Some(total) => total,
        None => {
            return Err(Error::Storage(storage::Error::LengthOverflow));
        },
    };
    let rows = unite_rows(a, b);
    match workspace.write(total, &rows) {
        Ok(_) => Ok(()),
        Err(error) => Err(Error::Storage(error)),
    }
}

/// Unites two sorted relations, merging range by range on the thread pool.
pub fn union_cpu_parallel(
    left: RelationView<'_>,
    right: RelationView<'_>,
    plan: SortedBinaryUnion,
    workspace: &mut UnionWorkspace,
) -> (result: Result<(), Error>)
    requires
        left.wf(),
        right.wf(),
        old(workspace).wf(),
    ensures
        union_done(
            left,
            right,
            plan,
            *old(workspace),
            *final(workspace),
            result,
            parallel_overflow(),
        ),
{
    let (a, b) = match two_sided_inputs(left, right, plan.left, plan.right) {
        Ok(columns) => columns,
        Err(error) => {
            return Err(error);
        },
    };
    let total: usize = match left.len().checked_add(right.len()) {
        Some(total) => total,
        None => {
            return Err(Error::OutputTooLarge(u64::MAX));
        },
    };
    let threads: usize = thread_count();
    if total == 0 || threads <= 1 {
        return union_cpu_serial(left, right, plan, workspace);
    }
    let rows = par_unite_rows(a, b, threads);
    match workspace.write(total, &rows) {
        Ok(_) => Ok(()),
        Err(error) => Err(Error::Storage(error)),
    }
}

/// Unites where the policy places the operator.
///
/// What is placed on the device is left to the caller: the output stays as it was.
pub fn union_auto(
    left: RelationView<'_>,
    right: RelationView<'_>,
    plan: SortedBinaryUnion,
    input_provenance: InputProvenance,
    workspace: &mut UnionWorkspace,
    gpu_available: bool,
    policy: UnionPlacementPolicy,
) -> (result: Result<Placement, Error>)
    requires
        left.wf(),
        right.wf(),
        old(workspace).wf(),
    ensures
        ({
            let placement = policy.placement(
                UnionPlacementContext {
                    left_rows: left.rows() as usize,
                    right_rows: right.rows() as usize,
                    input_provenance,
                    gpu_available,
                },
            );
            if placement == Placement::Gpu {
                left_to_device(result, *final(workspace) == *old(workspace))
            } else {
                &&& union_done(
                    left,
                    right,
                    plan,
                    *old(workspace),
                    *final(workspace),
                    result,
                    if placement == Placement::CpuSerial {
                        serial_overflow()
                    } else {
                        parallel_overflow()
                    },
                )
                &&& ran_on(result, placement)
            }
        }),
{
    let placement = policy.place(
        UnionPlacementContext {
            left_rows: left.len(),
            right_rows: right.len(),
            input_provenance,
            gpu_available,
        },
    );
    let done = match placement {
        Placement::CpuSerial => union_cpu_serial(left, right, plan, workspace),
        Placement::CpuParallel => union_cpu_parallel(left, right, plan, workspace),
        Placement::Gpu => Ok(()),
    };
    match done {
        Ok(_) => Ok(placement),
        Err(error) => Err(error),
    }
}

/// The rows of a range whose value a predicate accepts, in ascending order.
pub open spec fn accepted(values: Seq<u32>, predicate: U32Predicate, from: int, to: int) -> Seq<u32>
    decreases to - from,
{
    if from >= to {
        Seq::empty()
    } else if predicate.accepts(values[to - 1]) {
        accepted(values, predicate, from, to - 1).push((to - 1) as u32)
    } else {
        accepted(values, predicate, from, to - 1)
    }
}

proof fn lemma_accepted_additive(
    values: Seq<u32>,
    predicate: U32Predicate,
    a: int,
    b: int,
    c: int,
)
    requires
        0 <= a <= b <= c,
    ensures
        accepted(values, predicate, a, c) == accepted(values, predicate, a, b) + accepted(
            values,
            predicate,
            b,
            c,
        ),
    decreases c - b,
{
    if b < c {
        lemma_accepted_additive(values, predicate, a, b, c - 1);
    }
    assert(accepted(values, predicate, a, c) =~= accepted(values, predicate, a, b) + accepted(
        values,
        predicate,
        b,
        c,
    ));
}

proof fn lemma_accepted_length(values: Seq<u32>, predicate: U32Predicate, from: int, to: int)
    requires
        from <= to,
    ensures
        accepted(values, predicate, from, to).len() <= to - from,
    decreases to - from,
{
    if from < to {
        lemma_accepted_length(values, predicate, from, to - 1);
    }
}

fn accept_range(values: &[u32], predicate: U32Predicate, from: usize, to: usize) -> (rows: Vec<u32>)
    requires
        from <= to <= values@.len() <= u32::MAX,
    ensures
        rows@ == accepted(values@, predicate, from as int, to as int),
{
    let mut rows: Vec<u32> = Vec::new();
    let mut row: usize = from;
    while row < to
        invariant
            from <= row <= to <= values@.len() <= u32::MAX,
            rows@ == accepted(values@, predicate, from as int, row as int),
        decreases to - row,
    {
        if predicate.matches(values[row]) {
            rows.push(row as u32);
        }
        row += 1;
    }
    rows
}

/// Why selecting fails, if it does.
pub open spec fn filter_problem(rows: nat, workspace: OperatorParts) -> Option<ErrorView> {
    first_of(rows_problem(rows), storage_problem(workspace.can_reserve(rows)))
}

/// Whether a run of the operator selected what it has to.
pub open spec fn filter_done<T>(
    values: Seq<u32>,
    predicate: U32Predicate,
    before: OperatorParts,
    after: OperatorParts,
    result: Result<T, Error>,
) -> bool {
    &&& before.selection.wf() ==> after.selection.wf()
    &&& fails_as(result, filter_problem(values.len(), before))
    &&& result is Ok ==> after.selection.wf() && after.selection.selected() == accepted(
        values,
        predicate,
        0,
        values.len() as int,
    )
}

/// Selects the rows of a column that a predicate accepts, on the calling thread.
pub fn filter_cpu_serial(
    column: &Column,
    predicate: U32Predicate,
    workspace: &mut OperatorWorkspace,
) -> (result: Result<(), Error>)
    ensures
        filter_done(column@, predicate, old(workspace)@, final(workspace)@, result),
{
    let count: usize = column.len();
    match check_row_count(count) {
        Ok(_) => {},
        Err(error) => {
            return Err(error);
        },
    }
    let rows = accept_range(column.as_slice(), predicate, 0, count);
    proof {
        lemma_accepted_length(column@, predicate, 0, count as int);
    }
    match workspace.select(count, &rows) {
        Ok(_) => Ok(()),
        Err(error) => Err(Error::Storage(error)),
    }
}

/// Whether a range of rows can be worked on.
spec fn is_range(bounds: Seq<usize>, i: int, len: nat) -> bool {
    0 <= i && i + 1 < bounds.len() && bounds[i] < bounds[i + 1] <= len
}

/// Selects the rows of a column that a predicate accepts, range by range on the thread pool.
pub fn filter_cpu_parallel(
    column: &Column,
    predicate: U32Predicate,
    workspace: &mut OperatorWorkspace,
) -> (result: Result<(), Error>)
    ensures
        filter_done(column@, predicate, old(workspace)@, final(workspace)@, result),
{
    let count: usize = column.len();
    let threads: usize = thread_count();
    if count == 0 || threads <= 1 {
        return filter_cpu_serial(column, predicate, workspace);
    }
    match check_row_count(count) {
        Ok(_) => {},
        Err(error) => {
            return Err(error);
        },
    }
    let bounds = chunk_bounds(count, threads);
    let values = column.as_slice();
    let accept = |i: usize| -> (part: Vec<u32>)
        requires
            is_range(bounds@, i as int, values@.len()) && values@.len() <= u32::MAX,
        ensures
            part@ == accepted(
                values@,
                predicate,
                bounds@[i as int] as int,
                bounds@[i + 1] as int,
            ),
    {
        assert(i < bounds.len());
        accept_range(values, predicate, bounds[i], bounds[i + 1])
    };
    proof {
        assert forall|i: usize| i < bounds@.len() - 1 implies #[trigger] call_requires(
            accept,
            (i,),
        ) by {
            assert(bounds@[i as int] < bounds@[i + 1]);
            assert(bounds@[i + 1] <= bounds@[bounds@.len() - 1]);
        }
    }
    let parts = par_map(bounds.len() - 1, accept);
    let rows = gather(&parts);
    proof {
        let views = chunks::part_views(parts@);
        let yields = |a: int, b: int| accepted(values@, predicate, a, b);
        assert forall|i: int| 0 <= i < views.len() implies #[trigger] views[i] == yields(
            bounds@[i] as int,
            bounds@[i + 1] as int,
        ) by {
            assert(call_ensures(accept, (i as usize,), parts@[i as usize as int]));
        }
        assert forall|a: int, b: int, c: int|
            #![trigger yields(a, b), yields(b, c)]
            0 <= a <= b <= c <= count implies yields(a, c) == yields(a, b) + yields(b, c) by {
            lemma_accepted_additive(values@, predicate, a, b, c);
        }
        chunks::lemma_flat_ranges(views, bounds@, yields, count as int, views.len() as int);
        assert(views.take(views.len() as int) =~= views);
        lemma_accepted_length(column@, predicate, 0, count as int);
    }
    match workspace.select(count, &rows) {
        Ok(_) => Ok(()),
        Err(error) => Err(Error::Storage(error)),
    }
}

/// Selects where the policy places the operator.
///
/// What is placed on the device is left to the caller: the selection stays as it was.
pub fn filter_auto(
    column: &Column,
    predicate: U32Predicate,
    input_provenance: InputProvenance,
    workspace: &mut OperatorWorkspace,
    gpu_available: bool,
    policy: FilterPlacementPolicy,
) -> (result: Result<Placement, Error>)
    ensures
        ({
            let placement = policy.placement(
                FilterPlacementContext {
                    rows: column@.len() as usize,
                    input_provenance,
                    gpu_available,
                },
            );
            if placement == Placement::Gpu {
                left_to_device(result, *final(workspace) == *old(workspace))
            } else {
                &&& filter_done(column@, predicate, old(workspace)@, final(workspace)@, result)
                &&& ran_on(result, placement)
            }
        }),
{
    let placement = policy.place(
        FilterPlacementContext { rows: column.len(), input_provenance, gpu_available },
    );
    let done = match placement {
        Placement::CpuSerial => filter_cpu_serial(column, predicate, workspace),
        Placement::CpuParallel => filter_cpu_parallel(column, predicate, workspace),
        Placement::Gpu => Ok(()),
    };
    match done {
        Ok(_) => Ok(placement),
        Err(error) => Err(error),
    }
}

/// How the device knows a predicate: the number of its kind, and its value.
pub open spec fn encoded(predicate: U32Predicate) -> (u32, u32) {
    match predicate {
        U32Predicate::Eq(value) => (0, value),
        U32Predicate::Ne(value) => (1, value),
        U32Predicate::Lt(value) => (2, value),
        U32Predicate::Le(value) => (3, value),
        U32Predicate::Gt(value) => (4, value),
        U32Predicate::Ge(value) => (5, value),
    }
}

pub fn encode_predicate(predicate: U32Predicate) -> (code: (u32, u32))
    ensures
        code == encoded(predicate),
{
    match predicate {
        U32Predicate::Eq(value) => (0, value),
        U32Predicate::Ne(value) => (1, value),
        U32Predicate::Lt(value) => (2, value),
        U32Predicate::Le(value) => (3, value),
        U32Predicate::Gt(value) => (4, value),
        U32Predicate::Ge(value) => (5, value),
    }
}

} // verus!
