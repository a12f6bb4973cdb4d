//! What the relations of a component hold, which of them are refused, and how a round of the
//! closure fails.
use vstd::prelude::*;

use crate::benchmark;
use crate::device;
use crate::execution;
use crate::execution::{Error, ErrorView};
use crate::executor;
use crate::executor::{
    GenericErrorView, GenericExecutionError, RelationStore, RelationStoreError, SccSummary,
    StoredRelation,
};
use crate::index::U32RangeIndex;
use crate::join;
use crate::operator_laws::wrong_columns;
use crate::placement::{InputProvenance, Placement};
use crate::recursion;
use crate::recursion::{IterationPolicies, TransitiveClosureStep};
use crate::relational::{BinaryEqualityJoin, RecursiveRulePlan, RelationId};
use crate::rounds;
use crate::statistics;
use crate::steps;
use crate::steps::FixpointStepsView;
use crate::storage;
use crate::storage::{Column, RelationView};
use crate::text;

verus! {

/// A stored relation holds every value of what was put in, in its column and its row. It has new
/// rows only where some were given.
pub proof fn law_stored_relations(
    relation: StoredRelation,
    full: RelationView<'_>,
    delta: Option<RelationView<'_>>,
    provenance: InputProvenance,
    c: int,
    r: int,
)
    requires
        executor::is_stored(relation, full, delta, provenance),
    ensures
        relation.full.rows() == full.rows(),
        relation.full.contents().len() == full@.len(),
        0 <= c < full@.len() && 0 <= r < full.rows() && full.rows() <= full@[c].len()
            ==> relation.full.contents()[c].len() == full.rows() && relation.full.contents()[c][r]
            == full@[c][r],
        delta is None ==> relation.delta is None,
        delta matches Some(given) ==> {
            &&& relation.delta is Some
            &&& relation.delta->0.rows() == given.rows()
            &&& relation.delta->0.contents().len() == given@.len()
            &&& 0 <= c < given@.len() && 0 <= r < given.rows() && given.rows() <= given@[c].len()
                ==> relation.delta->0.contents()[c][r] == given@[c][r]
        },
        relation.full_provenance == provenance,
        relation.delta_provenance == provenance,
        relation.version == 0,
{
}

/// Whether a relation can have new rows, and has none.
pub open spec fn is_quiet(store: RelationStore, id: RelationId) -> bool {
    store.get(id) matches Some(relation) && (relation.delta matches Some(delta) && delta.rows()
        == 0)
}

proof fn lemma_quiet_ids(store: RelationStore, ids: Seq<RelationId>, from: int, n: int)
    requires
        0 <= from <= n <= ids.len(),
        forall|k: int| from <= k < n ==> is_quiet(store, #[trigger] ids[k]),
    ensures
        executor::delta_failure(store, ids, from) == executor::delta_failure(store, ids, n),
        executor::finds_delta(store, ids, from) == executor::finds_delta(store, ids, n),
    decreases n - from,
{
    if from < n {
        assert(is_quiet(store, ids[from]));
        lemma_quiet_ids(store, ids, from + 1, n);
    }
}

/// The relations of a component are looked at in order, up to the first that is missing, is static
/// or has new rows: the first two are refused, and the third makes the component run.
pub proof fn law_first_new_rows(store: RelationStore, ids: Seq<RelationId>, n: int)
    requires
        0 <= n <= ids.len(),
        forall|k: int| 0 <= k < n ==> is_quiet(store, #[trigger] ids[k]),
    ensures
        n == ids.len() ==> executor::delta_failure(store, ids, 0) is None
            && !executor::finds_delta(store, ids, 0),
        n < ids.len() && store.get(ids[n]) is None ==> executor::delta_failure(store, ids, 0)
            == Some(RelationStoreError::Missing(ids[n])),
        n < ids.len() && store.get(ids[n]) is Some && store.get(ids[n])->0.delta is None
            ==> executor::delta_failure(store, ids, 0) == Some(
            RelationStoreError::NotRecursive(ids[n]),
        ),
        n < ids.len() && store.get(ids[n]) is Some && store.get(ids[n])->0.delta is Some
            && store.get(ids[n])->0.delta->0.rows() > 0 ==> executor::delta_failure(store, ids, 0)
            is None && executor::finds_delta(store, ids, 0),
{
    lemma_quiet_ids(store, ids, 0, n);
}

/// A finished component lists each of its relations with the number of its rows.
pub proof fn law_listed_relations(
    store: RelationStore,
    ids: Seq<RelationId>,
    summary: SccSummary,
    k: int,
)
    requires
        executor::lists_rows(store, ids, summary),
        0 <= k < ids.len(),
    ensures
        summary.relation_rows@.len() == ids.len(),
        store.get(ids[k]) is Some,
        summary.relation_rows@[k].0 == ids[k],
        summary.relation_rows@[k].1 == store.get(ids[k])->0.full.rows(),
{
    let entry = summary.relation_rows@[k];
}

/// A component keeps which relations there are and which of them can have new rows.
pub proof fn law_kept_relations(before: RelationStore, after: RelationStore, id: RelationId)
    requires
        executor::keeps_kinds(before, after),
    ensures
        after.get(id) is None <==> before.get(id) is None,
        after.get(id) is Some ==> (after.get(id)->0.delta is Some <==> before.get(id)->0.delta
            is Some),
{
    reveal(executor::keeps_kinds);
    let relation = after.get(id);
}

/// A rule whose relations are there is refused where its right side lacks the key column, by the
/// names of both.
pub proof fn law_missing_keys(
    store: RelationStore,
    rules: Seq<RecursiveRulePlan>,
    t: int,
    k: int,
    failure: Option<GenericErrorView>,
    unchanged: bool,
)
    requires
        executor::tells_key(store, rules, failure, unchanged),
        executor::round_stops_at(store, rules, t, k),
    ensures
        ({
            let rule = rounds::rules_for(rules, rounds::targets_of(rules)[t])[k];
            &&& store.get(rule.right_input) is Some
            &&& rule.join.right_key >= store.get(rule.right_input)->0.full.contents().len()
            &&& failure == Some(
                GenericErrorView::MissingPlanColumn {
                    relation: rule.right_input,
                    column: rule.join.right_key,
                },
            )
            &&& unchanged
        }),
{
    reveal(executor::tells_key);
}

/// What a component failed with, if it did.
pub proof fn law_failures(result: Result<SccSummary, GenericExecutionError>)
    ensures
        result is Ok ==> executor::failure_of(result) is None,
        result is Err ==> executor::failure_of(result) == Some(result->Err_0@),
{
}

/// Rows come from where the operator ran. Two inputs are on the device where both are.
pub proof fn law_provenance(placement: Placement, left: InputProvenance, right: InputProvenance)
    ensures
        recursion::provenance_of(placement) == InputProvenance::Gpu <==> placement
            == Placement::Gpu,
        recursion::combined(left, right) == InputProvenance::Gpu <==> left == InputProvenance::Gpu
            && right == InputProvenance::Gpu,
{
}

/// A round of the closure fails with the first of its problems: those of the join, of the distinct
/// candidates, of the pairs not known yet, and of the union.
pub proof fn law_step_failures(
    delta: RelationView<'_>,
    edge: RelationView<'_>,
    full: RelationView<'_>,
    index: U32RangeIndex,
    plan: BinaryEqualityJoin,
    policies: IterationPolicies,
    step: TransitiveClosureStep,
    placement: Placement,
)
    requires
        placement == recursion::update_placement(
            policies,
            full.rows(),
            recursion::step_new(delta, edge, full, index, plan).len(),
        ),
    ensures
        ({
            let full_up = Some(ErrorView::Storage(storage::Error::LengthOverflow));
            let many = |rows: nat| Some(ErrorView::TooManyRows(rows));
            let list = |k: u32| index.postings(k);
            let joined = join::join_rows(delta, edge, plan, list, 0, delta.rows() as int);
            let unique = rounds::distinct_list(joined);
            let new = recursion::step_new(delta, edge, full, index, plan).len();
            let first = join::join_problem(
                delta,
                edge,
                index.count(),
                list,
                plan,
                step.candidate_parts(),
            );
            recursion::step_problem(delta, edge, full, index, plan, policies, step) == if first
                is Some {
                first
            } else if joined.len() > u32::MAX {
                many(joined.len())
            } else if !step.distinct_buffer().can_reserve(joined.len()) {
                full_up
            } else if unique.len() > u32::MAX {
                many(unique.len())
            } else if full.rows() > u32::MAX {
                many(full.rows())
            } else if wrong_columns(full, "right"@, 0, 1) is Some {
                wrong_columns(full, "right"@, 0, 1)
            } else if !step.newt_buffer().can_reserve(unique.len()) {
                full_up
            } else if new > u32::MAX {
                many(new)
            } else if full.rows() + new > usize::MAX {
                if placement == Placement::CpuSerial {
                    full_up
                } else {
                    Some(ErrorView::OutputTooLarge(u64::MAX as nat))
                }
            } else if !step.full_buffer().can_reserve(full.rows() + new) {
                full_up
            } else {
                None
            }
        }),
{
    assert(seq![0u32, 1u32][0] == 0 && seq![0u32, 1u32][1] == 1);
}

/// An operator does what it is asked or fails with the problem that is there, and one that is left
/// to the device changes nothing.
pub proof fn law_verdicts(
    result: Result<Placement, Error>,
    expected: Option<ErrorView>,
    placement: Placement,
    unchanged: bool,
)
    ensures
        expected is None ==> (execution::fails_as(result, expected) <==> result is Ok),
        expected is Some ==> (execution::fails_as(result, expected) <==> (result is Err
            && result->Err_0@ == expected->0)),
        execution::ran_on(result, placement) && result is Ok ==> result->Ok_0 == placement,
        execution::left_to_device(result, unchanged) ==> result is Ok && result->Ok_0
            == Placement::Gpu && unchanged,
        execution::serial_overflow() == ErrorView::Storage(storage::Error::LengthOverflow),
        execution::parallel_overflow() == ErrorView::OutputTooLarge(u64::MAX as nat),
{
}

/// The next round of the closure starts from the newest rows and from all that are known.
pub proof fn law_next_round(steps: FixpointStepsView)
    ensures
        ({
            let start = steps::next_round(steps);
            &&& start.policies == steps.policies
            &&& start.gpu_available == steps.gpu_available
            &&& start.delta_rows == steps.state.newest() as usize
            &&& start.full_rows == steps.state.known() as usize
            &&& start.full_provenance == steps.full_provenance
        }),
{
}

/// The largest value of a relation is in it and no value is above it. Without a value above zero it
/// is zero.
pub proof fn law_largest_value(columns: Seq<Seq<u32>>, largest: u32, c: int, i: int)
    requires
        benchmark::is_largest(columns, largest),
        0 <= c < columns.len(),
        0 <= i < columns[c].len(),
    ensures
        columns[c][i] <= largest,
        largest > 0 ==> exists|d: int, j: int|
            0 <= d < columns.len() && 0 <= j < columns[d].len() && #[trigger] columns[d][j]
                == largest,
{
    let value = columns[c][i];
}

/// The rows that are expected of a relation are those counted of it, and very many of one that was
/// not counted.
pub proof fn law_counted_rows(counts: Seq<usize>, relation: RelationId)
    ensures
        relation.0 < counts.len() ==> statistics::expected_rows(counts, relation)
            == counts[relation.0 as int],
        relation.0 >= counts.len() ==> statistics::expected_rows(counts, relation) == usize::MAX
            / 4,
{
}

/// The code of a device error is written with its sign.
pub proof fn law_device_codes(n: nat)
    ensures
        device::signed_decimal(n as int) == text::decimal(n),
        n > 0 ==> device::signed_decimal(-(n as int)) == seq!['-'] + text::decimal(n),
{
    reveal_strlit("-");
    assert("-"@ =~= seq!['-']);
}

/// The columns of a relation are those it was made of, in order. A relation has as many rows as its
/// first column has values, and each column has as many.
pub proof fn law_columns_of_relations(columns: Seq<Column>, c: int)
    requires
        0 <= c < columns.len(),
    ensures
        storage::column_views(columns).len() == columns.len(),
        storage::column_views(columns)[c] == columns[c]@,
        storage::row_count(storage::column_views(columns)) == columns[0]@.len(),
        storage::rectangular(storage::column_views(columns)) ==> columns[c]@.len()
            == columns[0]@.len(),
        storage::row_count(Seq::empty()) == 0,
{
    let all = storage::column_views(columns);
    assert(all[c] == columns[c]@);
}

} // verus!
