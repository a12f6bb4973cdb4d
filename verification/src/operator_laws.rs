//! What the operators compute, row by row.
use vstd::prelude::*;

use crate::execution;
use crate::execution::{Error, ErrorView};
use crate::index;
use crate::join;
use crate::pairs;
use crate::pairs::Pair;
use crate::placement::{
    AntiJoinPlacementContext, AntiJoinPlacementPolicy, DistinctPlacementContext,
    DistinctPlacementPolicy, FilterPlacementContext, FilterPlacementPolicy, InputProvenance,
    JoinPlacementContext, JoinPlacementPolicy, Placement, UnionPlacementContext,
    UnionPlacementPolicy,
};
use crate::relational::{
    BinaryDistinct, BinaryEqualityJoin, JoinInput, SortedBinaryAntiJoin, SortedBinaryUnion,
    U32Predicate,
};
use crate::storage;
use crate::storage::{RelationBuffer, RelationView};
use crate::workspace::{
    AntiJoinWorkspace, DistinctWorkspace, JoinParts, OperatorParts, UnionWorkspace,
};

verus! {

/// What the comparisons accept, and the codes under which a device knows them.
pub proof fn law_comparisons(value: u32, bound: u32)
    ensures
        U32Predicate::Eq(bound).accepts(value) <==> value == bound,
        U32Predicate::Ne(bound).accepts(value) <==> value != bound,
        U32Predicate::Lt(bound).accepts(value) <==> value < bound,
        U32Predicate::Le(bound).accepts(value) <==> value <= bound,
        U32Predicate::Gt(bound).accepts(value) <==> value > bound,
        U32Predicate::Ge(bound).accepts(value) <==> value >= bound,
        execution::encoded(U32Predicate::Eq(bound)) == (0u32, bound),
        execution::encoded(U32Predicate::Ne(bound)) == (1u32, bound),
        execution::encoded(U32Predicate::Lt(bound)) == (2u32, bound),
        execution::encoded(U32Predicate::Le(bound)) == (3u32, bound),
        execution::encoded(U32Predicate::Gt(bound)) == (4u32, bound),
        execution::encoded(U32Predicate::Ge(bound)) == (5u32, bound),
{
}

/// Selecting gives the rows whose values are accepted, each once, in ascending order.
pub proof fn law_selected_rows(values: Seq<u32>, predicate: U32Predicate, to: int)
    requires
        0 <= to <= values.len() <= u32::MAX + 1,
    ensures
        ({
            let rows = execution::accepted(values, predicate, 0, to);
            &&& forall|r: u32| #[trigger]
                rows.contains(r) <==> r < to && predicate.accepts(values[r as int])
            &&& forall|i: int, j: int|
                #![trigger rows[i], rows[j]]
                0 <= i < j < rows.len() ==> rows[i] < rows[j]
        }),
    decreases to,
{
    let rows = execution::accepted(values, predicate, 0, to);
    if to > 0 {
        law_selected_rows(values, predicate, to - 1);
        let earlier = execution::accepted(values, predicate, 0, to - 1);
        assert forall|r: u32| #[trigger] rows.contains(r) <==> r < to && predicate.accepts(
            values[r as int],
        ) by {
            assert(earlier.contains(r) <==> r < to - 1 && predicate.accepts(values[r as int]));
            if earlier.contains(r) {
                let k = choose|k: int| 0 <= k < earlier.len() && earlier[k] == r;
                assert(rows[k] == r);
            }
            if rows.contains(r) && !earlier.contains(r) {
                let k = choose|k: int| 0 <= k < rows.len() && rows[k] == r;
                if k < earlier.len() {
                    assert(earlier[k] == r);
                }
            }
            if r == to - 1 && predicate.accepts(values[to - 1]) {
                assert(rows[earlier.len() as int] == r);
            }
        }
        assert forall|i: int, j: int|
            #![trigger rows[i], rows[j]]
            0 <= i < j < rows.len() implies rows[i] < rows[j] by {
            assert(rows[i] == earlier[i]);
            if j < earlier.len() {
                assert(rows[j] == earlier[j]);
            } else {
                assert(earlier.contains(earlier[i]));
            }
        }
    }
}

/// The rows of a key are those that hold it, each once, in ascending order.
pub proof fn law_rows_of_a_key(values: Seq<u32>, key: u32, to: int)
    requires
        0 <= to <= values.len() <= u32::MAX + 1,
    ensures
        ({
            let rows = index::rows_holding(values, key, to);
            &&& forall|r: u32| #[trigger] rows.contains(r) <==> r < to && values[r as int] == key
            &&& forall|i: int, j: int|
                #![trigger rows[i], rows[j]]
                0 <= i < j < rows.len() ==> rows[i] < rows[j]
        }),
        index::matching_rows(values, key) == index::rows_holding(values, key, values.len() as int),
    decreases to,
{
    let rows = index::rows_holding(values, key, to);
    if to > 0 {
        law_rows_of_a_key(values, key, to - 1);
        let earlier = index::rows_holding(values, key, to - 1);
        assert forall|r: u32| #[trigger] rows.contains(r) <==> r < to && values[r as int] == key by {
            assert(earlier.contains(r) <==> r < to - 1 && values[r as int] == key);
            if earlier.contains(r) {
                let k = choose|k: int| 0 <= k < earlier.len() && earlier[k] == r;
                assert(rows[k] == r);
            }
            if rows.contains(r) && !earlier.contains(r) {
                let k = choose|k: int| 0 <= k < rows.len() && rows[k] == r;
                if k < earlier.len() {
                    assert(earlier[k] == r);
                }
            }
            if r == to - 1 && values[to - 1] == key {
                assert(rows[earlier.len() as int] == r);
            }
        }
        assert forall|i: int, j: int|
            #![trigger rows[i], rows[j]]
            0 <= i < j < rows.len() implies rows[i] < rows[j] by {
            assert(rows[i] == earlier[i]);
            if j < earlier.len() {
                assert(rows[j] == earlier[j]);
            } else {
                assert(earlier.contains(earlier[i]));
            }
        }
    }
}

/// The value that a projection takes from a row of each side.
pub open spec fn taken(
    left: RelationView<'_>,
    right: RelationView<'_>,
    plan: BinaryEqualityJoin,
    output: int,
    l: int,
    r: int,
) -> u32 {
    let projection = plan.output@[output];
    if projection.input == JoinInput::Left {
        left@[projection.column as int][l]
    } else {
        right@[projection.column as int][r]
    }
}

/// Whether rows of both sides hold the same key.
pub open spec fn keys_meet(
    left: RelationView<'_>,
    right: RelationView<'_>,
    plan: BinaryEqualityJoin,
    l: int,
    r: int,
) -> bool {
    left@[plan.left_key as int][l] == right@[plan.right_key as int][r]
}

/// A join over an index of its right side has a row for each two rows that hold the same key, in
/// order of the left row and then of the right one, with the values that the plan takes from them.
pub proof fn law_joined_rows(
    left: RelationView<'_>,
    right: RelationView<'_>,
    plan: BinaryEqualityJoin,
    list: spec_fn(u32) -> Seq<u32>,
    to: int,
) -> (origins: Seq<(int, int)>)
    requires
        0 <= to <= left.rows(),
        right.rows() <= u32::MAX,
        right@[plan.right_key as int].len() >= right.rows(),
        forall|key: u32| #[trigger]
            list(key) == index::matching_rows(
                right@[plan.right_key as int].take(right.rows() as int),
                key,
            ),
    ensures
        ({
            let rows = join::join_rows(left, right, plan, list, 0, to);
            &&& origins.len() == rows.len()
            &&& forall|k: int|
                0 <= k < origins.len() ==> {
                    let (l, r) = #[trigger] origins[k];
                    &&& 0 <= l < to && 0 <= r < right.rows()
                    &&& keys_meet(left, right, plan, l, r)
                    &&& rows[k] == (
                        taken(left, right, plan, 0, l, r),
                        taken(left, right, plan, 1, l, r),
                    )
                }
            &&& forall|l: int, r: int|
                0 <= l < to && 0 <= r < right.rows() && #[trigger] keys_meet(
                    left,
                    right,
                    plan,
                    l,
                    r,
                ) ==> origins.contains((l, r))
            &&& forall|i: int, j: int|
                #![trigger origins[i], origins[j]]
                0 <= i < j < origins.len() ==> origins[i].0 < origins[j].0 || (origins[i].0
                    == origins[j].0 && origins[i].1 < origins[j].1)
        }),
    decreases to,
{
    if to == 0 {
        Seq::empty()
    } else {
        let earlier = law_joined_rows(left, right, plan, list, to - 1);
        let column = right@[plan.right_key as int].take(right.rows() as int);
        let key = left@[plan.left_key as int][to - 1];
        let found = list(key);
        law_rows_of_a_key(column, key, column.len() as int);
        let own = Seq::new(found.len(), |j: int| (to - 1, found[j] as int));
        let origins = earlier + own;
        let rows = join::join_rows(left, right, plan, list, 0, to);
        let before = join::join_rows(left, right, plan, list, 0, to - 1);
        assert forall|k: int| 0 <= k < origins.len() implies {
            let (l, r) = #[trigger] origins[k];
            &&& 0 <= l < to && 0 <= r < right.rows()
            &&& keys_meet(left, right, plan, l, r)
            &&& rows[k] == (taken(left, right, plan, 0, l, r), taken(left, right, plan, 1, l, r))
        } by {
            if k < earlier.len() {
                assert(origins[k] == earlier[k]);
                assert(rows[k] == before[k]);
            } else {
                let j = k - earlier.len();
                assert(found.contains(found[j]));
                assert(column[found[j] as int] == key);
            }
        }
        assert forall|l: int, r: int|
            0 <= l < to && 0 <= r < right.rows() && #[trigger] keys_meet(
                left,
                right,
                plan,
                l,
                r,
            ) implies origins.contains((l, r)) by {
            if l < to - 1 {
                assert(earlier.contains((l, r)));
                let k = choose|k: int| 0 <= k < earlier.len() && earlier[k] == (l, r);
                assert(origins[k] == (l, r));
            } else {
                assert(column[r] == key);
                assert(found.contains(r as u32));
                let j = choose|j: int| 0 <= j < found.len() && found[j] == r as u32;
                assert(origins[earlier.len() + j] == (l, r));
            }
        }
        assert forall|i: int, j: int|
            #![trigger origins[i], origins[j]]
            0 <= i < j < origins.len() implies origins[i].0 < origins[j].0 || (origins[i].0
            == origins[j].0 && origins[i].1 < origins[j].1) by {
            if i < earlier.len() {
                assert(origins[i] == earlier[i]);
                if j < earlier.len() {
                    assert(origins[j] == earlier[j]);
                }
            } else {
                assert(found[i - earlier.len()] < found[j - earlier.len()]);
            }
        }
        origins
    }
}

/// Removing repetitions gives each row once, in ascending order of the first column and then of the
/// second.
pub proof fn law_distinct_rows(result: Seq<Pair>, rows: Seq<Pair>)
    ensures
        pairs::is_distinct(result, rows) <==> {
            &&& forall|i: int, j: int|
                #![trigger result[i], result[j]]
                0 <= i < j < result.len() ==> result[i].0 < result[j].0 || (result[i].0
                    == result[j].0 && result[i].1 < result[j].1)
            &&& forall|p: Pair|
                #![trigger result.contains(p)]
                #![trigger rows.contains(p)]
                result.contains(p) <==> rows.contains(p)
        },
{
}

/// Uniting gives each row of either side once, in ascending order of the first column and then of
/// the second.
pub proof fn law_united_rows(result: Seq<Pair>, left: Seq<Pair>, right: Seq<Pair>)
    ensures
        pairs::is_union(result, left, right) <==> {
            &&& forall|i: int, j: int|
                #![trigger result[i], result[j]]
                0 <= i < j < result.len() ==> result[i].0 < result[j].0 || (result[i].0
                    == result[j].0 && result[i].1 < result[j].1)
            &&& forall|p: Pair|
                #![trigger result.contains(p)]
                result.contains(p) <==> left.contains(p) || right.contains(p)
        },
{
    let both = left + right;
    assert forall|p: Pair|
        #![trigger both.contains(p)]
        both.contains(p) <==> left.contains(p) || right.contains(p) by {
        if left.contains(p) {
            let k = choose|k: int| 0 <= k < left.len() && left[k] == p;
            assert(both[k] == p);
        }
        if right.contains(p) {
            let k = choose|k: int| 0 <= k < right.len() && right[k] == p;
            assert(both[left.len() + k] == p);
        }
        if both.contains(p) {
            let k = choose|k: int| 0 <= k < both.len() && both[k] == p;
            if k < left.len() {
                assert(left[k] == p);
            } else {
                assert(right[k - left.len()] == p);
            }
        }
    }
    if pairs::is_union(result, left, right) {
        assert forall|p: Pair| #[trigger] result.contains(p) <==> left.contains(p)
            || right.contains(p) by {
            assert(result.contains(p) <==> both.contains(p));
        }
    }
    if forall|p: Pair|
        #![trigger result.contains(p)]
        result.contains(p) <==> left.contains(p) || right.contains(p) {
        assert(pairs::same_pairs(result, both));
    }
}

/// Subtracting gives the rows of the left side that the right side does not have, in order, and as
/// often as the left side has them.
pub proof fn law_remaining_rows(left: Seq<Pair>, right: Seq<Pair>, to: int) -> (origins: Seq<int>)
    requires
        0 <= to <= left.len(),
    ensures
        ({
            let rows = pairs::difference(left, right, 0, to);
            &&& origins.len() == rows.len()
            &&& forall|k: int|
                0 <= k < origins.len() ==> 0 <= (#[trigger] origins[k]) < to && rows[k]
                    == left[origins[k]]
            &&& forall|i: int, j: int|
                #![trigger origins[i], origins[j]]
                0 <= i < j < origins.len() ==> origins[i] < origins[j]
            &&& forall|i: int|
                0 <= i < to ==> (#[trigger] origins.contains(i) <==> !right.contains(left[i]))
        }),
    decreases to,
{
    if to == 0 {
        Seq::empty()
    } else {
        let earlier = law_remaining_rows(left, right, to - 1);
        let rows = pairs::difference(left, right, 0, to);
        if right.contains(left[to - 1]) {
            assert forall|i: int| 0 <= i < to implies (#[trigger] earlier.contains(i)
                <==> !right.contains(left[i])) by {
                if i == to - 1 && earlier.contains(i) {
                    let k = choose|k: int| 0 <= k < earlier.len() && earlier[k] == i;
                    assert(earlier[k] < to - 1);
                }
            }
            earlier
        } else {
            let origins = earlier.push(to - 1);
            let before = pairs::difference(left, right, 0, to - 1);
            assert forall|k: int| 0 <= k < origins.len() implies 0 <= (#[trigger] origins[k]) < to
                && rows[k] == left[origins[k]] by {
                if k < earlier.len() {
                    assert(origins[k] == earlier[k]);
                    assert(rows[k] == before[k]);
                }
            }
            assert forall|i: int, j: int|
                #![trigger origins[i], origins[j]]
                0 <= i < j < origins.len() implies origins[i] < origins[j] by {
                assert(origins[i] == earlier[i]);
                if j < earlier.len() {
                    assert(origins[j] == earlier[j]);
                }
            }
            assert forall|i: int| 0 <= i < to implies (#[trigger] origins.contains(i)
                <==> !right.contains(left[i])) by {
                if i < to - 1 {
                    if earlier.contains(i) {
                        let k = choose|k: int| 0 <= k < earlier.len() && earlier[k] == i;
                        assert(origins[k] == i);
                    }
                    if origins.contains(i) {
                        let k = choose|k: int| 0 <= k < origins.len() && origins[k] == i;
                        assert(earlier[k] == i);
                    }
                } else {
                    assert(origins[earlier.len() as int] == i);
                }
            }
            origins
        }
    }
}

/// The pairs of two columns are made row by row, the first column first.
pub proof fn law_pairs_of_columns(relation: RelationView<'_>, columns: Seq<u32>, i: int)
    requires
        relation@[columns[0] as int].len() >= relation.rows(),
        relation@[columns[1] as int].len() >= relation.rows(),
        0 <= i < relation.rows(),
    ensures
        execution::column_pairs(relation, columns).len() == relation.rows(),
        execution::column_pairs(relation, columns)[i] == (
            relation@[columns[0] as int][i],
            relation@[columns[1] as int][i],
        ),
{
}

/// What is wrong with the columns of an input, if anything is.
pub open spec fn wrong_columns(
    relation: RelationView<'_>,
    input: Seq<char>,
    first: u32,
    second: u32,
) -> Option<ErrorView> {
    if first >= relation@.len() {
        Some(ErrorView::MissingColumn { input, column: first })
    } else if second >= relation@.len() {
        Some(ErrorView::MissingColumn { input, column: second })
    } else {
        None
    }
}

/// When the operators fail, and with which error: rows that cannot be numbered come first, then
/// columns that are not there, then room that cannot be had.
pub proof fn law_operator_failures(
    left: RelationView<'_>,
    right: RelationView<'_>,
    distinct: BinaryDistinct,
    anti: SortedBinaryAntiJoin,
    union: SortedBinaryUnion,
    output: RelationBuffer,
    overflow: ErrorView,
)
    ensures
        ({
            let full = Some(ErrorView::Storage(storage::Error::LengthOverflow));
            let many = |rows: nat| Some(ErrorView::TooManyRows(rows));
            let sides = |a: Seq<u32>, b: Seq<u32>|
                if left.rows() > u32::MAX {
                    many(left.rows())
                } else if right.rows() > u32::MAX {
                    many(right.rows())
                } else if wrong_columns(left, "left"@, a[0], a[1]) is Some {
                    wrong_columns(left, "left"@, a[0], a[1])
                } else {
                    wrong_columns(right, "right"@, b[0], b[1])
                };
            &&& execution::distinct_problem(left, distinct, output) == if left.rows() > u32::MAX {
                many(left.rows())
            } else if wrong_columns(
                left,
                "input"@,
                distinct.columns@[0],
                distinct.columns@[1],
            ) is Some {
                wrong_columns(left, "input"@, distinct.columns@[0], distinct.columns@[1])
            } else if !output.can_reserve(left.rows()) {
                full
            } else {
                None
            }
            &&& execution::anti_join_problem(left, right, anti, output) == if sides(
                anti.left@,
                anti.right@,
            ) is Some {
                sides(anti.left@, anti.right@)
            } else if !output.can_reserve(left.rows()) {
                full
            } else {
                None
            }
            &&& execution::union_problem(left, right, union, output, overflow) == if sides(
                union.left@,
                union.right@,
            ) is Some {
                sides(union.left@, union.right@)
            } else if left.rows() + right.rows() > usize::MAX {
                Some(overflow)
            } else if !output.can_reserve(left.rows() + right.rows()) {
                full
            } else {
                None
            }
        }),
{
}

/// When the inputs of a join are refused, and with which error.
pub proof fn law_join_failures(
    left: RelationView<'_>,
    right: RelationView<'_>,
    index_rows: nat,
    plan: BinaryEqualityJoin,
)
    ensures
        ({
            let width = |input: JoinInput|
                if input == JoinInput::Left {
                    left@.len()
                } else {
                    right@.len()
                };
            let side = |input: JoinInput|
                if input == JoinInput::Left {
                    "left"@
                } else {
                    "right"@
                };
            let a = plan.output@[0];
            let b = plan.output@[1];
            join::join_input_problem(left, right, index_rows, plan) == if left.rows() > u32::MAX {
                Some(ErrorView::TooManyRows(left.rows()))
            } else if right.rows() > u32::MAX {
                Some(ErrorView::TooManyRows(right.rows()))
            } else if plan.left_key >= left@.len() {
                Some(ErrorView::MissingColumn { input: "left"@, column: plan.left_key })
            } else if plan.right_key >= right@.len() {
                Some(ErrorView::MissingColumn { input: "right"@, column: plan.right_key })
            } else if right.rows() != index_rows {
                Some(ErrorView::IndexSourceMismatch { relation_rows: right.rows(), index_rows })
            } else if a.column >= width(a.input) {
                Some(ErrorView::MissingColumn { input: side(a.input), column: a.column })
            } else if b.column >= width(b.input) {
                Some(ErrorView::MissingColumn { input: side(b.input), column: b.column })
            } else {
                None
            }
        }),
{
}

/// Where an operator runs: on the device where there is one and its threshold is reached, on the
/// thread pool where there is none and the other threshold is reached, else on the calling thread.
pub open spec fn runs_on(
    place: Placement,
    rows: int,
    device: bool,
    device_rows: usize,
    pool_rows: usize,
) -> bool {
    &&& place == Placement::Gpu <==> device && rows >= device_rows
    &&& place == Placement::CpuParallel <==> !device && rows >= pool_rows
    &&& place == Placement::CpuSerial <==> (device && rows < device_rows) || (!device && rows
        < pool_rows)
}

/// The thresholds that each operator goes by, which depend on who wrote its input.
pub proof fn law_placements(
    filter: (FilterPlacementPolicy, FilterPlacementContext),
    joining: (JoinPlacementPolicy, JoinPlacementContext),
    distinct: (DistinctPlacementPolicy, DistinctPlacementContext),
    anti: (AntiJoinPlacementPolicy, AntiJoinPlacementContext),
    union: (UnionPlacementPolicy, UnionPlacementContext),
)
    ensures
        runs_on(
            filter.0.placement(filter.1),
            filter.1.rows as int,
            filter.1.gpu_available,
            if filter.1.input_provenance == InputProvenance::Cpu {
                filter.0.cpu_produced_gpu_min_rows
            } else {
                filter.0.gpu_produced_gpu_min_rows
            },
            filter.0.gpu_unavailable_parallel_min_rows,
        ),
        runs_on(
            joining.0.placement(joining.1),
            joining.1.delta_rows as int,
            joining.1.gpu_available,
            joining.0.gpu_min_delta_rows,
            joining.0.gpu_unavailable_parallel_min_rows,
        ),
        runs_on(
            distinct.0.placement(distinct.1),
            distinct.1.rows as int,
            distinct.1.gpu_available,
            if distinct.1.input_provenance == InputProvenance::Cpu {
                distinct.0.cpu_produced_gpu_min_rows
            } else {
                distinct.0.gpu_produced_gpu_min_rows
            },
            distinct.0.gpu_unavailable_parallel_min_rows,
        ),
        runs_on(
            anti.0.placement(anti.1),
            anti.1.left_rows as int,
            anti.1.gpu_available,
            if anti.1.input_provenance == InputProvenance::Cpu {
                anti.0.cpu_produced_gpu_min_rows
            } else {
                anti.0.gpu_produced_gpu_min_rows
            },
            if anti.1.input_provenance == InputProvenance::Cpu {
                anti.0.cpu_produced_parallel_min_rows
            } else {
                anti.0.gpu_produced_parallel_min_rows
            },
        ),
        runs_on(
            union.0.placement(union.1),
            union.1.left_rows + union.1.right_rows,
            union.1.gpu_available,
            if union.1.input_provenance == InputProvenance::Cpu {
                union.0.cpu_produced_gpu_min_rows
            } else {
                union.0.gpu_produced_gpu_min_rows
            },
            union.0.gpu_unavailable_parallel_min_rows,
        ),
{
}

/// A buffer that must grow gets the least power of two of rows that is enough.
pub proof fn law_growth(required: nat)
    ensures
        ({
            let room = storage::grown(required);
            &&& room >= required
            &&& room != required ==> exists|e: nat|
                room == #[trigger] vstd::arithmetic::power2::pow2(e) && (e == 0
                    || vstd::arithmetic::power2::pow2((e - 1) as nat) < required)
        }),
{
    vstd::arithmetic::power2::lemma2_to64();
    lemma_power(0, required);
}

proof fn lemma_power(e: nat, required: nat)
    requires
        e == 0 || vstd::arithmetic::power2::pow2((e - 1) as nat) < required,
    ensures
        ({
            let found = storage::power_from(vstd::arithmetic::power2::pow2(e), required);
            &&& found >= required
            &&& exists|f: nat|
                found == #[trigger] vstd::arithmetic::power2::pow2(f) && (f == 0
                    || vstd::arithmetic::power2::pow2((f - 1) as nat) < required)
        }),
    decreases
            (if vstd::arithmetic::power2::pow2(e) < required {
                required - vstd::arithmetic::power2::pow2(e)
            } else {
                0
            }),
{
    vstd::arithmetic::power2::lemma_pow2_pos(e);
    if vstd::arithmetic::power2::pow2(e) < required {
        vstd::arithmetic::power2::lemma_pow2_unfold((e + 1) as nat);
        lemma_power(e + 1, required);
    }
}

/// Growing a buffer keeps one that is large enough, and else gives an empty one of its new size.
pub proof fn law_room<T>(buffer: Seq<T>, required: nat, zero: T)
    ensures
        required <= buffer.len() ==> storage::with_room(buffer, required, zero) == buffer,
        required > buffer.len() ==> {
            let found = storage::with_room(buffer, required, zero);
            &&& found.len() == storage::grown(required)
            &&& forall|i: int| 0 <= i < found.len() ==> #[trigger] found[i] == zero
        },
{
}

/// A finished selection holds exactly the rows with accepted values, each once, in ascending order.
/// It fails where the rows cannot be numbered, or where there is no room for them.
pub proof fn law_finished_selection<T>(
    values: Seq<u32>,
    predicate: U32Predicate,
    before: OperatorParts,
    after: OperatorParts,
    result: Result<T, Error>,
)
    requires
        execution::filter_done(values, predicate, before, after, result),
    ensures
        result is Ok <==> values.len() <= u32::MAX && before.can_reserve(values.len()),
        values.len() > u32::MAX ==> result is Err && result->Err_0@ == ErrorView::TooManyRows(
            values.len(),
        ),
        values.len() <= u32::MAX && !before.can_reserve(values.len()) ==> result is Err
            && result->Err_0@ == ErrorView::Storage(storage::Error::LengthOverflow),
        result is Ok ==> {
            let rows = after.selection.selected();
            &&& forall|r: u32| #[trigger]
                rows.contains(r) <==> r < values.len() && predicate.accepts(values[r as int])
            &&& forall|i: int, j: int|
                #![trigger rows[i], rows[j]]
                0 <= i < j < rows.len() ==> rows[i] < rows[j]
        },
{
    if values.len() <= u32::MAX {
        law_selected_rows(values, predicate, values.len() as int);
    }
}

/// A finished removal of repetitions holds each pair of its columns once, in ascending order. One
/// that failed left its output as it was.
pub proof fn law_finished_distinct<T>(
    input: RelationView<'_>,
    plan: BinaryDistinct,
    before: DistinctWorkspace,
    after: DistinctWorkspace,
    result: Result<T, Error>,
)
    requires
        execution::distinct_done(input, plan, before, after, result),
    ensures
        result is Ok <==> execution::distinct_problem(input, plan, before.buffer()) is None,
        result matches Err(error) ==> execution::distinct_problem(input, plan, before.buffer())
            == Some(error@) && after.buffer() == before.buffer(),
        result is Ok ==> {
            let found = after.buffer().pairs();
            let given = execution::column_pairs(input, plan.columns@);
            &&& forall|p: Pair|
                #![trigger found.contains(p)]
                found.contains(p) <==> given.contains(p)
            &&& forall|i: int, j: int|
                #![trigger found[i], found[j]]
                0 <= i < j < found.len() ==> found[i].0 < found[j].0 || (found[i].0 == found[j].0
                    && found[i].1 < found[j].1)
        },
{
    if result is Ok {
        law_distinct_rows(
            after.buffer().pairs(),
            execution::column_pairs(input, plan.columns@),
        );
    }
}

/// Whether pairs are in ascending order, perhaps with repetitions.
pub open spec fn in_order(rows: Seq<Pair>) -> bool {
    forall|i: int, j: int|
        #![trigger rows[i], rows[j]]
        0 <= i <= j < rows.len() ==> rows[i].0 < rows[j].0 || (rows[i].0 == rows[j].0 && rows[i].1
            <= rows[j].1)
}

/// A finished subtraction of ordered inputs holds the pairs of the left one that the right one does
/// not have, in order. One that failed left its output as it was.
pub proof fn law_finished_anti_join<T>(
    left: RelationView<'_>,
    right: RelationView<'_>,
    plan: SortedBinaryAntiJoin,
    before: AntiJoinWorkspace,
    after: AntiJoinWorkspace,
    result: Result<T, Error>,
) -> (origins: Seq<int>)
    requires
        execution::anti_join_done(left, right, plan, before, after, result),
    ensures
        result is Ok <==> execution::anti_join_problem(left, right, plan, before.buffer()) is None,
        result matches Err(error) ==> execution::anti_join_problem(
            left,
            right,
            plan,
            before.buffer(),
        ) == Some(error@) && after.buffer() == before.buffer(),
        ({
            let a = execution::column_pairs(left, plan.left@);
            let b = execution::column_pairs(right, plan.right@);
            let found = after.buffer().pairs();
            result is Ok && in_order(a) && in_order(b) ==> {
                &&& origins.len() == found.len()
                &&& forall|k: int|
                    0 <= k < origins.len() ==> 0 <= (#[trigger] origins[k]) < a.len() && found[k]
                        == a[origins[k]]
                &&& forall|i: int, j: int|
                    #![trigger origins[i], origins[j]]
                    0 <= i < j < origins.len() ==> origins[i] < origins[j]
                &&& forall|i: int|
                    0 <= i < a.len() ==> (#[trigger] origins.contains(i) <==> !b.contains(a[i]))
            }
        }),
{
    let a = execution::column_pairs(left, plan.left@);
    let b = execution::column_pairs(right, plan.right@);
    lemma_in_order(a);
    lemma_in_order(b);
    law_remaining_rows(a, b, a.len() as int)
}

proof fn lemma_in_order(rows: Seq<Pair>)
    ensures
        in_order(rows) <==> pairs::pairs_sorted(rows),
{
}

/// A finished union of ordered inputs holds each pair of either once, in ascending order. One that
/// failed left its output as it was.
pub proof fn law_finished_union<T>(
    left: RelationView<'_>,
    right: RelationView<'_>,
    plan: SortedBinaryUnion,
    before: UnionWorkspace,
    after: UnionWorkspace,
    result: Result<T, Error>,
    overflow: ErrorView,
)
    requires
        execution::union_done(left, right, plan, before, after, result, overflow),
    ensures
        result is Ok <==> execution::union_problem(
            left,
            right,
            plan,
            before.buffer(),
            overflow,
        ) is None,
        result matches Err(error) ==> execution::union_problem(
            left,
            right,
            plan,
            before.buffer(),
            overflow,
        ) == Some(error@) && after.buffer() == before.buffer(),
        ({
            let a = execution::column_pairs(left, plan.left@);
            let b = execution::column_pairs(right, plan.right@);
            let found = after.buffer().pairs();
            result is Ok && in_order(a) && in_order(b) ==> {
                &&& forall|p: Pair|
                    #![trigger found.contains(p)]
                    found.contains(p) <==> a.contains(p) || b.contains(p)
                &&& forall|i: int, j: int|
                    #![trigger found[i], found[j]]
                    0 <= i < j < found.len() ==> found[i].0 < found[j].0 || (found[i].0
                        == found[j].0 && found[i].1 < found[j].1)
            }
        }),
{
    let a = execution::column_pairs(left, plan.left@);
    let b = execution::column_pairs(right, plan.right@);
    lemma_in_order(a);
    lemma_in_order(b);
    law_united_rows(after.buffer().pairs(), a, b);
}

/// A finished join over an index of its right side holds a row for each two rows with the same key.
/// One that failed left its output as it was.
pub proof fn law_finished_join<T>(
    left: RelationView<'_>,
    right: RelationView<'_>,
    index_rows: nat,
    list: spec_fn(u32) -> Seq<u32>,
    plan: BinaryEqualityJoin,
    before: JoinParts,
    after: JoinParts,
    result: Result<T, Error>,
) -> (origins: Seq<(int, int)>)
    requires
        join::join_done(left, right, index_rows, list, plan, before, after, result),
        right.rows() <= u32::MAX,
        right@[plan.right_key as int].len() >= right.rows(),
        forall|key: u32| #[trigger]
            list(key) == index::matching_rows(
                right@[plan.right_key as int].take(right.rows() as int),
                key,
            ),
    ensures
        result is Ok <==> join::join_problem(left, right, index_rows, list, plan, before) is None,
        result matches Err(error) ==> join::join_problem(
            left,
            right,
            index_rows,
            list,
            plan,
            before,
        ) == Some(error@) && after.output == before.output,
        result is Ok ==> {
            let found = after.output.pairs();
            &&& origins.len() == found.len()
            &&& forall|k: int|
                0 <= k < origins.len() ==> {
                    let (l, r) = #[trigger] origins[k];
                    &&& 0 <= l < left.rows() && 0 <= r < right.rows()
                    &&& keys_meet(left, right, plan, l, r)
                    &&& found[k] == (
                        taken(left, right, plan, 0, l, r),
                        taken(left, right, plan, 1, l, r),
                    )
                }
            &&& forall|l: int, r: int|
                0 <= l < left.rows() && 0 <= r < right.rows() && #[trigger] keys_meet(
                    left,
                    right,
                    plan,
                    l,
                    r,
                ) ==> origins.contains((l, r))
            &&& forall|i: int, j: int|
                #![trigger origins[i], origins[j]]
                0 <= i < j < origins.len() ==> origins[i] != origins[j]
        },
{
    law_joined_rows(left, right, plan, list, left.rows() as int)
}

/// The rows of a join that has too many of them, or no room for them, are refused.
pub proof fn law_join_room(
    left: RelationView<'_>,
    right: RelationView<'_>,
    index_rows: nat,
    list: spec_fn(u32) -> Seq<u32>,
    plan: BinaryEqualityJoin,
    workspace: JoinParts,
)
    requires
        join::join_input_problem(left, right, index_rows, plan) is None,
    ensures
        ({
            let rows = join::join_rows(left, right, plan, list, 0, left.rows() as int).len();
            join::join_problem(left, right, index_rows, list, plan, workspace)
                == if !workspace.can_reserve_outer(left.rows()) {
                Some(ErrorView::Storage(storage::Error::LengthOverflow))
            } else if rows > usize::MAX {
                Some(ErrorView::OutputTooLarge(rows))
            } else if !workspace.output.can_reserve(rows) {
                Some(ErrorView::Storage(storage::Error::LengthOverflow))
            } else {
                None
            }
        }),
        join::join_input_problem(left, right, index_rows, plan) matches Some(problem)
            ==> join::join_problem(left, right, index_rows, list, plan, workspace) == Some(problem),
{
}

/// The pairs of a buffer are its first rows, the first column first.
pub proof fn law_buffer_pairs(columns: Seq<Seq<u32>>, rows: nat, i: int)
    requires
        0 <= i < rows,
    ensures
        storage::pair_rows(columns, rows).len() == rows,
        storage::pair_rows(columns, rows)[i] == (columns[0][i], columns[1][i]),
{
}

} // verus!
