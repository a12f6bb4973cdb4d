//! Semi-naive evaluation of a recursive rule over binary relations.
use vstd::prelude::*;

use crate::execution;
use crate::execution::{anti_join_auto, distinct_auto, union_auto, Error, ErrorView};
use crate::index;
use crate::index::U32RangeIndex;
use crate::join;
use crate::join::join_auto;
use crate::pairs;
use crate::pairs::Pair;
use crate::placement::{
    AntiJoinPlacementContext, AntiJoinPlacementPolicy, DistinctPlacementContext,
    DistinctPlacementPolicy, InputProvenance, JoinPlacementContext, JoinPlacementPolicy, Placement,
    UnionPlacementContext, UnionPlacementPolicy,
};
use crate::relational::{
    BinaryDistinct, BinaryEqualityJoin, JoinInput, JoinProjection, SortedBinaryAntiJoin,
    SortedBinaryUnion,
};
use crate::rounds;
use crate::rounds::RelationPairs;
use crate::storage;
use crate::storage::{RelationBuffer, RelationView};
use crate::text;
use crate::text::decimal_text;
use crate::workspace::{
    AntiJoinWorkspace, DistinctWorkspace, JoinParts, JoinWorkspace, UnionWorkspace,
};

verus! {

/// The policies that place the operators of one round.
#[derive(Debug, Clone, Copy, PartialEq, Eq)]
pub struct IterationPolicies {
    pub join: JoinPlacementPolicy,
    pub distinct: DistinctPlacementPolicy,
    pub anti_join: AntiJoinPlacementPolicy,
    pub union: UnionPlacementPolicy,
}

impl Default for IterationPolicies {
    /// The measured policies.
    fn default() -> (policies: Self)
        ensures
            policies.join.gpu_min_delta_rows == 2_048,
            policies.join.gpu_unavailable_parallel_min_rows == 2_048,
            policies.distinct.cpu_produced_gpu_min_rows == 32_768,
            policies.distinct.gpu_produced_gpu_min_rows == 32_768,
            policies.distinct.gpu_unavailable_parallel_min_rows == 131_072,
            policies.anti_join.cpu_produced_gpu_min_rows == 32_768,
            policies.anti_join.gpu_produced_gpu_min_rows == 16_384,
            policies.anti_join.cpu_produced_parallel_min_rows == 32_768,
            policies.anti_join.gpu_produced_parallel_min_rows == 262_144,
            policies.union.cpu_produced_gpu_min_rows == 1_048_576,
            policies.union.gpu_produced_gpu_min_rows == 1_048_576,
            policies.union.gpu_unavailable_parallel_min_rows == 4_194_304,
    {
        IterationPolicies {
            join: JoinPlacementPolicy::measured_gb10_dblp(),
            distinct: DistinctPlacementPolicy::measured_gb10_dblp(),
            anti_join: AntiJoinPlacementPolicy::measured_gb10_dblp(),
            union: UnionPlacementPolicy::measured_gb10_dblp(),
        }
    }
}

/// Where the operators of one round ran.
#[derive(Debug, Clone, Copy, PartialEq, Eq)]
pub struct IterationPlacements {
    pub join: Placement,
    pub distinct: Placement,
    pub anti_join: Placement,
    pub union: Placement,
}

/// What one round did.
#[derive(Debug, Clone, Copy, PartialEq, Eq)]
pub struct IterationResult {
    pub candidate_rows: usize,
    pub distinct_candidate_rows: usize,
    pub newt_rows: usize,
    pub full_rows: usize,
    pub full_provenance: InputProvenance,
    pub placements: IterationPlacements,
}

/// The processor that wrote the output of an operator.
pub open spec fn provenance_of(placement: Placement) -> InputProvenance {
    match placement {
        Placement::Gpu => InputProvenance::Gpu,
        Placement::CpuSerial => InputProvenance::Cpu,
        Placement::CpuParallel => InputProvenance::Cpu,
    }
}

pub fn placement_provenance(placement: Placement) -> (provenance: InputProvenance)
    ensures
        provenance == provenance_of(placement),
{
    match placement {
        Placement::Gpu => InputProvenance::Gpu,
        Placement::CpuSerial => InputProvenance::Cpu,
        Placement::CpuParallel => InputProvenance::Cpu,
    }
}

/// Two inputs count as written by the device if both were.
pub open spec fn combined(left: InputProvenance, right: InputProvenance) -> InputProvenance {
    if left == InputProvenance::Gpu && right == InputProvenance::Gpu {
        InputProvenance::Gpu
    } else {
        InputProvenance::Cpu
    }
}

pub fn combine_provenance(left: InputProvenance, right: InputProvenance) -> (provenance:
    InputProvenance)
    ensures
        provenance == combined(left, right),
{
    if left == InputProvenance::Gpu && right == InputProvenance::Gpu {
        InputProvenance::Gpu
    } else {
        InputProvenance::Cpu
    }
}

/// The rows of the first two columns of a relation.
pub open spec fn view_pairs(view: RelationView<'_>) -> Seq<Pair> {
    execution::column_pairs(view, seq![0u32, 1u32])
}

/// Whether a plan reads the first two columns, in this order.
pub open spec fn in_order(columns: Seq<u32>) -> bool {
    columns == seq![0u32, 1u32]
}

/// Whether a join only reads the first two columns of its inputs.
pub open spec fn is_binary_join(plan: BinaryEqualityJoin) -> bool {
    &&& plan.left_key < 2
    &&& plan.right_key < 2
    &&& plan.output@[0].column < 2
    &&& plan.output@[1].column < 2
}

/// Whether an index lists the rows of a column of a relation.
pub open spec fn indexes(index: U32RangeIndex, relation: RelationView<'_>, column: u32) -> bool {
    forall|key: u32| #[trigger]
        index.postings(key) == index::matching_rows(
            relation@[column as int].take(relation.rows() as int),
            key,
        )
}

/// A buffer's rows are those of its view.
pub proof fn lemma_buffer_pairs(buffer: RelationBuffer, view: RelationView<'_>)
    requires
        buffer.wf(),
        buffer.contents().len() >= 2,
        view@ == buffer.contents(),
        view.rows() == buffer.rows(),
    ensures
        view_pairs(view) == buffer.pairs(),
{
    assert(buffer.contents()[0].len() == buffer.room());
    assert(buffer.contents()[1].len() == buffer.room());
    assert(view_pairs(view) =~= buffer.pairs());
}

/// Joining relations through an index of the right one joins their pairs.
pub proof fn lemma_view_join(
    left: RelationView<'_>,
    right: RelationView<'_>,
    plan: BinaryEqualityJoin,
    index: U32RangeIndex,
    count: int,
)
    requires
        left.wf(),
        right.wf(),
        is_binary_join(plan),
        left@.len() >= 2,
        right@.len() >= 2,
        indexes(index, right, plan.right_key),
        right.rows() <= u32::MAX,
        0 <= count <= left.rows(),
    ensures
        join::join_rows(left, right, plan, |k: u32| index.postings(k), 0, count)
            == rounds::pair_join(plan, view_pairs(left), view_pairs(right), count),
    decreases count,
{
    let list = |k: u32| index.postings(k);
    if count > 0 {
        lemma_view_join(left, right, plan, index, count - 1);
        let i = count - 1;
        assert(left@[0].len() >= left.rows() && left@[1].len() >= left.rows());
        assert(right@[0].len() >= right.rows() && right@[1].len() >= right.rows());
        let l = view_pairs(left);
        let r = view_pairs(right);
        let keys = right@[plan.right_key as int].take(right.rows() as int);
        assert(rounds::column_list(r, plan.right_key) =~= keys);
        let key = left@[plan.left_key as int][i];
        assert(rounds::column_of(l[i], plan.left_key) == key);
        let rows = index.postings(key);
        assert(rows == index::matching_rows(keys, key));
        index::lemma_matching_rows(keys, key);
        assert forall|j: int| 0 <= j < rows.len() implies (#[trigger] rows[j]) < right.rows() by {
            assert(rows.contains(rows[j]));
        }
        assert(join::row_join(left, right, plan, list, i) =~= rounds::pair_row_join(
            plan,
            l,
            r,
            i,
        ));
    }
}

/// Why deriving new pairs fails, if it does, where the plans read columns in order.
pub open spec fn derive_problem(
    delta: RelationView<'_>,
    right: RelationView<'_>,
    full: RelationView<'_>,
    index: U32RangeIndex,
    plan: BinaryEqualityJoin,
    candidates: JoinParts,
    distinct: RelationBuffer,
    newt: RelationBuffer,
) -> Option<ErrorView> {
    let joined = join::join_rows(
        delta,
        right,
        plan,
        |k: u32| index.postings(k),
        0,
        delta.rows() as int,
    );
    let unique = rounds::distinct_list(joined);
    execution::first_of(
        join::join_problem(
            delta,
            right,
            index.count(),
            |k: u32| index.postings(k),
            plan,
            candidates,
        ),
        execution::first_of(
            execution::rows_problem(joined.len()),
            execution::first_of(
                execution::storage_problem(distinct.can_reserve(joined.len())),
                execution::first_of(
                    execution::rows_problem(unique.len()),
                    execution::first_of(
                        execution::rows_problem(full.rows()),
                        execution::first_of(
                            execution::pair_problem(full, "right"@, seq![0u32, 1u32]),
                            execution::storage_problem(newt.can_reserve(unique.len())),
                        ),
                    ),
                ),
            ),
        ),
    )
}

/// Where the operators that derive new pairs run without a device.
pub open spec fn derive_placements(
    policies: IterationPolicies,
    delta_rows: nat,
    joined_rows: nat,
    unique_rows: nat,
) -> (Placement, Placement, Placement) {
    (
        policies.join.placement(
            JoinPlacementContext { delta_rows: delta_rows as usize, gpu_available: false },
        ),
        policies.distinct.placement(
            DistinctPlacementContext {
                rows: joined_rows as usize,
                input_provenance: InputProvenance::Cpu,
                gpu_available: false,
            },
        ),
        policies.anti_join.placement(
            AntiJoinPlacementContext {
                left_rows: unique_rows as usize,
                input_provenance: InputProvenance::Cpu,
                gpu_available: false,
            },
        ),
    )
}

/// Joins the newest pairs with a relation, removes repetitions, and subtracts what is known.
pub(crate) fn derive_new(
    delta: RelationView<'_>,
    right: RelationView<'_>,
    full: RelationView<'_>,
    right_index: &U32RangeIndex,
    join: BinaryEqualityJoin,
    distinct: BinaryDistinct,
    anti_join: SortedBinaryAntiJoin,
    full_provenance: InputProvenance,
    candidates: &mut JoinWorkspace,
    unique: &mut DistinctWorkspace,
    newt: &mut AntiJoinWorkspace,
    policies: IterationPolicies,
) -> (result: Result<(Placement, Placement, Placement), Error>)
    requires
        delta.wf(),
        right.wf(),
        full.wf(),
        right_index.wf(),
        old(candidates)@.wf(),
        old(candidates)@.output.contents().len() == 2,
        old(unique).wf(),
        old(newt).wf(),
    ensures
        final(candidates)@.wf(),
        final(candidates)@.output.contents().len() == 2,
        final(unique).wf(),
        final(newt).wf(),
        in_order(distinct.columns@) && in_order(anti_join.left@) && in_order(anti_join.right@)
            ==> execution::fails_as(
            result,
            derive_problem(
                delta,
                right,
                full,
                *right_index,
                join,
                old(candidates)@,
                old(unique).buffer(),
                old(newt).buffer(),
            ),
        ),
        result matches Ok(placements) ==> {
            let joined = final(candidates)@.output.pairs();
            let found = final(unique).buffer().pairs();
            &&& joined == join::join_rows(
                delta,
                right,
                join,
                |k: u32| right_index.postings(k),
                0,
                delta.rows() as int,
            )
            &&& final(newt).buffer().rows() <= found.len()
            &&& placements == derive_placements(
                policies,
                delta.rows(),
                joined.len(),
                found.len(),
            )
            &&& in_order(distinct.columns@) ==> found == rounds::distinct_list(joined)
            &&& in_order(distinct.columns@) && in_order(anti_join.left@) && in_order(
                anti_join.right@,
            ) && pairs::pairs_sorted(view_pairs(full)) ==> final(newt).buffer().pairs()
                == pairs::difference(found, view_pairs(full), 0, found.len() as int)
        },
{
    let join_placement = match join_auto(
        delta,
        right,
        right_index,
        join,
        candidates,
        false,
        policies.join,
    ) {
        Ok(placement) => placement,
        Err(error) => {
            return Err(error);
        },
    };
    let joined = candidates.output().view();
    let ghost joined_pairs = candidates@.output.pairs();
    proof {
        lemma_buffer_pairs(candidates@.output, joined);
    }
    let distinct_placement = match distinct_auto(
        joined,
        distinct,
        placement_provenance(join_placement),
        unique,
        false,
        policies.distinct,
    ) {
        Ok(placement) => placement,
        Err(error) => {
            return Err(error);
        },
    };
    let found = unique.output().view();
    let ghost found_pairs = unique.buffer().pairs();
    proof {
        lemma_buffer_pairs(unique.buffer(), found);
        if in_order(distinct.columns@) {
            rounds::law_distinct_list(joined_pairs);
        }
        assert(pairs::pairs_ascending(found_pairs));
        lemma_ascending_is_sorted(found_pairs);
    }
    let anti_provenance = combine_provenance(
        placement_provenance(distinct_placement),
        full_provenance,
    );
    match anti_join_auto(
        found,
        full,
        anti_join,
        anti_provenance,
        newt,
        false,
        policies.anti_join,
    ) {
        Ok(anti_placement) => Ok((join_placement, distinct_placement, anti_placement)),
        Err(error) => Err(error),
    }
}

pub proof fn lemma_ascending_is_sorted(rows: Seq<Pair>)
    requires
        pairs::pairs_ascending(rows),
    ensures
        pairs::pairs_sorted(rows),
{
    assert forall|i: int, j: int|
        #![trigger rows[i], rows[j]]
        0 <= i <= j < rows.len() implies !pairs::pair_less(rows[j], rows[i]) by {
        if i < j {
            assert(pairs::pair_less(rows[i], rows[j]));
        }
    }
}

/// The join of a path with an edge that begins where it ends.
pub open spec fn path_join() -> BinaryEqualityJoin {
    BinaryEqualityJoin {
        left_key: 1,
        right_key: 0,
        output: [
            JoinProjection { input: JoinInput::Left, column: 0 },
            JoinProjection { input: JoinInput::Right, column: 1 },
        ],
    }
}

pub(crate) fn join_plan() -> (plan: BinaryEqualityJoin)
    ensures
        plan == path_join(),
        is_binary_join(plan),
{
    BinaryEqualityJoin {
        left_key: 1,
        right_key: 0,
        output: [
            JoinProjection { input: JoinInput::Left, column: 0 },
            JoinProjection { input: JoinInput::Right, column: 1 },
        ],
    }
}

pub(crate) fn distinct_plan() -> (plan: BinaryDistinct)
    ensures
        in_order(plan.columns@),
{
    let plan = BinaryDistinct { columns: [0, 1] };
    assert(plan.columns@ =~= seq![0u32, 1u32]);
    plan
}

pub(crate) fn anti_join_plan() -> (plan: SortedBinaryAntiJoin)
    ensures
        in_order(plan.left@),
        in_order(plan.right@),
{
    let plan = SortedBinaryAntiJoin { left: [0, 1], right: [0, 1] };
    assert(plan.left@ =~= seq![0u32, 1u32]);
    assert(plan.right@ =~= seq![0u32, 1u32]);
    plan
}

pub(crate) fn union_plan() -> (plan: SortedBinaryUnion)
    ensures
        in_order(plan.left@),
        in_order(plan.right@),
{
    let plan = SortedBinaryUnion { left: [0, 1], right: [0, 1] };
    assert(plan.left@ =~= seq![0u32, 1u32]);
    assert(plan.right@ =~= seq![0u32, 1u32]);
    plan
}

/// Why uniting known and new pairs fails, if it does.
pub open spec fn update_problem(
    full: RelationView<'_>,
    new_rows: nat,
    output: RelationBuffer,
    placement: Placement,
) -> Option<ErrorView> {
    execution::first_of(
        execution::rows_problem(full.rows()),
        execution::first_of(
            execution::rows_problem(new_rows),
            execution::first_of(
                execution::pair_problem(full, "left"@, seq![0u32, 1u32]),
                if full.rows() + new_rows > usize::MAX {
                    Some(
                        if placement == Placement::CpuSerial {
                            execution::serial_overflow()
                        } else {
                            execution::parallel_overflow()
                        },
                    )
                } else {
                    execution::storage_problem(output.can_reserve(full.rows() + new_rows))
                },
            ),
        ),
    )
}

pub open spec fn update_placement(
    policies: IterationPolicies,
    full_rows: nat,
    new_rows: nat,
) -> Placement {
    policies.union.placement(
        UnionPlacementContext {
            left_rows: full_rows as usize,
            right_rows: new_rows as usize,
            input_provenance: InputProvenance::Cpu,
            gpu_available: false,
        },
    )
}

/// The pairs that one step derives, in the order in which it finds them.
pub open spec fn step_joined(
    delta: RelationView<'_>,
    edge: RelationView<'_>,
    index: U32RangeIndex,
    plan: BinaryEqualityJoin,
) -> Seq<Pair> {
    join::join_rows(delta, edge, plan, |k: u32| index.postings(k), 0, delta.rows() as int)
}

/// The pairs that one step adds.
pub open spec fn step_new(
    delta: RelationView<'_>,
    edge: RelationView<'_>,
    full: RelationView<'_>,
    index: U32RangeIndex,
    plan: BinaryEqualityJoin,
) -> Seq<Pair> {
    let unique = rounds::distinct_list(step_joined(delta, edge, index, plan));
    pairs::difference(unique, view_pairs(full), 0, unique.len() as int)
}

/// The buffers of one step of a path relation. Two of them take turns, so that each step reads what
/// the other left.
pub struct TransitiveClosureStep {
    candidates: JoinWorkspace,
    distinct_candidates: DistinctWorkspace,
    newt: AntiJoinWorkspace,
    full: UnionWorkspace,
}

/// Why one step fails, if it does.
pub open spec fn step_problem(
    delta: RelationView<'_>,
    edge: RelationView<'_>,
    full: RelationView<'_>,
    index: U32RangeIndex,
    plan: BinaryEqualityJoin,
    policies: IterationPolicies,
    step: TransitiveClosureStep,
) -> Option<ErrorView> {
    let new_rows = step_new(delta, edge, full, index, plan).len();
    execution::first_of(
        derive_problem(
            delta,
            edge,
            full,
            index,
            plan,
            step.candidate_parts(),
            step.distinct_buffer(),
            step.newt_buffer(),
        ),
        update_problem(
            full,
            new_rows,
            step.full_buffer(),
            update_placement(policies, full.rows(), new_rows),
        ),
    )
}

/// Whether the outcome of a step is what it has to be, for known pairs in ascending order.
pub open spec fn is_step(
    delta: RelationView<'_>,
    edge: RelationView<'_>,
    full: RelationView<'_>,
    index: U32RangeIndex,
    plan: BinaryEqualityJoin,
    policies: IterationPolicies,
    before: TransitiveClosureStep,
    after: TransitiveClosureStep,
    result: Result<IterationResult, Error>,
) -> bool {
    let joined = step_joined(delta, edge, index, plan);
    let unique = rounds::distinct_list(joined);
    let new = step_new(delta, edge, full, index, plan);
    let all = rounds::with_new(view_pairs(full), new);
    let (join, distinct, anti_join) = derive_placements(
        policies,
        delta.rows(),
        joined.len(),
        unique.len(),
    );
    &&& execution::fails_as(result, step_problem(delta, edge, full, index, plan, policies, before))
    &&& result matches Ok(done) ==> {
        &&& after.newt_buffer().pairs() == new
        &&& after.full_buffer().pairs() == all
        &&& done.candidate_rows == joined.len()
        &&& done.distinct_candidate_rows == unique.len()
        &&& done.newt_rows == new.len()
        &&& done.full_rows == all.len()
        &&& done.full_provenance == InputProvenance::Cpu
        &&& done.placements == (IterationPlacements {
            join,
            distinct,
            anti_join,
            union: update_placement(policies, full.rows(), new.len()),
        })
    }
}

impl TransitiveClosureStep {
    pub closed spec fn candidate_parts(&self) -> JoinParts {
        self.candidates@
    }

    pub closed spec fn distinct_buffer(&self) -> RelationBuffer {
        self.distinct_candidates.buffer()
    }

    /// The pairs that the last step added.
    pub closed spec fn newt_buffer(&self) -> RelationBuffer {
        self.newt.buffer()
    }

    /// The pairs that are known after the last step.
    pub closed spec fn full_buffer(&self) -> RelationBuffer {
        self.full.buffer()
    }

    pub closed spec fn wf(&self) -> bool {
        &&& self.candidates@.wf()
        &&& self.candidates@.output.contents().len() == 2
        &&& self.distinct_candidates.wf()
        &&& self.newt.wf()
        &&& self.full.wf()
    }

    /// The outputs of a well-formed step are binary relations.
    pub proof fn lemma_wf(&self)
        requires
            self.wf(),
        ensures
            self.newt_buffer().wf(),
            self.newt_buffer().contents().len() >= 2,
            self.full_buffer().wf(),
            self.full_buffer().contents().len() >= 2,
    {
    }

    pub fn new() -> (result: Result<Self, storage::Error>)
        ensures
            result is Ok,
            result->Ok_0.wf(),
            result->Ok_0.newt_buffer().rows() == 0,
            result->Ok_0.full_buffer().rows() == 0,
    {
        let candidates = match JoinWorkspace::new(2) {
            Ok(candidates) => candidates,
            Err(error) => {
                return Err(error);
            },
        };
        let distinct_candidates = match DistinctWorkspace::new() {
            Ok(distinct_candidates) => distinct_candidates,
            Err(error) => {
                return Err(error);
            },
        };
        let newt = match AntiJoinWorkspace::new() {
            Ok(newt) => newt,
            Err(error) => {
                return Err(error);
            },
        };
        let full = match UnionWorkspace::new() {
            Ok(full) => full,
            Err(error) => {
                return Err(error);
            },
        };
        Ok(TransitiveClosureStep { candidates, distinct_candidates, newt, full })
    }

    pub fn newt(&self) -> (newt: &RelationBuffer)
        ensures
            *newt == self.newt_buffer(),
    {
        self.newt.output()
    }

    pub fn full(&self) -> (full: &RelationBuffer)
        ensures
            *full == self.full_buffer(),
    {
        self.full.output()
    }

    /// Extends the newest paths by an edge: the paths that this adds, and all that are known then.
    pub fn execute(
        &mut self,
        delta: RelationView<'_>,
        edge: RelationView<'_>,
        full: RelationView<'_>,
        edge_index: &U32RangeIndex,
        full_provenance: InputProvenance,
        policies: IterationPolicies,
    ) -> (result: Result<IterationResult, Error>)
        requires
            old(self).wf(),
            delta.wf(),
            edge.wf(),
            full.wf(),
            edge_index.wf(),
        ensures
            final(self).wf(),
            full@.len() < 2 || pairs::pairs_sorted(view_pairs(full)) ==> is_step(
                delta,
                edge,
                full,
                *edge_index,
                path_join(),
                policies,
                *old(self),
                *final(self),
                result,
            ),
    {
        let join = join_plan();
        let ghost before = *self;
        let (join_placement, distinct_placement, anti_placement) = match derive_new(
            delta,
            edge,
            full,
            edge_index,
            join,
            distinct_plan(),
            anti_join_plan(),
            full_provenance,
            &mut self.candidates,
            &mut self.distinct_candidates,
            &mut self.newt,
            policies,
        ) {
            Ok(placements) => placements,
            Err(error) => {
                return Err(error);
            },
        };
        let newt = self.newt.output().view();
        let ghost new = self.newt.buffer().pairs();
        let ghost sorted = pairs::pairs_sorted(view_pairs(full));
        proof {
            lemma_buffer_pairs(self.newt.buffer(), newt);
            if sorted {
                let unique = self.distinct_candidates.buffer().pairs();
                rounds::law_distinct_list(step_joined(delta, edge, *edge_index, join));
                rounds::lemma_difference(unique, view_pairs(full), unique.len() as int);
                lemma_ascending_is_sorted(new);
                rounds::law_distinct_list(view_pairs(full) + new);
            }
        }
        let union_provenance = combine_provenance(
            full_provenance,
            placement_provenance(anti_placement),
        );
        let union = match union_auto(
            full,
            newt,
            union_plan(),
            union_provenance,
            &mut self.full,
            false,
            policies.union,
        ) {
            Ok(union) => union,
            Err(error) => {
                return Err(error);
            },
        };
        Ok(
            IterationResult {
                candidate_rows: self.candidates.output().len(),
                distinct_candidate_rows: self.distinct_candidates.output().len(),
                newt_rows: self.newt.output().len(),
                full_rows: self.full.output().len(),
                full_provenance: placement_provenance(union),
                placements: IterationPlacements {
                    join: join_placement,
                    distinct: distinct_placement,
                    anti_join: anti_placement,
                    union,
                },
            },
        )
    }
}

/// The sizes of a relation between rounds. The pairs of a round are expected to be new, each once.
#[derive(Debug, Clone, Copy, PartialEq, Eq)]
pub struct FixpointState {
    full_rows: usize,
    delta_rows: usize,
    iterations: usize,
}

impl FixpointState {
    pub closed spec fn known(self) -> nat {
        self.full_rows as nat
    }

    pub closed spec fn newest(self) -> nat {
        self.delta_rows as nat
    }

    pub closed spec fn count(self) -> nat {
        self.iterations as nat
    }

    pub fn seeded(seed_rows: usize) -> (state: Self)
        ensures
            state.known() == seed_rows,
            state.newest() == seed_rows,
            state.count() == 0,
    {
        FixpointState::with_seed(seed_rows, seed_rows)
    }

    pub fn with_seed(full_rows: usize, delta_rows: usize) -> (state: Self)
        ensures
            state.known() == full_rows,
            state.newest() == delta_rows,
            state.count() == 0,
    {
        FixpointState { full_rows, delta_rows, iterations: 0 }
    }

    pub fn full_rows(self) -> (rows: usize)
        ensures
            rows == self.known(),
    {
        self.full_rows
    }

    pub fn delta_rows(self) -> (rows: usize)
        ensures
            rows == self.newest(),
    {
        self.delta_rows
    }

    pub fn iterations(self) -> (iterations: usize)
        ensures
            iterations == self.count(),
    {
        self.iterations
    }

    /// Whether the last round added nothing.
    pub fn reached_fixpoint(self) -> (reached: bool)
        ensures
            reached == (self.newest() == 0),
    {
        self.delta_rows == 0
    }

    /// Takes note of a round.
    pub fn advance(&mut self, next_delta_rows: usize)
        requires
            old(self).known() + next_delta_rows <= usize::MAX,
            old(self).count() < usize::MAX,
        ensures
            final(self).known() == old(self).known() + next_delta_rows,
            final(self).newest() == next_delta_rows,
            final(self).count() == old(self).count() + 1,
    {
        self.full_rows += next_delta_rows;
        self.delta_rows = next_delta_rows;
        self.iterations += 1;
    }
}

#[derive(Debug, Clone, Copy, PartialEq, Eq, Structural)]
enum StepSlot {
    First,
    Second,
}

#[derive(Debug, Clone, Copy, PartialEq, Eq)]
pub enum FixpointError {
    Execution(Error),
    IterationLimit { limit: usize, remaining_delta_rows: usize },
}

impl FixpointError {
    /// What the error says.
    pub open spec fn text(self) -> Seq<char> {
        match self {
            FixpointError::Execution(error) => execution::error_text(error@),
            FixpointError::IterationLimit {
                limit,
                remaining_delta_rows,
            } => "fixpoint did not converge within "@ + text::decimal(limit as nat)
                + " iterations; "@ + text::decimal(remaining_delta_rows as nat)
                + " delta rows remain"@,
        }
    }

    pub fn message(&self) -> (message: String)
        ensures
            message@ == self.text(),
    {
        match self {
            FixpointError::Execution(error) => error.message(),
            FixpointError::IterationLimit { limit, remaining_delta_rows } => {
                let mut message = "fixpoint did not converge within ".to_owned();
                let limit = decimal_text(*limit);
                message.append(limit.as_str());
                message.append(" iterations; ");
                let rows = decimal_text(*remaining_delta_rows);
                message.append(rows.as_str());
                message.append(" delta rows remain");
                message
            },
        }
    }
}

/// What reaching a fixpoint took.
#[derive(Debug, Clone, Copy, PartialEq, Eq)]
pub struct FixpointSummary {
    pub state: FixpointState,
    pub full_provenance: InputProvenance,
    pub last_iteration: IterationResult,
}

/// The paths that are known, and the newest among them, after some rounds.
pub open spec fn path_rounds(
    seed_delta: RelationView<'_>,
    edge: RelationView<'_>,
    seed_full: RelationView<'_>,
    count: nat,
) -> RelationPairs {
    rounds::closure_rounds(
        path_join(),
        view_pairs(edge),
        RelationPairs { full: view_pairs(seed_full), delta: view_pairs(seed_delta) },
        count,
    )
}

/// Whether a result tells what a round did with known and newest paths, without a device.
pub open spec fn is_round_result(
    edge: Seq<Pair>,
    before: RelationPairs,
    policies: IterationPolicies,
    done: IterationResult,
) -> bool {
    let joined = rounds::pair_join(path_join(), before.delta, edge, before.delta.len() as int);
    let unique = rounds::distinct_list(joined);
    let new = rounds::rule_new(path_join(), before.delta, edge, before.full);
    let places = derive_placements(policies, before.delta.len(), joined.len(), unique.len());
    &&& done.candidate_rows == joined.len()
    &&& done.distinct_candidate_rows == unique.len()
    &&& done.newt_rows == new.len()
    &&& done.full_rows == rounds::with_new(before.full, new).len()
    &&& done.full_provenance == InputProvenance::Cpu
    &&& done.placements == (IterationPlacements {
        join: places.0,
        distinct: places.1,
        anti_join: places.2,
        union: update_placement(policies, before.full.len(), new.len()),
    })
}

/// Whether a round is the first that adds nothing.
pub open spec fn is_last_round(
    seed_delta: RelationView<'_>,
    edge: RelationView<'_>,
    seed_full: RelationView<'_>,
    count: nat,
) -> bool {
    &&& count >= 1
    &&& path_rounds(seed_delta, edge, seed_full, count).delta.len() == 0
    &&& goes_on(seed_delta, edge, seed_full, count)
}

/// Whether every round before one adds something.
pub open spec fn goes_on(
    seed_delta: RelationView<'_>,
    edge: RelationView<'_>,
    seed_full: RelationView<'_>,
    count: nat,
) -> bool {
    forall|k: nat|
        1 <= k < count ==> (#[trigger] path_rounds(
            seed_delta,
            edge,
            seed_full,
            k,
        )).delta.len() > 0
}

/// Whether the sizes of a round stay within what rows can be numbered and held.
pub open spec fn round_fits(edge: Seq<Pair>, state: RelationPairs) -> bool {
    let joined = rounds::pair_join(path_join(), state.delta, edge, state.delta.len() as int);
    let unique = rounds::distinct_list(joined);
    let new = rounds::rule_new(path_join(), state.delta, edge, state.full);
    &&& state.delta.len() <= u32::MAX
    &&& state.full.len() <= u32::MAX
    &&& joined.len() <= u32::MAX
    &&& joined.len() <= usize::MAX
    &&& unique.len() <= u32::MAX
    &&& new.len() <= u32::MAX
    &&& state.full.len() + new.len() <= usize::MAX
    &&& storage::size_fits::<u64>(storage::grown(state.delta.len()))
    &&& storage::size_fits::<u32>(storage::grown(joined.len()))
    &&& storage::size_fits::<u32>(storage::grown(unique.len()))
    &&& storage::size_fits::<u32>(storage::grown(state.full.len() + new.len()))
}

/// Whether the inputs have the columns that are read, and the index is one of the edges.
pub open spec fn inputs_fit(
    delta: RelationView<'_>,
    edge: RelationView<'_>,
    full: RelationView<'_>,
    index: U32RangeIndex,
) -> bool {
    &&& delta@.len() >= 2
    &&& edge@.len() >= 2
    &&& full@.len() >= 2
    &&& edge.rows() <= u32::MAX
    &&& index.count() == edge.rows()
    &&& indexes(index, edge, 0)
}

/// A step over an indexed edge relation is a round.
proof fn lemma_step_is_round(
    delta: RelationView<'_>,
    edge: RelationView<'_>,
    full: RelationView<'_>,
    index: U32RangeIndex,
    policies: IterationPolicies,
    before: TransitiveClosureStep,
    after: TransitiveClosureStep,
    result: Result<IterationResult, Error>,
)
    requires
        delta.wf(),
        edge.wf(),
        full.wf(),
        before.wf(),
        is_step(delta, edge, full, index, path_join(), policies, before, after, result),
    ensures
        result is Ok && indexes(index, edge, 0) ==> {
            let new = rounds::rule_new(
                path_join(),
                view_pairs(delta),
                view_pairs(edge),
                view_pairs(full),
            );
            &&& after.newt_buffer().pairs() == new
            &&& after.full_buffer().pairs() == rounds::with_new(view_pairs(full), new)
            &&& is_round_result(
                view_pairs(edge),
                RelationPairs { full: view_pairs(full), delta: view_pairs(delta) },
                policies,
                result->Ok_0,
            )
        },
        result is Ok ==> full@.len() >= 2 && edge@.len() >= 2 && edge.rows() <= u32::MAX,
        inputs_fit(delta, edge, full, index) && round_fits(
            view_pairs(edge),
            RelationPairs { full: view_pairs(full), delta: view_pairs(delta) },
        ) ==> result is Ok,
{
    let plan = path_join();
    assert(plan.output@[0] == (JoinProjection { input: JoinInput::Left, column: 0 }));
    assert(plan.output@[1] == (JoinProjection { input: JoinInput::Right, column: 1 }));
    if indexes(index, edge, 0) && delta@.len() >= 2 && edge@.len() >= 2 && edge.rows()
        <= u32::MAX {
        lemma_view_join(delta, edge, plan, index, delta.rows() as int);
        assert(delta@[0].len() >= delta.rows());
        assert(full@.len() >= 2 ==> full@[0].len() >= full.rows());
        assert(view_pairs(delta).len() == delta.rows());
        assert(step_new(delta, edge, full, index, plan) == rounds::rule_new(
            plan,
            view_pairs(delta),
            view_pairs(edge),
            view_pairs(full),
        ));
    }
}

/// Known pairs with new ones are as many as both together.
pub proof fn lemma_with_new_length(full: Seq<Pair>, new: Seq<Pair>)
    requires
        pairs::pairs_ascending(full),
        pairs::pairs_ascending(new),
        forall|p: Pair| #[trigger] new.contains(p) ==> !full.contains(p),
    ensures
        rounds::with_new(full, new).len() == full.len() + new.len(),
        pairs::pairs_ascending(rounds::with_new(full, new)),
{
    let all = rounds::with_new(full, new);
    let both = full + new;
    rounds::law_distinct_list(both);
    lemma_no_repetition(full);
    lemma_no_repetition(new);
    lemma_no_repetition(all);
    assert(both.no_duplicates()) by {
        assert forall|i: int, j: int|
            0 <= i < both.len() && 0 <= j < both.len() && i != j implies both[i] != both[j] by {
            if i < full.len() && j >= full.len() {
                assert(new.contains(both[j]));
                assert(full.contains(both[i]));
            } else if j < full.len() && i >= full.len() {
                assert(new.contains(both[i]));
                assert(full.contains(both[j]));
            } else if i < full.len() {
                assert(full[i] != full[j]);
            } else {
                assert(new[i - full.len()] != new[j - full.len()]);
            }
        }
    }
    both.unique_seq_to_set();
    all.unique_seq_to_set();
    assert(all.to_set() =~= both.to_set()) by {
        assert forall|p: Pair| all.to_set().contains(p) <==> both.to_set().contains(p) by {
            assert(all.contains(p) <==> both.contains(p));
        }
    }
}

proof fn lemma_no_repetition(rows: Seq<Pair>)
    requires
        pairs::pairs_ascending(rows),
    ensures
        rows.no_duplicates(),
{
    assert forall|i: int, j: int|
        0 <= i < rows.len() && 0 <= j < rows.len() && i != j implies rows[i] != rows[j] by {
        if i < j {
            assert(pairs::pair_less(rows[i], rows[j]));
        } else {
            assert(pairs::pair_less(rows[j], rows[i]));
        }
    }
}

/// What a step over pairs in ascending order leaves is in ascending order, and counts up.
proof fn lemma_step_counts(
    delta: RelationView<'_>,
    edge: RelationView<'_>,
    full: RelationView<'_>,
    index: U32RangeIndex,
    policies: IterationPolicies,
    before: TransitiveClosureStep,
    after: TransitiveClosureStep,
    done: IterationResult,
)
    requires
        full.wf(),
        full@.len() >= 2,
        after.wf(),
        pairs::pairs_ascending(view_pairs(full)),
        is_step(
            delta,
            edge,
            full,
            index,
            path_join(),
            policies,
            before,
            after,
            Ok::<IterationResult, Error>(done),
        ),
    ensures
        pairs::pairs_ascending(after.full_buffer().pairs()),
        after.full_buffer().rows() == full.rows() + done.newt_rows,
        after.newt_buffer().rows() == done.newt_rows,
        done.full_rows == after.full_buffer().rows(),
{
    let joined = step_joined(delta, edge, index, path_join());
    let unique = rounds::distinct_list(joined);
    let new = step_new(delta, edge, full, index, path_join());
    rounds::law_distinct_list(joined);
    rounds::lemma_difference(unique, view_pairs(full), unique.len() as int);
    assert forall|p: Pair| #[trigger] new.contains(p) implies !view_pairs(full).contains(p) by {
        assert(pairs::difference(unique, view_pairs(full), 0, unique.len() as int).contains(p));
    }
    lemma_with_new_length(view_pairs(full), new);
    assert(full@[0].len() >= full.rows());
    assert(after.full_buffer().pairs().len() == after.full_buffer().rows());
    assert(after.newt_buffer().pairs().len() == after.newt_buffer().rows());
}

/// Runs rounds until one adds nothing. Two steps take turns: each reads what the other left.
pub struct FixpointDriver {
    first: TransitiveClosureStep,
    second: TransitiveClosureStep,
    final_slot: Option<StepSlot>,
}

impl FixpointDriver {
    pub closed spec fn wf(&self) -> bool {
        self.first.wf() && self.second.wf()
    }

    /// The paths that were known at the fixpoint, if the last run reached one.
    pub closed spec fn final_full(&self) -> Option<RelationBuffer> {
        match self.final_slot {
            Some(StepSlot::First) => Some(self.first.full_buffer()),
            Some(StepSlot::Second) => Some(self.second.full_buffer()),
            None => None,
        }
    }

    /// The step that takes the first round of a run.
    pub closed spec fn first_step(&self) -> TransitiveClosureStep {
        self.first
    }

    /// What the last round added, if the last run reached a fixpoint.
    pub closed spec fn final_newt(&self) -> Option<RelationBuffer> {
        match self.final_slot {
            Some(StepSlot::First) => Some(self.first.newt_buffer()),
            Some(StepSlot::Second) => Some(self.second.newt_buffer()),
            None => None,
        }
    }

    pub fn new() -> (result: Result<Self, storage::Error>)
        ensures
            result is Ok,
            result->Ok_0.wf(),
            result->Ok_0.final_full() is None,
            result->Ok_0.final_newt() is None,
    {
        let first = match TransitiveClosureStep::new() {
            Ok(first) => first,
            Err(error) => {
                return Err(error);
            },
        };
        match TransitiveClosureStep::new() {
            Ok(second) => Ok(FixpointDriver { first, second, final_slot: None }),
            Err(error) => Err(error),
        }
    }

    pub fn full(&self) -> (full: Option<&RelationBuffer>)
        ensures
            match full {
                Some(buffer) => self.final_full() == Some(*buffer),
                None => self.final_full() is None,
            },
    {
        match self.final_slot {
            Some(StepSlot::First) => Some(self.first.full()),
            Some(StepSlot::Second) => Some(self.second.full()),
            None => None,
        }
    }

    pub fn newt(&self) -> (newt: Option<&RelationBuffer>)
        ensures
            match newt {
                Some(buffer) => self.final_newt() == Some(*buffer),
                None => self.final_newt() is None,
            },
    {
        match self.final_slot {
            Some(StepSlot::First) => Some(self.first.newt()),
            Some(StepSlot::Second) => Some(self.second.newt()),
            None => None,
        }
    }

    /// The step of a slot.
    closed spec fn step_of(&self, slot: StepSlot) -> TransitiveClosureStep {
        match slot {
            StepSlot::First => self.first,
            StepSlot::Second => self.second,
        }
    }

    /// Runs one step on what the other left.
    fn next_step(
        &mut self,
        slot: StepSlot,
        edge: RelationView<'_>,
        edge_index: &U32RangeIndex,
        full_provenance: InputProvenance,
        policies: IterationPolicies,
    ) -> (result: Result<IterationResult, Error>)
        requires
            old(self).wf(),
            edge.wf(),
            edge_index.wf(),
            pairs::pairs_ascending(old(self).step_of(slot).full_buffer().pairs()),
        ensures
            final(self).wf(),
            final(self).final_slot == old(self).final_slot,
            ({
                let prior = old(self).step_of(slot);
                let next = final(self).step_of(other_slot(slot));
                &&& result is Ok && indexes(*edge_index, edge, 0) ==> {
                    let new = rounds::rule_new(
                        path_join(),
                        prior.newt_buffer().pairs(),
                        view_pairs(edge),
                        prior.full_buffer().pairs(),
                    );
                    &&& next.newt_buffer().pairs() == new
                    &&& next.full_buffer().pairs() == rounds::with_new(
                        prior.full_buffer().pairs(),
                        new,
                    )
                    &&& is_round_result(
                        view_pairs(edge),
                        RelationPairs {
                            full: prior.full_buffer().pairs(),
                            delta: prior.newt_buffer().pairs(),
                        },
                        policies,
                        result->Ok_0,
                    )
                }
                &&& result matches Ok(done) ==> {
                    &&& pairs::pairs_ascending(next.full_buffer().pairs())
                    &&& next.full_buffer().rows() == prior.full_buffer().rows() + done.newt_rows
                    &&& next.newt_buffer().rows() == done.newt_rows
                    &&& done.full_rows == next.full_buffer().rows()
                    &&& done.full_provenance == InputProvenance::Cpu
                }
                &&& edge@.len() >= 2 && edge.rows() <= u32::MAX && edge_index.count()
                    == edge.rows() && indexes(*edge_index, edge, 0) && round_fits(
                    view_pairs(edge),
                    RelationPairs {
                        full: prior.full_buffer().pairs(),
                        delta: prior.newt_buffer().pairs(),
                    },
                ) ==> result is Ok
            }),
    {
        let ghost prior = self.step_of(slot);
        let ghost reader = self.step_of(other_slot(slot));
        proof {
            prior.lemma_wf();
            lemma_ascending_is_sorted(prior.full_buffer().pairs());
        }
        match slot {
            StepSlot::First => {
                let delta = self.first.newt().view();
                let full = self.first.full().view();
                proof {
                    lemma_buffer_pairs(prior.newt_buffer(), delta);
                    lemma_buffer_pairs(prior.full_buffer(), full);
                }
                let result = self.second.execute(
                    delta,
                    edge,
                    full,
                    edge_index,
                    full_provenance,
                    policies,
                );
                proof {
                    lemma_step_is_round(
                        delta,
                        edge,
                        full,
                        *edge_index,
                        policies,
                        reader,
                        self.second,
                        result,
                    );
                    if let Ok(done) = result {
                        lemma_step_counts(
                            delta,
                            edge,
                            full,
                            *edge_index,
                            policies,
                            reader,
                            self.second,
                            done,
                        );
                    }
                }
                result
            },
            StepSlot::Second => {
                let delta = self.second.newt().view();
                let full = self.second.full().view();
                proof {
                    lemma_buffer_pairs(prior.newt_buffer(), delta);
                    lemma_buffer_pairs(prior.full_buffer(), full);
                }
                let result = self.first.execute(
                    delta,
                    edge,
                    full,
                    edge_index,
                    full_provenance,
                    policies,
                );
                proof {
                    lemma_step_is_round(
                        delta,
                        edge,
                        full,
                        *edge_index,
                        policies,
                        reader,
                        self.first,
                        result,
                    );
                    if let Ok(done) = result {
                        lemma_step_counts(
                            delta,
                            edge,
                            full,
                            *edge_index,
                            policies,
                            reader,
                            self.first,
                            done,
                        );
                    }
                }
                result
            },
        }
    }

    /// Extends paths by edges, round by round, until a round adds none.
    ///
    /// Fails if this takes more than `max_iterations` rounds, or if a round fails.
    pub fn run(
        &mut self,
        seed_delta: RelationView<'_>,
        edge: RelationView<'_>,
        seed_full: RelationView<'_>,
        edge_index: &U32RangeIndex,
        seed_full_provenance: InputProvenance,
        policies: IterationPolicies,
        max_iterations: usize,
    ) -> (result: Result<FixpointSummary, FixpointError>)
        requires
            old(self).wf(),
            seed_delta.wf(),
            edge.wf(),
            seed_full.wf(),
            edge_index.wf(),
            seed_full@.len() >= 2 ==> pairs::pairs_ascending(view_pairs(seed_full)),
        ensures
            final(self).wf(),
            result is Err ==> final(self).final_full() is None && final(self).final_newt() is None,
            max_iterations == 0 ==> result is Err && result->Err_0 == (
            FixpointError::IterationLimit {
                limit: 0,
                remaining_delta_rows: seed_delta.rows() as usize,
            }),
            result matches Ok(summary) ==> {
                &&& 1 <= summary.state.count() <= max_iterations
                &&& summary.state.newest() == 0
                &&& summary.full_provenance == InputProvenance::Cpu
                &&& final(self).final_full() is Some
                &&& final(self).final_newt() is Some
                &&& final(self).final_newt()->0.rows() == 0
                &&& summary.state.known() == final(self).final_full()->0.rows()
                &&& pairs::pairs_ascending(final(self).final_full()->0.pairs())
                &&& indexes(*edge_index, edge, 0) ==> {
                    let count = summary.state.count();
                    &&& is_last_round(seed_delta, edge, seed_full, count)
                    &&& final(self).final_full()->0.pairs() == path_rounds(
                        seed_delta,
                        edge,
                        seed_full,
                        count,
                    ).full
                    &&& is_round_result(
                        view_pairs(edge),
                        path_rounds(seed_delta, edge, seed_full, (count - 1) as nat),
                        policies,
                        summary.last_iteration,
                    )
                }
            },
            max_iterations > 0 ==> (result matches Err(
                FixpointError::IterationLimit { limit, remaining_delta_rows },
            ) ==> {
                &&& limit == max_iterations
                &&& remaining_delta_rows > 0
                &&& indexes(*edge_index, edge, 0) ==> {
                    &&& goes_on(seed_delta, edge, seed_full, max_iterations as nat)
                    &&& remaining_delta_rows == path_rounds(
                        seed_delta,
                        edge,
                        seed_full,
                        max_iterations as nat,
                    ).delta.len()
                }
            }),
            max_iterations > 0 ==> (step_problem(
                seed_delta,
                edge,
                seed_full,
                *edge_index,
                path_join(),
                policies,
                old(self).first_step(),
            ) matches Some(problem) ==> result matches Err(FixpointError::Execution(error))
                && error@ == problem),
            inputs_fit(seed_delta, edge, seed_full, *edge_index) && (forall|k: nat|
                k < max_iterations ==> round_fits(
                    view_pairs(edge),
                    #[trigger] path_rounds(seed_delta, edge, seed_full, k),
                )) ==> !(result matches Err(FixpointError::Execution(_))),
    {
        self.final_slot = None;
        if max_iterations == 0 {
            return Err(
                FixpointError::IterationLimit {
                    limit: 0,
                    remaining_delta_rows: seed_delta.len(),
                },
            );
        }
        let ghost reader = self.first;
        let ghost matches = indexes(*edge_index, edge, 0);
        let ghost fits = inputs_fit(seed_delta, edge, seed_full, *edge_index) && (forall|k: nat|
            k < max_iterations ==> round_fits(
                view_pairs(edge),
                #[trigger] path_rounds(seed_delta, edge, seed_full, k),
            ));
        proof {
            if seed_full@.len() >= 2 {
                lemma_ascending_is_sorted(view_pairs(seed_full));
            }
        }
        let first_result = self.first.execute(
            seed_delta,
            edge,
            seed_full,
            edge_index,
            seed_full_provenance,
            policies,
        );
        proof {
            lemma_step_is_round(
                seed_delta,
                edge,
                seed_full,
                *edge_index,
                policies,
                reader,
                self.first,
                first_result,
            );
            let start = path_rounds(seed_delta, edge, seed_full, 0);
            if fits {
                assert(round_fits(view_pairs(edge), start));
            }
            let once = path_rounds(seed_delta, edge, seed_full, 1);
            assert(rounds::closure_rounds(path_join(), view_pairs(edge), start, 0) == start);
        }
        let ghost first_problem = step_problem(
            seed_delta,
            edge,
            seed_full,
            *edge_index,
            path_join(),
            policies,
            reader,
        );
        assert(execution::fails_as(first_result, first_problem));
        let mut last_iteration = match first_result {
            Ok(done) => done,
            Err(error) => {
                return Err(FixpointError::Execution(error));
            },
        };
        proof {
            lemma_step_counts(
                seed_delta,
                edge,
                seed_full,
                *edge_index,
                policies,
                reader,
                self.first,
                last_iteration,
            );
        }
        let mut state = FixpointState::with_seed(seed_full.len(), seed_delta.len());
        state.advance(last_iteration.newt_rows);
        let mut slot = StepSlot::First;
        while !state.reached_fixpoint()
            invariant
                self.wf(),
                self.final_slot is None,
                first_problem == step_problem(
                    seed_delta,
                    edge,
                    seed_full,
                    *edge_index,
                    path_join(),
                    policies,
                    old(self).first_step(),
                ),
                first_problem is None,
                edge.wf(),
                edge_index.wf(),
                1 <= state.count() <= max_iterations,
                state.known() == self.step_of(slot).full_buffer().rows(),
                state.newest() == self.step_of(slot).newt_buffer().rows(),
                last_iteration.full_provenance == InputProvenance::Cpu,
                pairs::pairs_ascending(self.step_of(slot).full_buffer().pairs()),
                matches == indexes(*edge_index, edge, 0),
                matches ==> {
                    let now = path_rounds(seed_delta, edge, seed_full, state.count());
                    &&& self.step_of(slot).full_buffer().pairs() == now.full
                    &&& self.step_of(slot).newt_buffer().pairs() == now.delta
                    &&& goes_on(seed_delta, edge, seed_full, state.count())
                    &&& is_round_result(
                        view_pairs(edge),
                        path_rounds(seed_delta, edge, seed_full, (state.count() - 1) as nat),
                        policies,
                        last_iteration,
                    )
                },
                fits == (inputs_fit(seed_delta, edge, seed_full, *edge_index) && (forall|k: nat|
                    k < max_iterations ==> round_fits(
                        view_pairs(edge),
                        #[trigger] path_rounds(seed_delta, edge, seed_full, k),
                    ))),
            ensures
                state.newest() == 0,
            decreases max_iterations - state.count(),
        {
            proof {
                let pairs_now = self.step_of(slot).newt_buffer().pairs();
                assert(pairs_now.len() == state.newest());
            }
            if state.iterations() >= max_iterations {
                return Err(
                    FixpointError::IterationLimit {
                        limit: max_iterations,
                        remaining_delta_rows: state.delta_rows(),
                    },
                );
            }
            let ghost count = state.count();
            let ghost now = path_rounds(seed_delta, edge, seed_full, count);
            proof {
                if fits {
                    assert(round_fits(view_pairs(edge), now));
                    assert(now == (RelationPairs { full: now.full, delta: now.delta }));
                }
            }
            let outcome = self.next_step(
                slot,
                edge,
                edge_index,
                last_iteration.full_provenance,
                policies,
            );
            last_iteration =
            match outcome {
                Ok(done) => done,
                Err(error) => {
                    return Err(FixpointError::Execution(error));
                },
            };
            slot =
            match slot {
                StepSlot::First => StepSlot::Second,
                StepSlot::Second => StepSlot::First,
            };
            proof {
                if matches {
                    assert(goes_on(seed_delta, edge, seed_full, count + 1)) by {
                        assert forall|k: nat| 1 <= k < count + 1 implies (#[trigger] path_rounds(
                            seed_delta,
                            edge,
                            seed_full,
                            k,
                        )).delta.len() > 0 by {}
                    }
                }
            }
            state.advance(last_iteration.newt_rows);
        }
        proof {
            let newest = self.step_of(slot).newt_buffer().pairs();
            assert(newest.len() == 0);
        }
        self.final_slot = Some(slot);
        Ok(
            FixpointSummary {
                state,
                full_provenance: last_iteration.full_provenance,
                last_iteration,
            },
        )
    }
}

spec fn other_slot(slot: StepSlot) -> StepSlot {
    match slot {
        StepSlot::First => StepSlot::Second,
        StepSlot::Second => StepSlot::First,
    }
}

} // verus!
