//! Which operator of a fixpoint runs next, and where, for a caller that runs the operators.
use vstd::prelude::*;

use crate::placement::{
    AntiJoinPlacementContext, DistinctPlacementContext, InputProvenance, JoinPlacementContext,
    Placement, UnionPlacementContext,
};
use crate::recursion;
use crate::recursion::{
    combine_provenance, placement_provenance, FixpointError, FixpointState, FixpointSummary,
    IterationPlacements, IterationPolicies, IterationResult,
};

verus! {

/// An operator of a round, in the order in which they run.
#[derive(Debug, Clone, Copy, PartialEq, Eq, Structural)]
pub enum RoundOperator {
    Join,
    Distinct,
    AntiJoin,
    Union,
}

/// What a round asks for.
#[derive(Debug, Clone, Copy, PartialEq, Eq)]
pub enum RoundAction {
    Run { operator: RoundOperator, placement: Placement },
    Finished(IterationResult),
}

/// What a round starts from.
#[derive(Debug, Clone, Copy, PartialEq, Eq)]
pub struct RoundStart {
    pub policies: IterationPolicies,
    pub gpu_available: bool,
    pub delta_rows: usize,
    pub full_rows: usize,
    pub full_provenance: InputProvenance,
}

/// Where the join of a round runs.
pub open spec fn join_place(start: RoundStart) -> Placement {
    start.policies.join.placement(
        JoinPlacementContext {
            delta_rows: start.delta_rows,
            gpu_available: start.gpu_available,
        },
    )
}

/// Where repetitions are removed: what is read was written where the join ran.
pub open spec fn distinct_place(start: RoundStart, joined_rows: usize) -> Placement {
    start.policies.distinct.placement(
        DistinctPlacementContext {
            rows: joined_rows,
            input_provenance: recursion::provenance_of(join_place(start)),
            gpu_available: start.gpu_available,
        },
    )
}

/// Where what is known is subtracted.
pub open spec fn anti_join_place(
    start: RoundStart,
    joined_rows: usize,
    unique_rows: usize,
) -> Placement {
    start.policies.anti_join.placement(
        AntiJoinPlacementContext {
            left_rows: unique_rows,
            input_provenance: recursion::combined(
                recursion::provenance_of(distinct_place(start, joined_rows)),
                start.full_provenance,
            ),
            gpu_available: start.gpu_available,
        },
    )
}

/// Where what is new is united with what is known.
pub open spec fn union_place(
    start: RoundStart,
    joined_rows: usize,
    unique_rows: usize,
    new_rows: usize,
) -> Placement {
    start.policies.union.placement(
        UnionPlacementContext {
            left_rows: start.full_rows,
            right_rows: new_rows,
            input_provenance: recursion::combined(
                start.full_provenance,
                recursion::provenance_of(anti_join_place(start, joined_rows, unique_rows)),
            ),
            gpu_available: start.gpu_available,
        },
    )
}

/// What a round asks for, after operators that wrote some numbers of rows.
pub open spec fn round_action(start: RoundStart, outputs: Seq<usize>) -> RoundAction {
    if outputs.len() == 0 {
        RoundAction::Run { operator: RoundOperator::Join, placement: join_place(start) }
    } else if outputs.len() == 1 {
        RoundAction::Run {
            operator: RoundOperator::Distinct,
            placement: distinct_place(start, outputs[0]),
        }
    } else if outputs.len() == 2 {
        RoundAction::Run {
            operator: RoundOperator::AntiJoin,
            placement: anti_join_place(start, outputs[0], outputs[1]),
        }
    } else if outputs.len() == 3 {
        RoundAction::Run {
            operator: RoundOperator::Union,
            placement: union_place(start, outputs[0], outputs[1], outputs[2]),
        }
    } else {
        let union = union_place(start, outputs[0], outputs[1], outputs[2]);
        RoundAction::Finished(
            IterationResult {
                candidate_rows: outputs[0],
                distinct_candidate_rows: outputs[1],
                newt_rows: outputs[2],
                full_rows: outputs[3],
                full_provenance: recursion::provenance_of(union),
                placements: IterationPlacements {
                    join: join_place(start),
                    distinct: distinct_place(start, outputs[0]),
                    anti_join: anti_join_place(start, outputs[0], outputs[1]),
                    union,
                },
            },
        )
    }
}

/// A round that a caller runs, operator by operator.
pub struct RoundSteps {
    start: RoundStart,
    outputs: Vec<usize>,
}

impl RoundSteps {
    /// What the round started from.
    pub closed spec fn begun(&self) -> RoundStart {
        self.start
    }

    /// The rows that the operators wrote so far.
    pub closed spec fn written(&self) -> Seq<usize> {
        self.outputs@
    }

    pub fn new(start: RoundStart) -> (steps: Self)
        ensures
            steps.begun() == start,
            steps.written() == Seq::<usize>::empty(),
    {
        RoundSteps { start, outputs: Vec::new() }
    }

    /// What is to be done next.
    pub fn action(&self) -> (action: RoundAction)
        ensures
            action == round_action(self.begun(), self.written()),
    {
        let start = self.start;
        let done: usize = self.outputs.len();
        let join = start.policies.join.place(
            JoinPlacementContext {
                delta_rows: start.delta_rows,
                gpu_available: start.gpu_available,
            },
        );
        if done == 0 {
            return RoundAction::Run { operator: RoundOperator::Join, placement: join };
        }
        let distinct = start.policies.distinct.place(
            DistinctPlacementContext {
                rows: self.outputs[0],
                input_provenance: placement_provenance(join),
                gpu_available: start.gpu_available,
            },
        );
        if done == 1 {
            return RoundAction::Run { operator: RoundOperator::Distinct, placement: distinct };
        }
        let anti_join = start.policies.anti_join.place(
            AntiJoinPlacementContext {
                left_rows: self.outputs[1],
                input_provenance: combine_provenance(
                    placement_provenance(distinct),
                    start.full_provenance,
                ),
                gpu_available: start.gpu_available,
            },
        );
        if done == 2 {
            return RoundAction::Run { operator: RoundOperator::AntiJoin, placement: anti_join };
        }
        let union = start.policies.union.place(
            UnionPlacementContext {
                left_rows: start.full_rows,
                right_rows: self.outputs[2],
                input_provenance: combine_provenance(
                    start.full_provenance,
                    placement_provenance(anti_join),
                ),
                gpu_available: start.gpu_available,
            },
        );
        if done == 3 {
            return RoundAction::Run { operator: RoundOperator::Union, placement: union };
        }
        RoundAction::Finished(
            IterationResult {
                candidate_rows: self.outputs[0],
                distinct_candidate_rows: self.outputs[1],
                newt_rows: self.outputs[2],
                full_rows: self.outputs[3],
                full_provenance: placement_provenance(union),
                placements: IterationPlacements { join, distinct, anti_join, union },
            },
        )
    }

    /// Takes note of the rows that the operator asked for wrote. A finished round stays as it is.
    pub fn advance(&mut self, rows: usize)
        ensures
            final(self).begun() == old(self).begun(),
            final(self).written() == (if old(self).written().len() < 4 {
                old(self).written().push(rows)
            } else {
                old(self).written()
            }),
    {
        if self.outputs.len() < 4 {
            self.outputs.push(rows);
        }
    }
}

/// Without a device, and with what is known written by the processor, the operators of a round are
/// placed as the processor's own rounds place them.
pub proof fn law_steps_place_as_rounds(
    start: RoundStart,
    joined_rows: usize,
    unique_rows: usize,
    new_rows: usize,
)
    requires
        !start.gpu_available,
        start.full_provenance == InputProvenance::Cpu,
    ensures
        recursion::derive_placements(
            start.policies,
            start.delta_rows as nat,
            joined_rows as nat,
            unique_rows as nat,
        ) == (
            join_place(start),
            distinct_place(start, joined_rows),
            anti_join_place(start, joined_rows, unique_rows),
        ),
        recursion::update_placement(start.policies, start.full_rows as nat, new_rows as nat)
            == union_place(start, joined_rows, unique_rows, new_rows),
        recursion::provenance_of(union_place(start, joined_rows, unique_rows, new_rows))
            == InputProvenance::Cpu,
{
}

/// What a fixpoint asks for.
#[derive(Debug, Clone, Copy, PartialEq, Eq)]
pub enum FixpointAction {
    Run(RoundStart),
    Finished(FixpointSummary),
    Failed(FixpointError),
}

/// A fixpoint that a caller runs, round by round.
pub struct FixpointSteps {
    policies: IterationPolicies,
    gpu_available: bool,
    max_iterations: usize,
    full_provenance: InputProvenance,
    state: FixpointState,
    last: Option<IterationResult>,
}

/// A fixpoint between two rounds, seen as plain data.
pub struct FixpointStepsView {
    pub policies: IterationPolicies,
    pub gpu_available: bool,
    pub max_iterations: usize,
    pub full_provenance: InputProvenance,
    pub state: FixpointState,
    pub last: Option<IterationResult>,
}

impl View for FixpointSteps {
    type V = FixpointStepsView;

    closed spec fn view(&self) -> FixpointStepsView {
        FixpointStepsView {
            policies: self.policies,
            gpu_available: self.gpu_available,
            max_iterations: self.max_iterations,
            full_provenance: self.full_provenance,
            state: self.state,
            last: self.last,
        }
    }
}

/// The round that a fixpoint is to run next.
pub open spec fn next_round(steps: FixpointStepsView) -> RoundStart {
    RoundStart {
        policies: steps.policies,
        gpu_available: steps.gpu_available,
        delta_rows: steps.state.newest() as usize,
        full_rows: steps.state.known() as usize,
        full_provenance: steps.full_provenance,
    }
}

impl FixpointSteps {
    pub fn new(
        policies: IterationPolicies,
        gpu_available: bool,
        max_iterations: usize,
        full_rows: usize,
        delta_rows: usize,
        full_provenance: InputProvenance,
    ) -> (steps: Self)
        ensures
            steps@.policies == policies,
            steps@.gpu_available == gpu_available,
            steps@.max_iterations == max_iterations,
            steps@.full_provenance == full_provenance,
            steps@.state.known() == full_rows,
            steps@.state.newest() == delta_rows,
            steps@.state.count() == 0,
            steps@.last is None,
    {
        FixpointSteps {
            policies,
            gpu_available,
            max_iterations,
            full_provenance,
            state: FixpointState::with_seed(full_rows, delta_rows),
            last: None,
        }
    }

    /// What is to be done next: a round, unless the last one added nothing or the rounds are used
    /// up.
    pub fn action(&self) -> (action: FixpointAction)
        ensures
            self@.last is Some && self@.state.newest() == 0 ==> action == FixpointAction::Finished(
                FixpointSummary {
                    state: self@.state,
                    full_provenance: self@.full_provenance,
                    last_iteration: self@.last->0,
                },
            ),
            !(self@.last is Some && self@.state.newest() == 0) && self@.state.count()
                >= self@.max_iterations ==> action == FixpointAction::Failed(
                FixpointError::IterationLimit {
                    limit: self@.max_iterations,
                    remaining_delta_rows: self@.state.newest() as usize,
                },
            ),
            !(self@.last is Some && self@.state.newest() == 0) && self@.state.count()
                < self@.max_iterations ==> action == FixpointAction::Run(next_round(self@)),
    {
        if let Some(last_iteration) = self.last {
            if self.state.reached_fixpoint() {
                return FixpointAction::Finished(
                    FixpointSummary {
                        state: self.state,
                        full_provenance: self.full_provenance,
                        last_iteration,
                    },
                );
            }
        }
        if self.state.iterations() >= self.max_iterations {
            return FixpointAction::Failed(
                FixpointError::IterationLimit {
                    limit: self.max_iterations,
                    remaining_delta_rows: self.state.delta_rows(),
                },
            );
        }
        FixpointAction::Run(
            RoundStart {
                policies: self.policies,
                gpu_available: self.gpu_available,
                delta_rows: self.state.delta_rows(),
                full_rows: self.state.full_rows(),
                full_provenance: self.full_provenance,
            },
        )
    }

    /// Takes note of a round. Returns whether its rows can be counted; if not, nothing changes.
    pub fn advance(&mut self, result: IterationResult) -> (counted: bool)
        ensures
            counted == (old(self)@.state.known() + result.newt_rows <= usize::MAX && old(
                self,
            )@.state.count() < usize::MAX),
            !counted ==> final(self)@ == old(self)@,
            counted ==> {
                &&& final(self)@.policies == old(self)@.policies
                &&& final(self)@.gpu_available == old(self)@.gpu_available
                &&& final(self)@.max_iterations == old(self)@.max_iterations
                &&& final(self)@.full_provenance == result.full_provenance
                &&& final(self)@.state.known() == old(self)@.state.known() + result.newt_rows
                &&& final(self)@.state.newest() == result.newt_rows
                &&& final(self)@.state.count() == old(self)@.state.count() + 1
                &&& final(self)@.last == Some(result)
            },
    {
        if result.newt_rows > usize::MAX - self.state.full_rows() || self.state.iterations()
            == usize::MAX {
            return false;
        }
        self.state.advance(result.newt_rows);
        self.full_provenance = result.full_provenance;
        self.last = Some(result);
        true
    }
}

} // verus!
