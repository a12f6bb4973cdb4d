//! Backend-neutral relational algebra: operators, clauses, and program plans.
use vstd::prelude::*;

use crate::ast;

verus! {

/// The semi-naive view of a logical relation consumed by an operator.
#[derive(Debug, Clone, Copy, PartialEq, Eq, Hash, Structural)]
pub enum RelationVersion {
    Full,
    Delta,
    Newt,
}

/// A relation of a program, numbered like its predicate.
#[derive(Debug, Clone, Copy, PartialEq, Eq, Hash, PartialOrd, Ord, Structural)]
pub struct RelationId(pub u32);

/// A variable slot of a clause.
#[derive(Debug, Clone, Copy, PartialEq, Eq, Hash, PartialOrd, Ord, Structural)]
pub struct BindingId(pub u32);

#[derive(Debug, Clone, Copy, PartialEq, Eq, Hash, Structural)]
pub struct ColumnRef {
    pub relation: u32,
    pub column: u32,
    pub version: RelationVersion,
}

#[derive(Debug, Clone, Copy, PartialEq, Eq, Hash, Structural)]
pub struct JoinKey {
    pub left: ColumnRef,
    pub right: ColumnRef,
}

#[derive(Debug, Clone, Copy, PartialEq, Eq, Hash, Structural)]
pub enum JoinInput {
    Left,
    Right,
}

#[derive(Debug, Clone, Copy, PartialEq, Eq, Hash, Structural)]
pub struct JoinProjection {
    pub input: JoinInput,
    pub column: u32,
}

/// A single-key equality join with a binary projected output.
#[derive(Debug, Clone, Copy, PartialEq, Eq, Hash)]
pub struct BinaryEqualityJoin {
    pub left_key: u32,
    pub right_key: u32,
    pub output: [JoinProjection; 2],
}

/// Sort and deduplicate a projected pair of `u32` columns.
#[derive(Debug, Clone, Copy, PartialEq, Eq, Hash)]
pub struct BinaryDistinct {
    pub columns: [u32; 2],
}

/// Set difference between two lexicographically sorted binary relations.
#[derive(Debug, Clone, Copy, PartialEq, Eq, Hash)]
pub struct SortedBinaryAntiJoin {
    pub left: [u32; 2],
    pub right: [u32; 2],
}

/// Set union of two lexicographically sorted binary relations.
#[derive(Debug, Clone, Copy, PartialEq, Eq, Hash)]
pub struct SortedBinaryUnion {
    pub left: [u32; 2],
    pub right: [u32; 2],
}

/// A comparison over one canonical `u32` column.
#[derive(Debug, Clone, Copy, PartialEq, Eq, Hash, Structural)]
pub enum U32Predicate {
    Eq(u32),
    Ne(u32),
    Lt(u32),
    Le(u32),
    Gt(u32),
    Ge(u32),
}

impl U32Predicate {
    /// Whether a value passes the comparison.
    pub open spec fn accepts(self, value: u32) -> bool {
        match self {
            U32Predicate::Eq(expected) => value == expected,
            U32Predicate::Ne(expected) => value != expected,
            U32Predicate::Lt(upper) => value < upper,
            U32Predicate::Le(upper) => value <= upper,
            U32Predicate::Gt(lower) => value > lower,
            U32Predicate::Ge(lower) => value >= lower,
        }
    }

    pub fn matches(self, value: u32) -> (r: bool)
        ensures
            r == self.accepts(value),
    {
        match self {
            U32Predicate::Eq(expected) => value == expected,
            U32Predicate::Ne(expected) => value != expected,
            U32Predicate::Lt(upper) => value < upper,
            U32Predicate::Le(upper) => value <= upper,
            U32Predicate::Gt(lower) => value > lower,
            U32Predicate::Ge(lower) => value >= lower,
        }
    }
}

/// A backend-neutral filter which produces compact row identifiers.
#[derive(Debug, Clone, Copy, PartialEq, Eq, Hash, Structural)]
pub struct Filter {
    pub column: ColumnRef,
    pub predicate: U32Predicate,
}

/// The operations that have a physical implementation or may get one.
#[derive(Debug, Clone, Copy, PartialEq, Eq, Hash, Structural)]
pub enum OperatorKind {
    Scan,
    Filter,
    Project,
    Join,
    AntiJoin,
    Union,
    Distinct,
    Sort,
    Reduce,
    Persist,
}

/// A term of a clause: a binding slot, or a value.
#[derive(Debug, Clone, Copy, PartialEq, Eq, Hash, Structural)]
pub enum PlanTerm {
    Binding(BindingId),
    Value(u32),
}

/// An atom of a clause, seen as plain data.
#[verifier::ext_equal]
pub struct PlannedAtomView {
    pub relation: RelationId,
    pub version: RelationVersion,
    pub terms: Seq<PlanTerm>,
}

#[derive(Debug, Clone, PartialEq, Eq)]
pub struct PlannedAtom {
    pub relation: RelationId,
    pub version: RelationVersion,
    pub terms: Vec<PlanTerm>,
}

impl View for PlannedAtom {
    type V = PlannedAtomView;

    open spec fn view(&self) -> PlannedAtomView {
        PlannedAtomView { relation: self.relation, version: self.version, terms: self.terms@ }
    }
}

/// A clause, seen as plain data.
#[verifier::ext_equal]
pub struct ClauseView {
    pub target: RelationId,
    pub head: Seq<PlanTerm>,
    pub positive: Seq<PlannedAtomView>,
    pub negative: Seq<PlannedAtomView>,
    pub live_after: Seq<Seq<BindingId>>,
}

/// One way to derive tuples of a relation: join the positive atoms, drop what a negative atom
/// matches, project the head. `live_after` lists the bindings still needed after each join.
#[derive(Debug, Clone, PartialEq, Eq)]
pub struct RelationalClausePlan {
    pub target: RelationId,
    pub head: Vec<PlanTerm>,
    pub positive: Vec<PlannedAtom>,
    pub negative: Vec<PlannedAtom>,
    pub live_after: Vec<Vec<BindingId>>,
}

impl View for RelationalClausePlan {
    type V = ClauseView;

    open spec fn view(&self) -> ClauseView {
        ClauseView {
            target: self.target,
            head: self.head@,
            positive: ast::views(self.positive@),
            negative: ast::views(self.negative@),
            live_after: ast::views(self.live_after@),
        }
    }
}

/// A component plan, seen as plain data.
#[verifier::ext_equal]
pub struct SccPlanView {
    pub relations: Seq<RelationId>,
    pub recursive: bool,
    pub seeds: Seq<ClauseView>,
    pub recursive_variants: Seq<ClauseView>,
}

/// The clauses of one strongly connected component. Each recursive rule has one variant for each
/// recursive atom, which reads that atom's newest tuples only.
#[derive(Debug, Clone, PartialEq, Eq)]
pub struct GeneralSccPlan {
    pub relations: Vec<RelationId>,
    pub recursive: bool,
    pub seeds: Vec<RelationalClausePlan>,
    pub recursive_variants: Vec<RelationalClausePlan>,
}

impl View for GeneralSccPlan {
    type V = SccPlanView;

    open spec fn view(&self) -> SccPlanView {
        SccPlanView {
            relations: self.relations@,
            recursive: self.recursive,
            seeds: ast::views(self.seeds@),
            recursive_variants: ast::views(self.recursive_variants@),
        }
    }
}

/// A stratum plan, seen as plain data.
#[verifier::ext_equal]
pub struct StratumPlanView {
    pub index: usize,
    pub sccs: Seq<SccPlanView>,
}

#[derive(Debug, Clone, PartialEq, Eq)]
pub struct GeneralStratumPlan {
    pub index: usize,
    pub sccs: Vec<GeneralSccPlan>,
}

impl View for GeneralStratumPlan {
    type V = StratumPlanView;

    open spec fn view(&self) -> StratumPlanView {
        StratumPlanView { index: self.index, sccs: ast::views(self.sccs@) }
    }
}

/// A program plan, seen as plain data.
#[verifier::ext_equal]
pub struct ProgramPlanView {
    pub predicate_count: usize,
    pub facts: Seq<(RelationId, Seq<u32>)>,
    pub strata: Seq<StratumPlanView>,
    pub outputs: Seq<RelationId>,
}

/// The facts of a plan with their tuples as sequences.
pub open spec fn fact_views(facts: Seq<(RelationId, Vec<u32>)>) -> Seq<(RelationId, Seq<u32>)> {
    Seq::new(facts.len(), |i: int| (facts[i].0, facts[i].1@))
}

/// A whole program, ready to be evaluated stratum by stratum.
#[derive(Debug, Clone, PartialEq, Eq)]
pub struct GeneralProgramPlan {
    pub predicate_count: usize,
    pub facts: Vec<(RelationId, Vec<u32>)>,
    pub strata: Vec<GeneralStratumPlan>,
    pub outputs: Vec<RelationId>,
}

impl View for GeneralProgramPlan {
    type V = ProgramPlanView;

    open spec fn view(&self) -> ProgramPlanView {
        ProgramPlanView {
            predicate_count: self.predicate_count,
            facts: fact_views(self.facts@),
            strata: ast::views(self.strata@),
            outputs: self.outputs@,
        }
    }
}

/// One recursive rule of the binary operator pipeline.
#[derive(Debug, Clone, Copy, PartialEq, Eq)]
pub struct RecursiveRulePlan {
    pub target: RelationId,
    pub delta_input: RelationId,
    pub right_input: RelationId,
    pub join: BinaryEqualityJoin,
    pub distinct: BinaryDistinct,
    pub anti_join: SortedBinaryAntiJoin,
    pub union: SortedBinaryUnion,
}

/// A recursive component of the binary operator pipeline.
#[derive(Debug, Clone, PartialEq, Eq)]
pub struct RecursiveSccPlan {
    pub relations: Vec<RelationId>,
    pub rules: Vec<RecursiveRulePlan>,
}

} // verus!
