//! Lowering of programs over binary predicates to the binary operator pipeline.
use vstd::prelude::*;

use crate::ast;
use crate::ast::{
    ResolvedAtom, ResolvedAtomView, ResolvedLiteralView, ResolvedProgram, ResolvedProgramView,
    ResolvedRule, ResolvedRuleView, ResolvedTerm, Span, VariableId,
};
use crate::catalog::PredicateId;
use crate::executor;
use crate::general;
use crate::general::{lower_facts, predicate_count, relation_id, relation_ids, LoweringError};
use crate::graph;
use crate::recursion::{anti_join_plan, distinct_plan, union_plan};
use crate::relational;
use crate::relational::{
    BinaryEqualityJoin, JoinInput, JoinProjection, RecursiveRulePlan, RecursiveSccPlan, RelationId,
};
use crate::schedule;
use crate::schedule::{
    contains_predicate, stratify, ProgramSchedule, ScheduledScc, ScheduledStratum,
    StratificationError,
};

verus! {

/// Fills a relation, before its component is evaluated, with columns of another one.
#[derive(Debug, Clone, Copy, PartialEq, Eq)]
pub struct BinarySeedPlan {
    pub target: RelationId,
    pub source: RelationId,
    pub columns: [u32; 2],
}

#[derive(Debug, Clone, PartialEq, Eq)]
pub struct BinarySccPlan {
    pub plan: RecursiveSccPlan,
    pub seeds: Vec<BinarySeedPlan>,
}

/// A program over binary relations, ready for the binary operator pipeline.
#[derive(Debug, Clone, PartialEq, Eq)]
pub struct BinaryProgramPlan {
    pub predicate_count: usize,
    pub facts: Vec<(RelationId, [u32; 2])>,
    pub recursive_sccs: Vec<BinarySccPlan>,
    pub outputs: Vec<RelationId>,
}

/// Why a part of a program has no place in the pipeline, and where it stands.
#[verifier::ext_equal]
pub struct Refusal {
    pub message: Seq<char>,
    pub span: Span,
}

/// Whether an error reports a refusal.
pub open spec fn reports(error: LoweringError, refusal: Refusal) -> bool {
    error.message@ == refusal.message && error.span == refusal.span
}

/// A seed, seen as plain data.
#[verifier::ext_equal]
pub struct SeedView {
    pub target: RelationId,
    pub source: RelationId,
    pub columns: Seq<u32>,
}

impl View for BinarySeedPlan {
    type V = SeedView;

    open spec fn view(&self) -> SeedView {
        SeedView { target: self.target, source: self.source, columns: self.columns@ }
    }
}

/// What a recursive rule joins and keeps.
#[verifier::ext_equal]
pub struct RuleShape {
    pub target: RelationId,
    pub delta_input: RelationId,
    pub right_input: RelationId,
    pub left_key: u32,
    pub right_key: u32,
    pub output: Seq<JoinProjection>,
}

/// Whether a rule of the pipeline has a shape, and removes repetitions, subtracts and unites on its
/// two columns in order.
pub open spec fn has_shape(rule: RecursiveRulePlan, shape: RuleShape) -> bool {
    &&& rule.target == shape.target
    &&& rule.delta_input == shape.delta_input
    &&& rule.right_input == shape.right_input
    &&& rule.join.left_key == shape.left_key
    &&& rule.join.right_key == shape.right_key
    &&& rule.join.output@ == shape.output
    &&& executor::reads_in_order(rule)
}

/// The first column of a binary atom that holds a variable.
pub open spec fn variable_place(atom: ResolvedAtomView, variable: VariableId) -> Option<u32> {
    if atom.terms[0] == ResolvedTerm::Variable(variable) {
        Some(0)
    } else if atom.terms[1] == ResolvedTerm::Variable(variable) {
        Some(1)
    } else {
        None
    }
}

/// The source column that a head column of a seed takes.
pub open spec fn seed_column(
    head: ResolvedAtomView,
    source: ResolvedAtomView,
    output: int,
) -> Result<u32, Refusal> {
    match head.terms[output] {
        ResolvedTerm::Value(_) => Err(
            Refusal { message: "seed clause heads must project variables"@, span: head.span },
        ),
        ResolvedTerm::Variable(variable) => match variable_place(source, variable) {
            Some(column) => Ok(column),
            None => Err(
                Refusal { message: "head variable is absent from the seed atom"@, span: head.span },
            ),
        },
    }
}

/// The source columns that the head of a seed takes.
pub open spec fn seed_columns(head: ResolvedAtomView, source: ResolvedAtomView) -> Result<
    Seq<u32>,
    Refusal,
> {
    match seed_column(head, source, 0) {
        Err(refusal) => Err(refusal),
        Ok(first) => match seed_column(head, source, 1) {
            Err(refusal) => Err(refusal),
            Ok(second) => Ok(seq![first, second]),
        },
    }
}

/// The seed of a rule whose body has no predicate of its component.
pub open spec fn seed_of(rule: ResolvedRuleView) -> Result<SeedView, Refusal> {
    if rule.body.len() != 1 || rule.body[0].negated {
        Err(
            Refusal {
                message: "a seed clause must contain one positive atom"@,
                span: rule.span,
            },
        )
    } else {
        match seed_columns(rule.head, rule.body[0].atom) {
            Err(refusal) => Err(refusal),
            Ok(columns) => Ok(
                SeedView {
                    target: general::relation_of(rule.head.predicate),
                    source: general::relation_of(rule.body[0].atom.predicate),
                    columns,
                },
            ),
        }
    }
}

/// The pair of columns, if they hold the same term.
pub open spec fn shared_at(
    left: ResolvedAtomView,
    right: ResolvedAtomView,
    left_column: u32,
    right_column: u32,
) -> Seq<(u32, u32)> {
    if left.terms[left_column as int] == right.terms[right_column as int] {
        seq![(left_column, right_column)]
    } else {
        Seq::empty()
    }
}

/// The pairs of columns that hold the same term, in order.
pub open spec fn shared_columns(left: ResolvedAtomView, right: ResolvedAtomView) -> Seq<
    (u32, u32),
> {
    shared_at(left, right, 0, 0) + shared_at(left, right, 0, 1) + shared_at(left, right, 1, 0)
        + shared_at(left, right, 1, 1)
}

/// The columns on which two atoms join.
pub open spec fn join_key(left: ResolvedAtomView, right: ResolvedAtomView) -> Result<
    (u32, u32),
    Refusal,
> {
    let constant = "recursive joins do not yet support constants"@;
    if left.terms[0] is Value {
        Err(Refusal { message: constant, span: left.span })
    } else if right.terms[0] is Value || right.terms[1] is Value {
        Err(Refusal { message: constant, span: right.span })
    } else if left.terms[1] is Value {
        Err(Refusal { message: constant, span: left.span })
    } else if shared_columns(left, right).len() == 1 {
        Ok(shared_columns(left, right)[0])
    } else {
        Err(
            Refusal {
                message: "recursive atoms must share exactly one join variable"@,
                span: left.span.joined(right.span),
            },
        )
    }
}

/// What a head column of a recursive rule takes.
pub open spec fn head_column(
    head: ResolvedAtomView,
    left: ResolvedAtomView,
    right: ResolvedAtomView,
    output: int,
) -> Result<JoinProjection, Refusal> {
    match head.terms[output] {
        ResolvedTerm::Value(_) => Err(
            Refusal { message: "recursive rule heads must project variables"@, span: head.span },
        ),
        ResolvedTerm::Variable(variable) => match variable_place(left, variable) {
            Some(column) => Ok(JoinProjection { input: JoinInput::Left, column }),
            None => match variable_place(right, variable) {
                Some(column) => Ok(JoinProjection { input: JoinInput::Right, column }),
                None => Err(
                    Refusal {
                        message: "head variable is absent from the recursive body"@,
                        span: head.span,
                    },
                ),
            },
        },
    }
}

/// What the head of a recursive rule takes.
pub open spec fn head_columns(
    head: ResolvedAtomView,
    left: ResolvedAtomView,
    right: ResolvedAtomView,
) -> Result<Seq<JoinProjection>, Refusal> {
    match head_column(head, left, right, 0) {
        Err(refusal) => Err(refusal),
        Ok(first) => match head_column(head, left, right, 1) {
            Err(refusal) => Err(refusal),
            Ok(second) => Ok(seq![first, second]),
        },
    }
}

/// The shape of a rule with one body atom over its component.
pub open spec fn shape_of(rule: ResolvedRuleView, group: Seq<PredicateId>) -> Result<
    RuleShape,
    Refusal,
> {
    if rule.body.len() != 2 || rule.body[0].negated || rule.body[1].negated {
        Err(
            Refusal {
                message: "a recursive clause must contain two positive atoms"@,
                span: rule.span,
            },
        )
    } else {
        let place = if group.contains(rule.body[0].atom.predicate) {
            0int
        } else {
            1
        };
        let left = rule.body[place].atom;
        let right = rule.body[1 - place].atom;
        match join_key(left, right) {
            Err(refusal) => Err(refusal),
            Ok(key) => match head_columns(rule.head, left, right) {
                Err(refusal) => Err(refusal),
                Ok(output) => Ok(
                    RuleShape {
                        target: general::relation_of(rule.head.predicate),
                        delta_input: general::relation_of(left.predicate),
                        right_input: general::relation_of(right.predicate),
                        left_key: key.0,
                        right_key: key.1,
                        output,
                    },
                ),
            },
        }
    }
}

/// How many literals are over a group of predicates.
pub open spec fn recursive_count(body: Seq<ResolvedLiteralView>, group: Seq<PredicateId>) -> nat
    decreases body.len(),
{
    if body.len() == 0 {
        0
    } else {
        recursive_count(body.drop_last(), group) + if group.contains(body.last().atom.predicate) {
            1nat
        } else {
            0
        }
    }
}

/// The seeds and rules of a component.
#[verifier::ext_equal]
pub struct ComponentShape {
    pub seeds: Seq<SeedView>,
    pub rules: Seq<RuleShape>,
}

/// The seeds and rules of a component with those of one more rule.
pub open spec fn with_rule(
    shape: ComponentShape,
    rule: ResolvedRuleView,
    group: Seq<PredicateId>,
) -> Result<ComponentShape, Refusal> {
    let count = recursive_count(rule.body, group);
    if count == 0 {
        match seed_of(rule) {
            Err(refusal) => Err(refusal),
            Ok(seed) => Ok(ComponentShape { seeds: shape.seeds.push(seed), rules: shape.rules }),
        }
    } else if count == 1 {
        match shape_of(rule, group) {
            Err(refusal) => Err(refusal),
            Ok(found) => Ok(ComponentShape { seeds: shape.seeds, rules: shape.rules.push(found) }),
        }
    } else {
        Err(
            Refusal {
                message: "the initial executable subset permits one recursive body atom"@,
                span: rule.span,
            },
        )
    }
}

/// The seeds and rules that some rules give a component.
pub open spec fn component_shape(
    rules: Seq<ResolvedRuleView>,
    group: Seq<PredicateId>,
) -> Result<ComponentShape, Refusal>
    decreases rules.len(),
{
    if rules.len() == 0 {
        Ok(ComponentShape { seeds: Seq::empty(), rules: Seq::empty() })
    } else {
        match component_shape(rules.drop_last(), group) {
            Err(refusal) => Err(refusal),
            Ok(shape) => if general::derives_into(rules.last(), group) {
                with_rule(shape, rules.last(), group)
            } else {
                Ok(shape)
            },
        }
    }
}

/// Whether a component of the pipeline has a shape.
pub open spec fn component_has(
    plan: BinarySccPlan,
    group: Seq<PredicateId>,
    shape: ComponentShape,
) -> bool {
    &&& plan.plan.relations@ == general::relations_of(group)
    &&& ast::views(plan.seeds@) == shape.seeds
    &&& plan.plan.rules@.len() == shape.rules.len()
    &&& forall|i: int|
        0 <= i < shape.rules.len() ==> has_shape(#[trigger] plan.plan.rules@[i], shape.rules[i])
}

pub open spec fn is_binary(atom: ResolvedAtomView) -> bool {
    atom.terms.len() == 2
}

/// Whether the atoms of a rule are binary.
pub open spec fn rule_is_binary(rule: ResolvedRuleView) -> bool {
    &&& is_binary(rule.head)
    &&& forall|i: int| 0 <= i < rule.body.len() ==> is_binary((#[trigger] rule.body[i]).atom)
}

/// The first atom of a body, from a place on, that is not binary.
pub open spec fn first_wide_literal(body: Seq<ResolvedLiteralView>, from: int) -> Option<Span>
    decreases body.len() - from,
{
    if from < 0 || from >= body.len() {
        None
    } else if is_binary(body[from].atom) {
        first_wide_literal(body, from + 1)
    } else {
        Some(body[from].atom.span)
    }
}

/// The first atom, from a rule on, that is not binary.
pub open spec fn first_wide(rules: Seq<ResolvedRuleView>, from: int) -> Option<Span>
    decreases rules.len() - from,
{
    if from < 0 || from >= rules.len() {
        None
    } else if !is_binary(rules[from].head) {
        Some(rules[from].head.span)
    } else {
        match first_wide_literal(rules[from].body, 0) {
            Some(span) => Some(span),
            None => first_wide(rules, from + 1),
        }
    }
}

/// The predicates of the recursive components among some.
pub open spec fn recursive_sccs(sccs: Seq<ScheduledScc>) -> Seq<Seq<PredicateId>>
    decreases sccs.len(),
{
    if sccs.len() == 0 {
        Seq::empty()
    } else if sccs.last().recursive {
        recursive_sccs(sccs.drop_last()).push(sccs.last().predicates@)
    } else {
        recursive_sccs(sccs.drop_last())
    }
}

/// The predicates of the recursive components of some strata.
pub open spec fn recursive_groups(strata: Seq<ScheduledStratum>) -> Seq<Seq<PredicateId>>
    decreases strata.len(),
{
    if strata.len() == 0 {
        Seq::empty()
    } else {
        recursive_groups(strata.drop_last()) + recursive_sccs(strata.last().sccs@)
    }
}

pub open spec fn in_a_group(groups: Seq<Seq<PredicateId>>, predicate: PredicateId) -> bool {
    exists|i: int| 0 <= i < groups.len() && (#[trigger] groups[i]).contains(predicate)
}

/// The first rule, from one on, that derives a predicate outside the recursive components.
pub open spec fn first_outside(
    rules: Seq<ResolvedRuleView>,
    groups: Seq<Seq<PredicateId>>,
    from: int,
) -> Option<Span>
    decreases rules.len() - from,
{
    if from < 0 || from >= rules.len() {
        None
    } else if rules[from].body.len() > 0 && !in_a_group(groups, rules[from].head.predicate) {
        Some(rules[from].span)
    } else {
        first_outside(rules, groups, from + 1)
    }
}

/// The first fact, from a rule on, with a variable.
pub open spec fn first_open(rules: Seq<ResolvedRuleView>, from: int) -> Option<Span>
    decreases rules.len() - from,
{
    if from < 0 || from >= rules.len() {
        None
    } else if general::is_open_fact(rules[from]) {
        Some(rules[from].head.span)
    } else {
        first_open(rules, from + 1)
    }
}

/// The first refusal among the components from one on.
pub open spec fn first_refused(
    rules: Seq<ResolvedRuleView>,
    groups: Seq<Seq<PredicateId>>,
    from: int,
) -> Option<Refusal>
    decreases groups.len() - from,
{
    if from < 0 || from >= groups.len() {
        None
    } else {
        match component_shape(rules, groups[from]) {
            Err(refusal) => Some(refusal),
            Ok(_) => first_refused(rules, groups, from + 1),
        }
    }
}

/// Whether a seed rule reads a relation that no rule derives, through two different variables.
pub open spec fn is_plain_seed(rule: ResolvedRuleView, groups: Seq<Seq<PredicateId>>) -> bool {
    let source = rule.body[0].atom;
    &&& !in_a_group(groups, source.predicate)
    &&& source.terms[0] is Variable
    &&& source.terms[1] is Variable
    &&& source.terms[0] != source.terms[1]
}

/// The first seed rule, from a rule on, that selects rows or reads a derived relation.
pub open spec fn first_selective(
    rules: Seq<ResolvedRuleView>,
    groups: Seq<Seq<PredicateId>>,
    from: int,
) -> Option<Span>
    decreases rules.len() - from,
{
    if from < 0 || from >= rules.len() {
        None
    } else if rules[from].body.len() == 1 && !is_plain_seed(rules[from], groups) {
        Some(rules[from].span)
    } else {
        first_selective(rules, groups, from + 1)
    }
}

/// Why a program with given recursive components has no place in the pipeline, if so.
pub open spec fn refusal_of(
    program: ResolvedProgramView,
    groups: Seq<Seq<PredicateId>>,
) -> Option<Refusal> {
    match first_wide(program.rules, 0) {
        Some(span) => Some(
            Refusal {
                message: "the initial executable subset requires binary predicates"@,
                span,
            },
        ),
        None => match first_outside(program.rules, groups, 0) {
            Some(span) => Some(
                Refusal {
                    message: "the initial executable subset only derives recursive predicates"@,
                    span,
                },
            ),
            None => match first_refused(program.rules, groups, 0) {
                Some(refusal) => Some(refusal),
                None => match first_selective(program.rules, groups, 0) {
                    Some(span) => Some(
                        Refusal {
                            message: "a seed clause must read two variables of an underived predicate"@,
                            span,
                        },
                    ),
                    None => match first_open(program.rules, 0) {
                        Some(span) => Some(
                            Refusal { message: "facts cannot contain variables"@, span },
                        ),
                        None => None,
                    },
                },
            },
        },
    }
}

/// Whether facts of the pipeline are given ones.
pub open spec fn facts_are(
    facts: Seq<(RelationId, [u32; 2])>,
    tuples: Seq<(RelationId, Seq<u32>)>,
) -> bool {
    &&& facts.len() == tuples.len()
    &&& forall|i: int|
        0 <= i < facts.len() ==> (#[trigger] facts[i]).0 == tuples[i].0 && facts[i].1@
            == tuples[i].1
}

/// Whether a plan evaluates a program with given recursive components.
pub open spec fn lowers_binary(
    program: ResolvedProgramView,
    groups: Seq<Seq<PredicateId>>,
    plan: BinaryProgramPlan,
) -> bool {
    &&& general::is_predicate_count(program, plan.predicate_count as int)
    &&& facts_are(plan.facts@, general::fact_tuples(program.rules))
    &&& plan.outputs@ == general::relations_of(program.outputs)
    &&& plan.recursive_sccs@.len() == groups.len()
    &&& forall|i: int|
        0 <= i < groups.len() ==> component_has(
            #[trigger] plan.recursive_sccs@[i],
            groups[i],
            component_shape(program.rules, groups[i])->Ok_0,
        )
}

fn refused(span: Span, message: &str) -> (error: LoweringError)
    ensures
        error.message@ == message@,
        error.span == span,
{
    LoweringError { message: message.to_owned(), span }
}

fn variable_column(atom: &ResolvedAtom, variable: VariableId) -> (column: Option<u32>)
    requires
        is_binary(atom@),
    ensures
        column == variable_place(atom@, variable),
{
    match atom.terms[0] {
        ResolvedTerm::Variable(first) => {
            if first.0 == variable.0 {
                return Some(0);
            }
        },
        ResolvedTerm::Value(_) => {},
    }
    match atom.terms[1] {
        ResolvedTerm::Variable(second) => {
            if second.0 == variable.0 {
                return Some(1);
            }
        },
        ResolvedTerm::Value(_) => {},
    }
    None
}

fn projection_column(head: &ResolvedAtom, source: &ResolvedAtom, output: usize) -> (result: Result<
    u32,
    LoweringError,
>)
    requires
        is_binary(head@),
        is_binary(source@),
        output < 2,
    ensures
        match seed_column(head@, source@, output as int) {
            Ok(column) => result is Ok && result->Ok_0 == column,
            Err(refusal) => result is Err && reports(result->Err_0, refusal),
        },
{
    match head.terms[output] {
        ResolvedTerm::Variable(variable) => match variable_column(source, variable) {
            Some(column) => Ok(column),
            None => Err(refused(head.span, "head variable is absent from the seed atom")),
        },
        ResolvedTerm::Value(_) => Err(
            refused(head.span, "seed clause heads must project variables"),
        ),
    }
}

fn projection_columns(head: &ResolvedAtom, source: &ResolvedAtom) -> (result: Result<
    [u32; 2],
    LoweringError,
>)
    requires
        is_binary(head@),
        is_binary(source@),
    ensures
        match seed_columns(head@, source@) {
            Ok(columns) => result is Ok && result->Ok_0@ == columns,
            Err(refusal) => result is Err && reports(result->Err_0, refusal),
        },
{
    let first: u32 = match projection_column(head, source, 0) {
        Ok(first) => first,
        Err(error) => {
            return Err(error);
        },
    };
    let second: u32 = match projection_column(head, source, 1) {
        Ok(second) => second,
        Err(error) => {
            return Err(error);
        },
    };
    let columns = [first, second];
    assert(columns@ =~= seq![first, second]);
    Ok(columns)
}

fn lower_seed(rule: &ResolvedRule) -> (result: Result<BinarySeedPlan, LoweringError>)
    requires
        rule_is_binary(rule@),
    ensures
        match seed_of(rule@) {
            Ok(seed) => result is Ok && result->Ok_0@ == seed,
            Err(refusal) => result is Err && reports(result->Err_0, refusal),
        },
{
    if rule.body.len() != 1 || rule.body[0].negated {
        return Err(refused(rule.span, "a seed clause must contain one positive atom"));
    }
    let source = &rule.body[0].atom;
    assert(rule@.body[0].atom == source@);
    match projection_columns(&rule.head, source) {
        Ok(columns) => Ok(
            BinarySeedPlan {
                target: relation_id(rule.head.predicate),
                source: relation_id(source.predicate),
                columns,
            },
        ),
        Err(error) => Err(error),
    }
}

fn is_constant(term: ResolvedTerm) -> (constant: bool)
    ensures
        constant == (term is Value),
{
    match term {
        ResolvedTerm::Value(_) => true,
        ResolvedTerm::Variable(_) => false,
    }
}

fn same_term(a: ResolvedTerm, b: ResolvedTerm) -> (same: bool)
    ensures
        same == (a == b),
{
    match (a, b) {
        (ResolvedTerm::Value(x), ResolvedTerm::Value(y)) => x.0 == y.0,
        (ResolvedTerm::Variable(x), ResolvedTerm::Variable(y)) => x.0 == y.0,
        _ => false,
    }
}

fn note_shared(
    left: &ResolvedAtom,
    right: &ResolvedAtom,
    left_column: u32,
    right_column: u32,
    keys: &mut Vec<(u32, u32)>,
)
    requires
        is_binary(left@),
        is_binary(right@),
        left_column < 2,
        right_column < 2,
    ensures
        final(keys)@ == old(keys)@ + shared_at(left@, right@, left_column, right_column),
{
    if same_term(left.terms[left_column as usize], right.terms[right_column as usize]) {
        keys.push((left_column, right_column));
    }
    assert(keys@ =~= old(keys)@ + shared_at(left@, right@, left_column, right_column));
}

fn single_join_key(left: &ResolvedAtom, right: &ResolvedAtom) -> (result: Result<
    (u32, u32),
    LoweringError,
>)
    requires
        is_binary(left@),
        is_binary(right@),
    ensures
        match join_key(left@, right@) {
            Ok(key) => result is Ok && result->Ok_0 == key,
            Err(refusal) => result is Err && reports(result->Err_0, refusal),
        },
{
    let constant = "recursive joins do not yet support constants";
    if is_constant(left.terms[0]) {
        return Err(refused(left.span, constant));
    }
    if is_constant(right.terms[0]) || is_constant(right.terms[1]) {
        return Err(refused(right.span, constant));
    }
    if is_constant(left.terms[1]) {
        return Err(refused(left.span, constant));
    }
    let mut keys: Vec<(u32, u32)> = Vec::new();
    note_shared(left, right, 0, 0, &mut keys);
    note_shared(left, right, 0, 1, &mut keys);
    note_shared(left, right, 1, 0, &mut keys);
    note_shared(left, right, 1, 1, &mut keys);
    assert(keys@ =~= shared_columns(left@, right@));
    if keys.len() == 1 {
        Ok(keys[0])
    } else {
        Err(
            refused(
                left.span.join(right.span),
                "recursive atoms must share exactly one join variable",
            ),
        )
    }
}

fn head_projection_column(
    head: &ResolvedAtom,
    left: &ResolvedAtom,
    right: &ResolvedAtom,
    output: usize,
) -> (result: Result<JoinProjection, LoweringError>)
    requires
        is_binary(head@),
        is_binary(left@),
        is_binary(right@),
        output < 2,
    ensures
        match head_column(head@, left@, right@, output as int) {
            Ok(column) => result is Ok && result->Ok_0 == column,
            Err(refusal) => result is Err && reports(result->Err_0, refusal),
        },
{
    match head.terms[output] {
        ResolvedTerm::Variable(variable) => match variable_column(left, variable) {
            Some(column) => Ok(JoinProjection { input: JoinInput::Left, column }),
            None => match variable_column(right, variable) {
                Some(column) => Ok(JoinProjection { input: JoinInput::Right, column }),
                None => Err(
                    refused(head.span, "head variable is absent from the recursive body"),
                ),
            },
        },
        ResolvedTerm::Value(_) => Err(
            refused(head.span, "recursive rule heads must project variables"),
        ),
    }
}

fn head_projection(head: &ResolvedAtom, left: &ResolvedAtom, right: &ResolvedAtom) -> (result: Result<
    [JoinProjection; 2],
    LoweringError,
>)
    requires
        is_binary(head@),
        is_binary(left@),
        is_binary(right@),
    ensures
        match head_columns(head@, left@, right@) {
            Ok(columns) => result is Ok && result->Ok_0@ == columns,
            Err(refusal) => result is Err && reports(result->Err_0, refusal),
        },
{
    let first = match head_projection_column(head, left, right, 0) {
        Ok(first) => first,
        Err(error) => {
            return Err(error);
        },
    };
    let second = match head_projection_column(head, left, right, 1) {
        Ok(second) => second,
        Err(error) => {
            return Err(error);
        },
    };
    let columns = [first, second];
    assert(columns@ =~= seq![first, second]);
    Ok(columns)
}

fn lower_recursive_rule(rule: &ResolvedRule, group: &Vec<PredicateId>) -> (result: Result<
    RecursiveRulePlan,
    LoweringError,
>)
    requires
        rule_is_binary(rule@),
    ensures
        match shape_of(rule@, group@) {
            Ok(shape) => result is Ok && has_shape(result->Ok_0, shape),
            Err(refusal) => result is Err && reports(result->Err_0, refusal),
        },
{
    if rule.body.len() != 2 || rule.body[0].negated || rule.body[1].negated {
        return Err(refused(rule.span, "a recursive clause must contain two positive atoms"));
    }
    assert(rule@.body[0].atom == rule.body@[0].atom@);
    assert(rule@.body[1].atom == rule.body@[1].atom@);
    let place: usize = if contains_predicate(group, rule.body[0].atom.predicate) {
        0
    } else {
        1
    };
    let recursive = &rule.body[place].atom;
    let right = &rule.body[1 - place].atom;
    let (left_key, right_key) = match single_join_key(recursive, right) {
        Ok(key) => key,
        Err(error) => {
            return Err(error);
        },
    };
    let output = match head_projection(&rule.head, recursive, right) {
        Ok(output) => output,
        Err(error) => {
            return Err(error);
        },
    };
    Ok(
        RecursiveRulePlan {
            target: relation_id(rule.head.predicate),
            delta_input: relation_id(recursive.predicate),
            right_input: relation_id(right.predicate),
            join: BinaryEqualityJoin { left_key, right_key, output },
            distinct: distinct_plan(),
            anti_join: anti_join_plan(),
            union: union_plan(),
        },
    )
}

/// How many literals of a rule are over a group, with a count that stops at two.
fn count_recursive(rule: &ResolvedRule, group: &Vec<PredicateId>) -> (count: u32)
    ensures
        count == (if recursive_count(rule@.body, group@) <= 2 {
            recursive_count(rule@.body, group@)
        } else {
            2
        }),
{
    let ghost body = rule@.body;
    let mut count: u32 = 0;
    let mut i: usize = 0;
    assert(body.take(0) =~= Seq::<ResolvedLiteralView>::empty());
    while i < rule.body.len()
        invariant
            i <= rule.body@.len(),
            body == rule@.body,
            count == (if recursive_count(body.take(i as int), group@) <= 2 {
                recursive_count(body.take(i as int), group@)
            } else {
                2
            }),
        decreases rule.body@.len() - i,
    {
        proof {
            assert(body.take(i + 1).drop_last() =~= body.take(i as int));
            assert(body[i as int] == rule.body@[i as int]@);
        }
        if contains_predicate(group, rule.body[i].atom.predicate) && count < 2 {
            count += 1;
        }
        i += 1;
    }
    assert(body.take(body.len() as int) =~= body);
    count
}

/// A refusal of some first rules is one of all.
proof fn lemma_refused_early(rules: Seq<ResolvedRuleView>, group: Seq<PredicateId>, count: int)
    requires
        0 <= count <= rules.len(),
        component_shape(rules.take(count), group) is Err,
    ensures
        component_shape(rules, group) == component_shape(rules.take(count), group),
    decreases rules.len(),
{
    if count < rules.len() {
        let shorter = rules.drop_last();
        assert(shorter.take(count) =~= rules.take(count));
        lemma_refused_early(shorter, group, count);
    } else {
        assert(rules.take(count) =~= rules);
    }
}

fn lower_scc(program: &ResolvedProgram, group: &Vec<PredicateId>) -> (result: Result<
    BinarySccPlan,
    LoweringError,
>)
    requires
        forall|i: int|
            0 <= i < program@.rules.len() ==> rule_is_binary(#[trigger] program@.rules[i]),
    ensures
        match component_shape(program@.rules, group@) {
            Ok(shape) => result is Ok && component_has(result->Ok_0, group@, shape),
            Err(refusal) => result is Err && reports(result->Err_0, refusal),
        },
{
    let ghost rules = program@.rules;
    let mut seeds: Vec<BinarySeedPlan> = Vec::new();
    let mut plans: Vec<RecursiveRulePlan> = Vec::new();
    let mut i: usize = 0;
    proof {
        assert(rules.take(0) =~= Seq::<ResolvedRuleView>::empty());
        assert(ast::views(seeds@) =~= Seq::<SeedView>::empty());
    }
    while i < program.rules.len()
        invariant
            i <= program.rules@.len(),
            rules == program@.rules,
            forall|i: int| 0 <= i < rules.len() ==> rule_is_binary(#[trigger] rules[i]),
            component_shape(rules.take(i as int), group@) is Ok,
            ast::views(seeds@) == component_shape(rules.take(i as int), group@)->Ok_0.seeds,
            plans@.len() == component_shape(rules.take(i as int), group@)->Ok_0.rules.len(),
            forall|j: int|
                0 <= j < plans@.len() ==> has_shape(
                    #[trigger] plans@[j],
                    component_shape(rules.take(i as int), group@)->Ok_0.rules[j],
                ),
        decreases program.rules@.len() - i,
    {
        let rule = &program.rules[i];
        let ghost before = component_shape(rules.take(i as int), group@)->Ok_0;
        let ghost next = rules.take(i + 1);
        proof {
            assert(rules[i as int] == rule@);
            assert(next.drop_last() =~= rules.take(i as int));
            assert(next.last() == rule@);
            assert(rule_is_binary(rules[i as int]));
            if component_shape(next, group@) is Err {
                lemma_refused_early(rules, group@, i + 1);
            }
        }
        if !rule.is_fact() && contains_predicate(group, rule.head.predicate) {
            let count: u32 = count_recursive(rule, group);
            if count == 0 {
                let ghost earlier = seeds@;
                match lower_seed(rule) {
                    Ok(seed) => {
                        seeds.push(seed);
                        assert(ast::views(seeds@) =~= ast::views(earlier).push(seed@));
                    },
                    Err(error) => {
                        return Err(error);
                    },
                }
            } else if count == 1 {
                match lower_recursive_rule(rule, group) {
                    Ok(plan) => {
                        plans.push(plan);
                    },
                    Err(error) => {
                        return Err(error);
                    },
                }
            } else {
                return Err(
                    refused(
                        rule.span,
                        "the initial executable subset permits one recursive body atom",
                    ),
                );
            }
        }
        i += 1;
    }
    assert(rules.take(rules.len() as int) =~= rules);
    Ok(
        BinarySccPlan {
            plan: RecursiveSccPlan { relations: relation_ids(group), rules: plans },
            seeds,
        },
    )
}

fn validate_binary_arities(program: &ResolvedProgram) -> (result: Result<(), LoweringError>)
    ensures
        match first_wide(program@.rules, 0) {
            Some(span) => {
                &&& result is Err
                &&& result->Err_0.message@
                    == "the initial executable subset requires binary predicates"@
                &&& result->Err_0.span == span
            },
            None => {
                &&& result is Ok
                &&& forall|i: int|
                    0 <= i < program@.rules.len() ==> rule_is_binary(#[trigger] program@.rules[i])
            },
        },
{
    let ghost rules = program@.rules;
    let mut i: usize = 0;
    while i < program.rules.len()
        invariant
            i <= program.rules@.len(),
            rules == program@.rules,
            first_wide(rules, 0) == first_wide(rules, i as int),
            forall|j: int| 0 <= j < i ==> rule_is_binary(#[trigger] rules[j]),
        decreases program.rules@.len() - i,
    {
        let rule = &program.rules[i];
        assert(rules[i as int] == rule@);
        if rule.head.terms.len() != 2 {
            return Err(
                refused(
                    rule.head.span,
                    "the initial executable subset requires binary predicates",
                ),
            );
        }
        let mut k: usize = 0;
        while k < rule.body.len()
            invariant
                k <= rule.body@.len(),
                0 <= i < rules.len(),
                rules == program@.rules,
                rules[i as int] == rule@,
                is_binary(rule@.head),
                first_wide(rules, 0) == first_wide(rules, i as int),
                first_wide_literal(rule@.body, 0) == first_wide_literal(rule@.body, k as int),
                forall|j: int| 0 <= j < k ==> is_binary((#[trigger] rule@.body[j]).atom),
            decreases rule.body@.len() - k,
        {
            assert(rule@.body[k as int] == rule.body@[k as int]@);
            if rule.body[k].atom.terms.len() != 2 {
                return Err(
                    refused(
                        rule.body[k].atom.span,
                        "the initial executable subset requires binary predicates",
                    ),
                );
            }
            k += 1;
        }
        i += 1;
    }
    Ok(())
}

/// The predicates of the recursive components of a schedule, in order.
fn collect_groups(strata: &Vec<ScheduledStratum>) -> (groups: Vec<Vec<PredicateId>>)
    ensures
        ast::views(groups@) == recursive_groups(strata@),
{
    let mut groups: Vec<Vec<PredicateId>> = Vec::new();
    let mut i: usize = 0;
    proof {
        assert(strata@.take(0) =~= Seq::<ScheduledStratum>::empty());
        assert(ast::views(groups@) =~= Seq::<Seq<PredicateId>>::empty());
    }
    while i < strata.len()
        invariant
            i <= strata@.len(),
            ast::views(groups@) == recursive_groups(strata@.take(i as int)),
        decreases strata@.len() - i,
    {
        let sccs = &strata[i].sccs;
        let ghost before = ast::views(groups@);
        let mut k: usize = 0;
        proof {
            assert(sccs@.take(0) =~= Seq::<ScheduledScc>::empty());
            assert(before + recursive_sccs(sccs@.take(0)) =~= before);
        }
        while k < sccs.len()
            invariant
                k <= sccs@.len(),
                ast::views(groups@) == before + recursive_sccs(sccs@.take(k as int)),
            decreases sccs@.len() - k,
        {
            proof {
                assert(sccs@.take(k + 1).drop_last() =~= sccs@.take(k as int));
            }
            if sccs[k].recursive {
                let group = copy_group(&sccs[k].predicates);
                let ghost earlier = groups@;
                groups.push(group);
                proof {
                    assert(ast::views(groups@) =~= ast::views(earlier).push(sccs@[k as int].predicates@));
                    assert(ast::views(groups@) =~= before + recursive_sccs(sccs@.take(k + 1)));
                }
            }
            k += 1;
        }
        proof {
            assert(sccs@.take(sccs@.len() as int) =~= sccs@);
            assert(strata@.take(i + 1).drop_last() =~= strata@.take(i as int));
        }
        i += 1;
    }
    assert(strata@.take(strata@.len() as int) =~= strata@);
    groups
}

fn copy_group(group: &Vec<PredicateId>) -> (copy: Vec<PredicateId>)
    ensures
        copy@ == group@,
{
    let mut copy: Vec<PredicateId> = Vec::new();
    let mut i: usize = 0;
    while i < group.len()
        invariant
            i <= group@.len(),
            copy@ == group@.take(i as int),
        decreases group@.len() - i,
    {
        copy.push(group[i]);
        assert(copy@ =~= group@.take(i + 1));
        i += 1;
    }
    assert(copy@ =~= group@);
    copy
}

fn in_groups(groups: &Vec<Vec<PredicateId>>, predicate: PredicateId) -> (found: bool)
    ensures
        found == in_a_group(ast::views(groups@), predicate),
{
    let ghost all = ast::views(groups@);
    let mut i: usize = 0;
    while i < groups.len()
        invariant
            i <= groups@.len(),
            all == ast::views(groups@),
            forall|j: int| 0 <= j < i ==> !(#[trigger] all[j]).contains(predicate),
        decreases groups@.len() - i,
    {
        assert(all[i as int] == groups@[i as int]@);
        if contains_predicate(&groups[i], predicate) {
            return true;
        }
        i += 1;
    }
    false
}

fn validate_derived(program: &ResolvedProgram, groups: &Vec<Vec<PredicateId>>) -> (result: Result<
    (),
    LoweringError,
>)
    ensures
        match first_outside(program@.rules, ast::views(groups@), 0) {
            Some(span) => {
                &&& result is Err
                &&& result->Err_0.message@
                    == "the initial executable subset only derives recursive predicates"@
                &&& result->Err_0.span == span
            },
            None => result is Ok,
        },
{
    let ghost rules = program@.rules;
    let ghost all = ast::views(groups@);
    let mut i: usize = 0;
    while i < program.rules.len()
        invariant
            i <= program.rules@.len(),
            rules == program@.rules,
            all == ast::views(groups@),
            first_outside(rules, all, 0) == first_outside(rules, all, i as int),
        decreases program.rules@.len() - i,
    {
        let rule = &program.rules[i];
        assert(rules[i as int] == rule@);
        if !rule.is_fact() && !in_groups(groups, rule.head.predicate) {
            return Err(
                refused(
                    rule.span,
                    "the initial executable subset only derives recursive predicates",
                ),
            );
        }
        i += 1;
    }
    Ok(())
}

/// Checks that seeds copy whole columns of relations that no rule derives: a seed runs once, before
/// the first round, and does not compare values.
fn validate_seeds(program: &ResolvedProgram, groups: &Vec<Vec<PredicateId>>) -> (result: Result<
    (),
    LoweringError,
>)
    requires
        forall|i: int|
            0 <= i < program@.rules.len() ==> rule_is_binary(#[trigger] program@.rules[i]),
    ensures
        match first_selective(program@.rules, ast::views(groups@), 0) {
            Some(span) => {
                &&& result is Err
                &&& result->Err_0.message@
                    == "a seed clause must read two variables of an underived predicate"@
                &&& result->Err_0.span == span
            },
            None => result is Ok,
        },
{
    let ghost rules = program@.rules;
    let ghost all = ast::views(groups@);
    let mut i: usize = 0;
    while i < program.rules.len()
        invariant
            i <= program.rules@.len(),
            rules == program@.rules,
            all == ast::views(groups@),
            forall|j: int| 0 <= j < rules.len() ==> rule_is_binary(#[trigger] rules[j]),
            first_selective(rules, all, 0) == first_selective(rules, all, i as int),
        decreases program.rules@.len() - i,
    {
        let rule = &program.rules[i];
        assert(rules[i as int] == rule@);
        if rule.body.len() == 1 {
            let source = &rule.body[0].atom;
            assert(rule@.body[0].atom == source@);
            if in_groups(groups, source.predicate) || is_constant(source.terms[0]) || is_constant(
                source.terms[1],
            ) || same_term(source.terms[0], source.terms[1]) {
                return Err(
                    refused(
                        rule.span,
                        "a seed clause must read two variables of an underived predicate",
                    ),
                );
            }
        }
        i += 1;
    }
    Ok(())
}

/// A first fact with a variable is the one that the scan finds.
proof fn lemma_first_open(rules: Seq<ResolvedRuleView>, from: int, found: int)
    requires
        0 <= from <= found,
        general::is_first_open_fact(rules, found),
    ensures
        first_open(rules, from) == Some(rules[found].head.span),
    decreases found - from,
{
    if from < found {
        assert(!general::is_open_fact(rules[from]));
        lemma_first_open(rules, from + 1, found);
    }
}

proof fn lemma_no_open(rules: Seq<ResolvedRuleView>, from: int)
    requires
        0 <= from,
        forall|i: int| 0 <= i < rules.len() ==> !general::is_open_fact(#[trigger] rules[i]),
    ensures
        first_open(rules, from) is None,
    decreases rules.len() - from,
{
    if from < rules.len() {
        lemma_no_open(rules, from + 1);
    }
}

/// The facts of binary rules are pairs.
proof fn lemma_facts_are_pairs(rules: Seq<ResolvedRuleView>)
    requires
        forall|i: int| 0 <= i < rules.len() ==> rule_is_binary(#[trigger] rules[i]),
    ensures
        forall|i: int|
            0 <= i < general::fact_tuples(rules).len() ==> (#[trigger] general::fact_tuples(
                rules,
            )[i]).1.len() == 2,
    decreases rules.len(),
{
    if rules.len() > 0 {
        let shorter = rules.drop_last();
        assert forall|i: int| 0 <= i < shorter.len() implies rule_is_binary(#[trigger] shorter[i]) by {
            assert(rules[i] == shorter[i]);
        }
        lemma_facts_are_pairs(shorter);
        assert(rule_is_binary(rules[rules.len() - 1]));
        let earlier = general::fact_tuples(shorter);
        let all = general::fact_tuples(rules);
        assert forall|i: int| 0 <= i < all.len() implies (#[trigger] all[i]).1.len() == 2 by {
            if i < earlier.len() {
                assert(all[i] == earlier[i]);
            }
        }
    }
}

/// Turns a program over binary predicates, in which every derived predicate is recursive, into a
/// plan for the binary operator pipeline.
pub fn lower_binary(program: &ResolvedProgram) -> (result: Result<BinaryProgramPlan, LoweringError>)
    requires
        general::predicates_fit(program@),
    ensures
        (exists|i: int|
            0 <= i < schedule::program_dependencies(program@).len() && graph::closes_negative_cycle(
                schedule::program_dependencies(program@),
                i,
            )) ==> {
            &&& result is Err
            &&& result->Err_0.span == (Span { start: 0, end: 0 })
            &&& exists|i: int| #[trigger]
                schedule::is_first_negative_cycle(schedule::program_dependencies(program@), i)
                    && result->Err_0.message@ == (StratificationError::NegativeCycle {
                    head: schedule::program_dependencies(program@)[i].head,
                    body: schedule::program_dependencies(program@)[i].body,
                }).text()
        },
        !(exists|i: int|
            0 <= i < schedule::program_dependencies(program@).len() && graph::closes_negative_cycle(
                schedule::program_dependencies(program@),
                i,
            )) ==> exists|schedule: ProgramSchedule| #[trigger]
            schedule::schedules(program@, schedule) && ({
                let groups = recursive_groups(schedule.strata@);
                match refusal_of(program@, groups) {
                    Some(refusal) => result is Err && reports(result->Err_0, refusal),
                    None => result is Ok && lowers_binary(program@, groups, result->Ok_0),
                }
            }),
{
    let schedule = match stratify(program) {
        Ok(schedule) => schedule,
        Err(error) => {
            return Err(LoweringError { message: error.message(), span: Span::default() });
        },
    };
    let ghost all = recursive_groups(schedule.strata@);
    let ghost cyclic = exists|i: int|
        0 <= i < schedule::program_dependencies(program@).len() && graph::closes_negative_cycle(
            schedule::program_dependencies(program@),
            i,
        );
    match validate_binary_arities(program) {
        Ok(_) => {},
        Err(error) => {
            assert(schedule::schedules(program@, schedule));
            return Err(error);
        },
    }
    let groups = collect_groups(&schedule.strata);
    match validate_derived(program, &groups) {
        Ok(_) => {},
        Err(error) => {
            assert(schedule::schedules(program@, schedule));
            return Err(error);
        },
    }
    let ghost rules = program@.rules;
    let mut lowered: Vec<BinarySccPlan> = Vec::new();
    let mut i: usize = 0;
    while i < groups.len()
        invariant
            i <= groups@.len(),
            rules == program@.rules,
            all == ast::views(groups@),
            schedule::schedules(program@, schedule),
            !cyclic,
            cyclic == exists|i: int|
                0 <= i < schedule::program_dependencies(program@).len()
                    && graph::closes_negative_cycle(schedule::program_dependencies(program@), i),
            all == recursive_groups(schedule.strata@),
            first_wide(rules, 0) is None,
            first_outside(rules, all, 0) is None,
            first_refused(rules, all, 0) == first_refused(rules, all, i as int),
            forall|j: int| 0 <= j < rules.len() ==> rule_is_binary(#[trigger] rules[j]),
            lowered@.len() == i,
            forall|j: int|
                0 <= j < i ==> component_has(
                    #[trigger] lowered@[j],
                    all[j],
                    component_shape(rules, all[j])->Ok_0,
                ),
        decreases groups@.len() - i,
    {
        assert(all[i as int] == groups@[i as int]@);
        match lower_scc(program, &groups[i]) {
            Ok(plan) => {
                lowered.push(plan);
            },
            Err(error) => {
                assert(schedule::schedules(program@, schedule));
                return Err(error);
            },
        }
        i += 1;
    }
    match validate_seeds(program, &groups) {
        Ok(_) => {},
        Err(error) => {
            assert(schedule::schedules(program@, schedule));
            return Err(error);
        },
    }
    let tuples = match lower_facts(program) {
        Ok(tuples) => tuples,
        Err(error) => {
            proof {
                let found = choose|found: int| #[trigger]
                    general::is_first_open_fact(rules, found) && error.span
                        == rules[found].head.span;
                lemma_first_open(rules, 0, found);
                assert(schedule::schedules(program@, schedule));
            }
            return Err(error);
        },
    };
    proof {
        lemma_no_open(rules, 0);
        lemma_facts_are_pairs(rules);
    }
    let ghost views = relational::fact_views(tuples@);
    let mut facts: Vec<(RelationId, [u32; 2])> = Vec::new();
    let mut k: usize = 0;
    while k < tuples.len()
        invariant
            k <= tuples@.len(),
            views == relational::fact_views(tuples@),
            forall|j: int| 0 <= j < views.len() ==> (#[trigger] views[j]).1.len() == 2,
            facts@.len() == k,
            forall|j: int|
                0 <= j < k ==> (#[trigger] facts@[j]).0 == views[j].0 && facts@[j].1@
                    == views[j].1,
        decreases tuples@.len() - k,
    {
        assert(views[k as int].1 == tuples@[k as int].1@);
        let pair = [tuples[k].1[0], tuples[k].1[1]];
        assert(pair@ =~= views[k as int].1);
        facts.push((tuples[k].0, pair));
        k += 1;
    }
    assert(schedule::schedules(program@, schedule));
    Ok(
        BinaryProgramPlan {
            predicate_count: predicate_count(program),
            facts,
            recursive_sccs: lowered,
            outputs: relation_ids(&program.outputs),
        },
    )
}

} // verus!
