//! Lowering of resolved programs to clause plans.
use vstd::prelude::*;

use crate::ast;
use crate::ast::{
    ResolvedAtom, ResolvedAtomView, ResolvedLiteralView, ResolvedProgram, ResolvedProgramView,
    ResolvedRule, ResolvedRuleView, ResolvedTerm, Span,
};
use crate::catalog::PredicateId;
use crate::evaluation;
use crate::execution_general;
use crate::graph;
use crate::relational;
use crate::relational::{
    BindingId, ClauseView, GeneralProgramPlan, GeneralSccPlan, GeneralStratumPlan, PlanTerm,
    PlannedAtom, PlannedAtomView, ProgramPlanView, RelationId, RelationVersion,
    RelationalClausePlan, SccPlanView, StratumPlanView,
};
use crate::schedule;
use crate::schedule::{
    contains_predicate, stratify, ProgramSchedule, ScheduledScc, ScheduledStratum, StratificationError,
};
use crate::statistics;
use crate::statistics::{optimize_general, PlanStatistics};

verus! {

/// A resolved program that cannot be turned into a plan.
#[derive(Debug, Clone, PartialEq, Eq)]
pub struct LoweringError {
    pub message: String,
    pub span: Span,
}

impl LoweringError {
    pub fn message(&self) -> (message: String)
        ensures
            message@ == self.message@,
    {
        self.message.clone()
    }
}

/// The relation of a predicate.
pub open spec fn relation_of(predicate: PredicateId) -> RelationId {
    RelationId(predicate.0)
}

/// The clause term of a rule term.
pub open spec fn plan_term_of(term: ResolvedTerm) -> PlanTerm {
    match term {
        ResolvedTerm::Variable(variable) => PlanTerm::Binding(BindingId(variable.0)),
        ResolvedTerm::Value(value) => PlanTerm::Value(value.0),
    }
}

pub open spec fn plan_terms_of(terms: Seq<ResolvedTerm>) -> Seq<PlanTerm> {
    Seq::new(terms.len(), |i: int| plan_term_of(terms[i]))
}

/// The clause atom of a rule atom.
pub open spec fn planned(atom: ResolvedAtomView, version: RelationVersion) -> PlannedAtomView {
    PlannedAtomView {
        relation: relation_of(atom.predicate),
        version,
        terms: plan_terms_of(atom.terms),
    }
}

/// The version that a body position reads.
pub open spec fn version_at(position: int, delta: Option<int>) -> RelationVersion {
    if delta == Some(position) {
        RelationVersion::Delta
    } else {
        RelationVersion::Full
    }
}

/// The positive or the negated atoms of a body, in order.
pub open spec fn body_atoms(
    body: Seq<ResolvedLiteralView>,
    negated: bool,
    delta: Option<int>,
) -> Seq<PlannedAtomView>
    decreases body.len(),
{
    if body.len() == 0 {
        Seq::empty()
    } else {
        let earlier = body_atoms(body.drop_last(), negated, delta);
        if body.last().negated == negated {
            earlier.push(planned(body.last().atom, version_at(body.len() - 1, delta)))
        } else {
            earlier
        }
    }
}

/// A rule as a clause, where at most one body position reads the newest tuples only.
pub open spec fn rule_clause(rule: ResolvedRuleView, delta: Option<int>) -> ClauseView {
    ClauseView {
        target: relation_of(rule.head.predicate),
        head: plan_terms_of(rule.head.terms),
        positive: body_atoms(rule.body, false, delta),
        negative: body_atoms(rule.body, true, delta),
        live_after: Seq::empty(),
    }
}

/// The positions of positive literals over a group of predicates.
pub open spec fn recursive_positions(
    body: Seq<ResolvedLiteralView>,
    group: Seq<PredicateId>,
) -> Seq<int>
    decreases body.len(),
{
    if body.len() == 0 {
        Seq::empty()
    } else {
        let earlier = recursive_positions(body.drop_last(), group);
        if !body.last().negated && group.contains(body.last().atom.predicate) {
            earlier.push(body.len() - 1)
        } else {
            earlier
        }
    }
}

/// Whether a rule derives a predicate of a group.
pub open spec fn derives_into(rule: ResolvedRuleView, group: Seq<PredicateId>) -> bool {
    rule.body.len() > 0 && group.contains(rule.head.predicate)
}

/// The clauses of rules that derive a group from outside it.
pub open spec fn seed_clauses(
    rules: Seq<ResolvedRuleView>,
    group: Seq<PredicateId>,
) -> Seq<ClauseView>
    decreases rules.len(),
{
    if rules.len() == 0 {
        Seq::empty()
    } else {
        let earlier = seed_clauses(rules.drop_last(), group);
        let rule = rules.last();
        if derives_into(rule, group) && recursive_positions(rule.body, group).len() == 0 {
            earlier.push(rule_clause(rule, None))
        } else {
            earlier
        }
    }
}

/// The clauses of one rule, one for each recursive position.
pub open spec fn rule_variants(rule: ResolvedRuleView, group: Seq<PredicateId>) -> Seq<ClauseView> {
    let positions = recursive_positions(rule.body, group);
    Seq::new(positions.len(), |i: int| rule_clause(rule, Some(positions[i])))
}

/// The clauses of rules that derive a group from itself.
pub open spec fn variant_clauses(
    rules: Seq<ResolvedRuleView>,
    group: Seq<PredicateId>,
) -> Seq<ClauseView>
    decreases rules.len(),
{
    if rules.len() == 0 {
        Seq::empty()
    } else {
        let earlier = variant_clauses(rules.drop_last(), group);
        let rule = rules.last();
        if derives_into(rule, group) {
            earlier + rule_variants(rule, group)
        } else {
            earlier
        }
    }
}

/// The relations of predicates, in order.
pub open spec fn relations_of(predicates: Seq<PredicateId>) -> Seq<RelationId> {
    Seq::new(predicates.len(), |i: int| relation_of(predicates[i]))
}

/// Whether a component plan evaluates a scheduled component.
pub open spec fn scc_lowered(
    program: ResolvedProgramView,
    scc: ScheduledScc,
    plan: SccPlanView,
    statistics: Seq<usize>,
) -> bool {
    &&& plan.relations == relations_of(scc.predicates@)
    &&& plan.recursive == scc.recursive
    &&& statistics::all_optimized(seed_clauses(program.rules, scc.predicates@), plan.seeds, statistics)
    &&& statistics::all_optimized(
        variant_clauses(program.rules, scc.predicates@),
        plan.recursive_variants,
        statistics,
    )
}

/// Whether stratum plans evaluate scheduled strata.
pub open spec fn strata_lowered(
    program: ResolvedProgramView,
    strata: Seq<ScheduledStratum>,
    plans: Seq<StratumPlanView>,
    statistics: Seq<usize>,
) -> bool {
    &&& plans.len() == strata.len()
    &&& forall|i: int|
        0 <= i < strata.len() ==> {
            &&& (#[trigger] plans[i]).index == strata[i].index
            &&& plans[i].sccs.len() == strata[i].sccs@.len()
        }
    &&& forall|i: int, j: int|
        #![trigger plans[i].sccs[j]]
        0 <= i < strata.len() && 0 <= j < strata[i].sccs@.len() ==> scc_lowered(
            program,
            strata[i].sccs@[j],
            plans[i].sccs[j],
            statistics,
        )
}

/// The value that a fact has at a position.
pub open spec fn value_of(term: ResolvedTerm) -> u32 {
    match term {
        ResolvedTerm::Value(value) => value.0,
        ResolvedTerm::Variable(_) => 0,
    }
}

/// Whether terms are all values.
pub open spec fn is_ground(terms: Seq<ResolvedTerm>) -> bool {
    forall|i: int| 0 <= i < terms.len() ==> (#[trigger] terms[i]) is Value
}

/// The facts among some rules, as tuples.
pub open spec fn fact_tuples(rules: Seq<ResolvedRuleView>) -> Seq<(RelationId, Seq<u32>)>
    decreases rules.len(),
{
    if rules.len() == 0 {
        Seq::empty()
    } else {
        let earlier = fact_tuples(rules.drop_last());
        let rule = rules.last();
        if rule.body.len() == 0 {
            earlier.push(
                (
                    relation_of(rule.head.predicate),
                    Seq::new(rule.head.terms.len(), |i: int| value_of(rule.head.terms[i])),
                ),
            )
        } else {
            earlier
        }
    }
}

/// Whether a rule is a fact with a variable.
pub open spec fn is_open_fact(rule: ResolvedRuleView) -> bool {
    rule.body.len() == 0 && !is_ground(rule.head.terms)
}

/// Whether rule `index` is the first fact with a variable.
pub open spec fn is_first_open_fact(rules: Seq<ResolvedRuleView>, index: int) -> bool {
    &&& 0 <= index < rules.len()
    &&& is_open_fact(rules[index])
    &&& forall|i: int| 0 <= i < index ==> !is_open_fact(#[trigger] rules[i])
}

/// Whether a predicate occurs anywhere in a program.
pub open spec fn occurs(program: ResolvedProgramView, predicate: PredicateId) -> bool {
    ||| exists|i: int|
        0 <= i < program.rules.len() && schedule::mentions(#[trigger] program.rules[i], predicate)
    ||| program.declarations.contains(predicate)
    ||| program.outputs.contains(predicate)
}

/// Whether a count is the least one above every predicate of a program.
pub open spec fn is_predicate_count(program: ResolvedProgramView, count: int) -> bool {
    &&& count >= 0
    &&& forall|p: PredicateId| #[trigger] occurs(program, p) ==> p.0 < count
    &&& count > 0 ==> exists|p: PredicateId| #[trigger] occurs(program, p) && p.0 == count - 1
}

/// Whether a plan evaluates a program.
pub open spec fn lowers(program: ResolvedProgramView, plan: ProgramPlanView) -> bool {
    &&& is_predicate_count(program, plan.predicate_count as int)
    &&& plan.facts == fact_tuples(program.rules)
    &&& plan.outputs == relations_of(program.outputs)
    &&& exists|schedule: ProgramSchedule| #[trigger]
        schedule::schedules(program, schedule) && strata_lowered(
            program,
            schedule.strata@,
            plan.strata,
            statistics::fact_rows(plan.facts, plan.predicate_count),
        )
}

/// Whether the head of a rule only uses variables of positive body literals, and every variable
/// can be counted.
pub open spec fn rule_safe(rule: ResolvedRuleView) -> bool {
    let clause = rule_clause(rule, None);
    &&& forall|b: u32| #[trigger] evaluation::uses(clause.head, b) ==> evaluation::bound_by(clause.positive, b)
    &&& evaluation::bindings_fit(clause.head)
    &&& forall|i: int|
        0 <= i < rule.body.len() ==> evaluation::bindings_fit(
            plan_terms_of((#[trigger] rule.body[i]).atom.terms),
        )
}

/// Whether every rule with a body is safe.
pub open spec fn program_safe(program: ResolvedProgramView) -> bool {
    forall|i: int|
        0 <= i < program.rules.len() && (#[trigger] program.rules[i]).body.len() > 0 ==> rule_safe(
            program.rules[i],
        )
}

/// Whether predicates can be counted in a `usize`.
pub open spec fn predicates_fit(program: ResolvedProgramView) -> bool {
    forall|p: PredicateId| #[trigger] occurs(program, p) ==> p.0 < usize::MAX
}

fn plan_term(term: ResolvedTerm) -> (r: PlanTerm)
    ensures
        r == plan_term_of(term),
{
    match term {
        ResolvedTerm::Variable(variable) => PlanTerm::Binding(BindingId(variable.0)),
        ResolvedTerm::Value(value) => PlanTerm::Value(value.0),
    }
}

fn plan_terms(terms: &Vec<ResolvedTerm>) -> (r: Vec<PlanTerm>)
    ensures
        r@ == plan_terms_of(terms@),
{
    let mut result: Vec<PlanTerm> = Vec::new();
    let mut i: usize = 0;
    while i < terms.len()
        invariant
            i <= terms@.len(),
            result@.len() == i,
            forall|j: int| 0 <= j < i ==> #[trigger] result@[j] == plan_term_of(terms@[j]),
        decreases terms@.len() - i,
    {
        result.push(plan_term(terms[i]));
        i += 1;
    }
    assert(result@ =~= plan_terms_of(terms@));
    result
}

fn planned_atom(atom: &ResolvedAtom, version: RelationVersion) -> (r: PlannedAtom)
    ensures
        r@ == planned(atom@, version),
{
    PlannedAtom { relation: relation_id(atom.predicate), version, terms: plan_terms(&atom.terms) }
}

pub(crate) fn relation_id(predicate: PredicateId) -> (r: RelationId)
    ensures
        r == relation_of(predicate),
{
    RelationId(predicate.0)
}

pub(crate) fn relation_ids(predicates: &Vec<PredicateId>) -> (r: Vec<RelationId>)
    ensures
        r@ == relations_of(predicates@),
{
    let mut result: Vec<RelationId> = Vec::new();
    let mut i: usize = 0;
    while i < predicates.len()
        invariant
            i <= predicates@.len(),
            result@.len() == i,
            forall|j: int| 0 <= j < i ==> #[trigger] result@[j] == relation_of(predicates@[j]),
        decreases predicates@.len() - i,
    {
        result.push(relation_id(predicates[i]));
        i += 1;
    }
    assert(result@ =~= relations_of(predicates@));
    result
}

/// A rule as a clause.
fn lower_clause(rule: &ResolvedRule, delta_position: Option<usize>) -> (clause: RelationalClausePlan)
    ensures
        clause@ == rule_clause(
            rule@,
            match delta_position {
                Some(position) => Some(position as int),
                None => None,
            },
        ),
{
    let ghost delta: Option<int> = match delta_position {
        Some(position) => Some(position as int),
        None => None,
    };
    let ghost body = rule@.body;
    let mut positive: Vec<PlannedAtom> = Vec::new();
    let mut negative: Vec<PlannedAtom> = Vec::new();
    let mut i: usize = 0;
    proof {
        assert(body.take(0) =~= Seq::empty());
        assert(ast::views(positive@) =~= Seq::<PlannedAtomView>::empty());
        assert(ast::views(negative@) =~= Seq::<PlannedAtomView>::empty());
    }
    while i < rule.body.len()
        invariant
            i <= rule.body@.len(),
            body == rule@.body,
            delta == match delta_position {
                Some(position) => Some(position as int),
                None => None,
            },
            ast::views(positive@) == body_atoms(body.take(i as int), false, delta),
            ast::views(negative@) == body_atoms(body.take(i as int), true, delta),
        decreases rule.body@.len() - i,
    {
        let literal = &rule.body[i];
        let is_delta = match delta_position {
            Some(position) => position == i,
            None => false,
        };
        let version = if is_delta {
            RelationVersion::Delta
        } else {
            RelationVersion::Full
        };
        let atom = planned_atom(&literal.atom, version);
        proof {
            assert(body[i as int] == literal@);
            assert(body.take(i + 1).drop_last() =~= body.take(i as int));
            assert(version == version_at(i as int, delta));
        }
        let ghost before_positive = ast::views(positive@);
        let ghost before_negative = ast::views(negative@);
        let ghost view = atom@;
        if literal.negated {
            negative.push(atom);
            assert(ast::views(negative@) =~= before_negative.push(view));
        } else {
            positive.push(atom);
            assert(ast::views(positive@) =~= before_positive.push(view));
        }
        i += 1;
    }
    assert(body.take(body.len() as int) =~= body);
    let clause = RelationalClausePlan {
        target: relation_id(rule.head.predicate),
        head: plan_terms(&rule.head.terms),
        positive,
        negative,
        live_after: Vec::new(),
    };
    assert(ast::views(clause.live_after@) =~= Seq::<Seq<BindingId>>::empty());
    clause
}

/// The clauses of a scheduled component, before they are optimized.
fn lower_scc(program: &ResolvedProgram, scc: &ScheduledScc) -> (plan: GeneralSccPlan)
    ensures
        plan@.relations == relations_of(scc.predicates@),
        plan@.recursive == scc.recursive,
        plan@.seeds == seed_clauses(program@.rules, scc.predicates@),
        plan@.recursive_variants == variant_clauses(program@.rules, scc.predicates@),
{
    let ghost group = scc.predicates@;
    let ghost rules = program@.rules;
    let mut seeds: Vec<RelationalClausePlan> = Vec::new();
    let mut recursive_variants: Vec<RelationalClausePlan> = Vec::new();
    let mut i: usize = 0;
    proof {
        assert(rules.take(0) =~= Seq::empty());
        assert(ast::views(seeds@) =~= Seq::<ClauseView>::empty());
        assert(ast::views(recursive_variants@) =~= Seq::<ClauseView>::empty());
    }
    while i < program.rules.len()
        invariant
            i <= program.rules@.len(),
            rules == program@.rules,
            group == scc.predicates@,
            ast::views(seeds@) == seed_clauses(rules.take(i as int), group),
            ast::views(recursive_variants@) == variant_clauses(rules.take(i as int), group),
        decreases program.rules@.len() - i,
    {
        let rule = &program.rules[i];
        proof {
            assert(rules[i as int] == rule@);
            assert(rules.take(i + 1).drop_last() =~= rules.take(i as int));
        }
        if !rule.is_fact() && contains_predicate(&scc.predicates, rule.head.predicate) {
            let ghost body = rule@.body;
            let ghost before = ast::views(recursive_variants@);
            let mut found: usize = 0;
            let mut j: usize = 0;
            proof {
                assert(body.take(0) =~= Seq::empty());
                assert(before =~= before + Seq::new(
                    0,
                    |m: int| rule_clause(rule@, Some(recursive_positions(body, group)[m])),
                ));
            }
            while j < rule.body.len()
                invariant
                    j <= rule.body@.len(),
                    body == rule@.body,
                    group == scc.predicates@,
                    found == recursive_positions(body.take(j as int), group).len(),
                    found <= j,
                    ast::views(recursive_variants@) == before + Seq::new(
                        recursive_positions(body.take(j as int), group).len(),
                        |m: int|
                            rule_clause(
                                rule@,
                                Some(recursive_positions(body.take(j as int), group)[m]),
                            ),
                    ),
                decreases rule.body@.len() - j,
            {
                let literal = &rule.body[j];
                let ghost current = ast::views(recursive_variants@);
                let ghost positions = recursive_positions(body.take(j as int), group);
                let ghost next = recursive_positions(body.take(j + 1), group);
                proof {
                    assert(body[j as int] == literal@);
                    assert(body.take(j + 1).drop_last() =~= body.take(j as int));
                }
                if !literal.negated && contains_predicate(
                    &scc.predicates,
                    literal.atom.predicate,
                ) {
                    let clause = lower_clause(rule, Some(j));
                    let ghost view = clause@;
                    recursive_variants.push(clause);
                    proof {
                        assert(next == positions.push(j as int));
                        assert(ast::views(recursive_variants@) =~= current.push(view));
                        assert(ast::views(recursive_variants@) =~= before + Seq::new(
                            next.len(),
                            |m: int| rule_clause(rule@, Some(next[m])),
                        ));
                    }
                    found += 1;
                } else {
                    assert(next == positions);
                }
                j += 1;
            }
            assert(body.take(body.len() as int) =~= body);
            if found == 0 {
                let ghost earlier = ast::views(seeds@);
                let clause = lower_clause(rule, None);
                let ghost view = clause@;
                seeds.push(clause);
                assert(ast::views(seeds@) =~= earlier.push(view));
            }
            assert(ast::views(recursive_variants@) =~= before + rule_variants(rule@, group));
        }
        i += 1;
    }
    assert(rules.take(rules.len() as int) =~= rules);
    GeneralSccPlan {
        relations: relation_ids(&scc.predicates),
        recursive: scc.recursive,
        seeds,
        recursive_variants,
    }
}

/// The least count above every predicate of a program.
pub(crate) fn predicate_count(program: &ResolvedProgram) -> (count: usize)
    requires
        predicates_fit(program@),
    ensures
        is_predicate_count(program@, count as int),
{
    let mut count: usize = 0;
    let mut i: usize = 0;
    while i < program.rules.len()
        invariant
            i <= program.rules@.len(),
            predicates_fit(program@),
            forall|k: int, p: PredicateId|
                0 <= k < i && #[trigger] schedule::mentions(program@.rules[k], p) ==> p.0 < count,
            count > 0 ==> exists|p: PredicateId| #[trigger]
                occurs(program@, p) && p.0 == count - 1,
        decreases program.rules@.len() - i,
    {
        let rule = &program.rules[i];
        assert(program@.rules[i as int] == rule@);
        let head: u32 = rule.head.predicate.0;
        assert(schedule::mentions(program@.rules[i as int], rule.head.predicate));
        assert(occurs(program@, rule.head.predicate));
        if count < head as usize + 1 {
            count = head as usize + 1;
        }
        let ghost floor = count;
        let mut j: usize = 0;
        while j < rule.body.len()
            invariant
                j <= rule.body@.len(),
                i < program.rules@.len(),
                predicates_fit(program@),
                program@.rules[i as int] == rule@,
                count >= floor,
                forall|k: int|
                    0 <= k < j ==> (#[trigger] rule@.body[k]).atom.predicate.0 < count,
                count > 0 ==> exists|p: PredicateId| #[trigger]
                    occurs(program@, p) && p.0 == count - 1,
            decreases rule.body@.len() - j,
        {
            let predicate = rule.body[j].atom.predicate;
            assert(rule@.body[j as int].atom.predicate == predicate);
            assert(schedule::mentions(program@.rules[i as int], predicate));
            assert(occurs(program@, predicate));
            if count < predicate.0 as usize + 1 {
                count = predicate.0 as usize + 1;
            }
            j += 1;
        }
        i += 1;
    }
    let ghost floor = count;
    let mut d: usize = 0;
    while d < program.declarations.len()
        invariant
            d <= program.declarations@.len(),
            predicates_fit(program@),
            count >= floor,
            forall|k: int| 0 <= k < d ==> (#[trigger] program@.declarations[k]).0 < count,
            count > 0 ==> exists|p: PredicateId| #[trigger]
                occurs(program@, p) && p.0 == count - 1,
        decreases program.declarations@.len() - d,
    {
        let predicate = program.declarations[d];
        assert(program@.declarations[d as int] == predicate);
        assert(occurs(program@, predicate));
        if count < predicate.0 as usize + 1 {
            count = predicate.0 as usize + 1;
        }
        d += 1;
    }
    let ghost second = count;
    let mut o: usize = 0;
    while o < program.outputs.len()
        invariant
            o <= program.outputs@.len(),
            predicates_fit(program@),
            count >= second,
            forall|k: int| 0 <= k < o ==> (#[trigger] program@.outputs[k]).0 < count,
            count > 0 ==> exists|p: PredicateId| #[trigger]
                occurs(program@, p) && p.0 == count - 1,
        decreases program.outputs@.len() - o,
    {
        let predicate = program.outputs[o];
        assert(program@.outputs[o as int] == predicate);
        assert(occurs(program@, predicate));
        if count < predicate.0 as usize + 1 {
            count = predicate.0 as usize + 1;
        }
        o += 1;
    }
    assert forall|p: PredicateId| #[trigger] occurs(program@, p) implies p.0 < count by {
        if program@.declarations.contains(p) {
            let k = choose|k: int|
                0 <= k < program@.declarations.len() && program@.declarations[k] == p;
            assert(program@.declarations[k].0 < second);
        }
        if program@.outputs.contains(p) {
            let k = choose|k: int| 0 <= k < program@.outputs.len() && program@.outputs[k] == p;
            assert(program@.outputs[k].0 < count);
        }
    }
    count
}

/// The tuple of a fact.
fn fact_values(rule: &ResolvedRule) -> (r: Result<Vec<u32>, LoweringError>)
    ensures
        r is Ok <==> is_ground(rule@.head.terms),
        r matches Ok(values) ==> values@ == Seq::new(
            rule@.head.terms.len(),
            |i: int| value_of(rule@.head.terms[i]),
        ),
        r matches Err(error) ==> error.message@ == "facts cannot contain variables"@
            && error.span == rule@.head.span,
{
    let mut values: Vec<u32> = Vec::new();
    let ghost terms = rule@.head.terms;
    let mut i: usize = 0;
    while i < rule.head.terms.len()
        invariant
            i <= rule.head.terms@.len(),
            terms == rule@.head.terms,
            values@.len() == i,
            forall|j: int|
                0 <= j < i ==> (#[trigger] terms[j]) is Value && values@[j] == value_of(terms[j]),
        decreases rule.head.terms@.len() - i,
    {
        match rule.head.terms[i] {
            ResolvedTerm::Value(value) => {
                values.push(value.0);
            },
            ResolvedTerm::Variable(_) => {
                assert(!(terms[i as int] is Value));
                return Err(
                    LoweringError {
                        message: "facts cannot contain variables".to_owned(),
                        span: rule.head.span,
                    },
                );
            },
        }
        i += 1;
    }
    assert(values@ =~= Seq::new(terms.len(), |i: int| value_of(terms[i])));
    Ok(values)
}

pub(crate) fn lower_facts(program: &ResolvedProgram) -> (r: Result<Vec<(RelationId, Vec<u32>)>, LoweringError>)
    ensures
        r is Err <==> exists|i: int|
            0 <= i < program@.rules.len() && is_open_fact(#[trigger] program@.rules[i]),
        r matches Ok(facts) ==> relational::fact_views(facts@) == fact_tuples(
            program@.rules,
        ),
        r matches Err(error) ==> error.message@ == "facts cannot contain variables"@ && exists|
            i: int,
        | #[trigger]
            is_first_open_fact(program@.rules, i) && error.span == program@.rules[i].head.span,
{
    let mut facts: Vec<(RelationId, Vec<u32>)> = Vec::new();
    let ghost rules = program@.rules;
    let mut i: usize = 0;
    proof {
        assert(rules.take(0) =~= Seq::empty());
        assert(relational::fact_views(facts@) =~= Seq::<(RelationId, Seq<u32>)>::empty());
    }
    while i < program.rules.len()
        invariant
            i <= program.rules@.len(),
            rules == program@.rules,
            relational::fact_views(facts@) == fact_tuples(rules.take(i as int)),
            forall|j: int| 0 <= j < i ==> !is_open_fact(#[trigger] rules[j]),
        decreases program.rules@.len() - i,
    {
        let rule = &program.rules[i];
        proof {
            assert(rules[i as int] == rule@);
            assert(rules.take(i + 1).drop_last() =~= rules.take(i as int));
        }
        if rule.is_fact() {
            let ghost before = relational::fact_views(facts@);
            match fact_values(rule) {
                Ok(values) => {
                    let ghost view = (relation_of(rule.head.predicate), values@);
                    facts.push((relation_id(rule.head.predicate), values));
                    assert(relational::fact_views(facts@) =~= before.push(view));
                },
                Err(error) => {
                    assert(is_open_fact(rules[i as int]));
                    assert(is_first_open_fact(rules, i as int));
                    return Err(error);
                },
            }
        }
        i += 1;
    }
    assert(rules.take(rules.len() as int) =~= rules);
    Ok(facts)
}

/// Turns a program into a plan: its facts, and the optimized clauses of its components.
///
/// Fails on a negative dependency inside a component, else on a fact with a variable.
pub fn lower_general(program: &ResolvedProgram) -> (result: Result<
    GeneralProgramPlan,
    LoweringError,
>)
    requires
        predicates_fit(program@),
    ensures
        result is Err <==> ((exists|i: int|
            0 <= i < schedule::program_dependencies(program@).len() && graph::closes_negative_cycle(
                schedule::program_dependencies(program@),
                i,
            )) || exists|i: int|
            0 <= i < program@.rules.len() && is_open_fact(#[trigger] program@.rules[i])),
        result matches Err(error) ==> if exists|i: int|
            0 <= i < schedule::program_dependencies(program@).len() && graph::closes_negative_cycle(
                schedule::program_dependencies(program@),
                i,
            ) {
            &&& error.span == (Span { start: 0, end: 0 })
            &&& exists|i: int| #[trigger]
                schedule::is_first_negative_cycle(schedule::program_dependencies(program@), i) && error.message@ == (
                StratificationError::NegativeCycle {
                    head: schedule::program_dependencies(program@)[i].head,
                    body: schedule::program_dependencies(program@)[i].body,
                }).text()
        } else {
            &&& error.message@ == "facts cannot contain variables"@
            &&& exists|i: int| #[trigger]
                is_first_open_fact(program@.rules, i) && error.span
                    == program@.rules[i].head.span
        },
        result matches Ok(plan) ==> lowers(program@, plan@),
        result matches Ok(plan) ==> (program_safe(program@) ==> execution_general::plan_valid(plan@)),
{
    let schedule = match stratify(program) {
        Ok(schedule) => schedule,
        Err(error) => {
            return Err(LoweringError { message: error.message(), span: Span::default() });
        },
    };
    let predicate_count: usize = predicate_count(program);
    let facts = match lower_facts(program) {
        Ok(facts) => facts,
        Err(error) => {
            return Err(error);
        },
    };
    let ghost scheduled = schedule.strata@;
    let mut strata: Vec<GeneralStratumPlan> = Vec::new();
    let mut i: usize = 0;
    while i < schedule.strata.len()
        invariant
            i <= schedule.strata@.len(),
            scheduled == schedule.strata@,
            strata@.len() == i,
            forall|j: int|
                0 <= j < i ==> {
                    &&& (#[trigger] strata@[j])@.index == scheduled[j].index
                    &&& strata@[j]@.sccs.len() == scheduled[j].sccs@.len()
                },
            forall|j: int, k: int|
                #![trigger strata@[j]@.sccs[k]]
                0 <= j < i && 0 <= k < scheduled[j].sccs@.len() ==> raw_scc(
                    program@,
                    scheduled[j].sccs@[k],
                    strata@[j]@.sccs[k],
                ),
        decreases schedule.strata@.len() - i,
    {
        let stratum = &schedule.strata[i];
        let mut sccs: Vec<GeneralSccPlan> = Vec::new();
        let mut k: usize = 0;
        while k < stratum.sccs.len()
            invariant
                k <= stratum.sccs@.len(),
                sccs@.len() == k,
                forall|m: int|
                    0 <= m < k ==> raw_scc(program@, stratum.sccs@[m], (#[trigger] sccs@[m])@),
            decreases stratum.sccs@.len() - k,
        {
            sccs.push(lower_scc(program, &stratum.sccs[k]));
            k += 1;
        }
        let ghost before = strata@;
        let plan = GeneralStratumPlan { index: stratum.index, sccs };
        let ghost view = plan@;
        strata.push(plan);
        proof {
            assert(forall|j: int| 0 <= j < i ==> #[trigger] strata@[j] == before[j]);
            assert(strata@[i as int]@ == view);
            assert forall|j: int, k: int|
                #![trigger strata@[j]@.sccs[k]]
                0 <= j < i + 1 && 0 <= k < scheduled[j].sccs@.len() implies raw_scc(
                program@,
                scheduled[j].sccs@[k],
                strata@[j]@.sccs[k],
            ) by {
                if j < i {
                    assert(strata@[j] == before[j]);
                    assert(raw_scc(program@, scheduled[j].sccs@[k], before[j]@.sccs[k]));
                } else {
                    assert(view.sccs[k] == sccs@[k]@);
                }
            }
        }
        i += 1;
    }
    let mut plan = GeneralProgramPlan {
        predicate_count,
        facts,
        strata,
        outputs: relation_ids(&program.outputs),
    };
    let ghost raw = plan@;
    proof {
        lemma_facts_counted(program@, program@.rules.len() as int);
        assert(program@.rules.take(program@.rules.len() as int) =~= program@.rules);
        assert forall|m: int| 0 <= m < raw.facts.len() implies (#[trigger] raw.facts[m]).0.0
            < plan.predicate_count by {
            assert(occurs(program@, PredicateId(raw.facts[m].0.0)));
        }
    }
    let statistics = PlanStatistics::from_plan(&plan);
    optimize_general(&mut plan, &statistics);
    proof {
        assert forall|j: int, k: int|
            #![trigger plan@.strata[j].sccs[k]]
            0 <= j < scheduled.len() && 0 <= k < scheduled[j].sccs@.len() implies scc_lowered(
            program@,
            scheduled[j].sccs@[k],
            plan@.strata[j].sccs[k],
            statistics@,
        ) by {
            assert(raw.strata[j] == strata@[j]@);
            assert(raw_scc(program@, scheduled[j].sccs@[k], strata@[j]@.sccs[k]));
            assert(statistics::stratum_optimized(
                raw.strata[j],
                plan@.strata[j],
                statistics@,
            ));
            assert(statistics::scc_optimized(
                raw.strata[j].sccs[k],
                plan@.strata[j].sccs[k],
                statistics@,
            ));
        }
        assert forall|j: int| 0 <= j < scheduled.len() implies {
            &&& (#[trigger] plan@.strata[j]).index == scheduled[j].index
            &&& plan@.strata[j].sccs.len() == scheduled[j].sccs@.len()
        } by {
            assert(raw.strata[j] == strata@[j]@);
            assert(statistics::stratum_optimized(
                raw.strata[j],
                plan@.strata[j],
                statistics@,
            ));
        }
        assert(strata_lowered(program@, scheduled, plan@.strata, statistics@));
        assert(lowers(program@, plan@));
        if program_safe(program@) {
            lemma_lowered_plan_valid(program@, schedule, plan@);
        }
    }
    Ok(plan)
}

/// Whether a component plan holds the clauses of a scheduled component as they are.
spec fn raw_scc(program: ResolvedProgramView, scc: ScheduledScc, plan: SccPlanView) -> bool {
    &&& plan.relations == relations_of(scc.predicates@)
    &&& plan.recursive == scc.recursive
    &&& plan.seeds == seed_clauses(program.rules, scc.predicates@)
    &&& plan.recursive_variants == variant_clauses(program.rules, scc.predicates@)
}

/// Facts belong to predicates that occur.
pub proof fn lemma_facts_counted(program: ResolvedProgramView, count: int)
    requires
        0 <= count <= program.rules.len(),
    ensures
        forall|m: int|
            0 <= m < fact_tuples(program.rules.take(count)).len() ==> occurs(
                program,
                PredicateId((#[trigger] fact_tuples(program.rules.take(count))[m]).0.0),
            ),
    decreases count,
{
    if count > 0 {
        lemma_facts_counted(program, count - 1);
        let taken = program.rules.take(count);
        assert(taken.drop_last() =~= program.rules.take(count - 1));
        let rule = program.rules[count - 1];
        assert(schedule::mentions(rule, rule.head.predicate));
        assert(schedule::mentions(program.rules[count - 1], rule.head.predicate));
        assert(occurs(program, rule.head.predicate));
        let earlier = fact_tuples(program.rules.take(count - 1));
        let all = fact_tuples(taken);
        assert forall|m: int| 0 <= m < all.len() implies occurs(
            program,
            PredicateId((#[trigger] all[m]).0.0),
        ) by {
            if m < earlier.len() {
                assert(all[m] == earlier[m]);
            } else {
                assert(all[m].0 == relation_of(rule.head.predicate));
                assert(PredicateId(all[m].0.0) == rule.head.predicate);
            }
        }
    }
}

/// The atoms of a body are exactly its literals of that sign.
pub proof fn lemma_body_atoms(
    body: Seq<ResolvedLiteralView>,
    negated: bool,
    delta: Option<int>,
    atom: PlannedAtomView,
)
    ensures
        body_atoms(body, negated, delta).contains(atom) <==> exists|j: int|
            0 <= j < body.len() && (#[trigger] body[j]).negated == negated && atom == planned(
                body[j].atom,
                version_at(j, delta),
            ),
    decreases body.len(),
{
    let atoms = body_atoms(body, negated, delta);
    if body.len() > 0 {
        let rest = body.drop_last();
        let earlier = body_atoms(rest, negated, delta);
        let last = body.len() - 1;
        lemma_body_atoms(rest, negated, delta, atom);
        if atoms.contains(atom) {
            let k = choose|k: int| 0 <= k < atoms.len() && atoms[k] == atom;
            if k < earlier.len() {
                assert(earlier[k] == atom);
                let j = choose|j: int|
                    0 <= j < rest.len() && (#[trigger] rest[j]).negated == negated && atom
                        == planned(rest[j].atom, version_at(j, delta));
                assert(body[j] == rest[j]);
            } else {
                assert(body[last].negated == negated);
            }
        }
        if exists|j: int|
            0 <= j < body.len() && (#[trigger] body[j]).negated == negated && atom == planned(
                body[j].atom,
                version_at(j, delta),
            ) {
            let j = choose|j: int|
                0 <= j < body.len() && (#[trigger] body[j]).negated == negated && atom == planned(
                    body[j].atom,
                    version_at(j, delta),
                );
            if j < last {
                assert(rest[j] == body[j]);
                let k = choose|k: int| 0 <= k < earlier.len() && earlier[k] == atom;
                assert(atoms[k] == atom);
            } else {
                assert(atoms[earlier.len() as int] == atom);
            }
        }
    } else {
        assert(!atoms.contains(atom));
    }
}

/// The recursive positions are exactly the positive literals over the group.
pub proof fn lemma_recursive_positions(
    body: Seq<ResolvedLiteralView>,
    group: Seq<PredicateId>,
    p: int,
)
    ensures
        recursive_positions(body, group).contains(p) <==> (0 <= p < body.len() && !body[p].negated
            && group.contains(body[p].atom.predicate)),
    decreases body.len(),
{
    let all = recursive_positions(body, group);
    if body.len() > 0 {
        let rest = body.drop_last();
        let earlier = recursive_positions(rest, group);
        lemma_recursive_positions(rest, group, p);
        if 0 <= p < rest.len() {
            assert(rest[p] == body[p]);
        }
        if all.contains(p) {
            let k = choose|k: int| 0 <= k < all.len() && all[k] == p;
            if k < earlier.len() {
                assert(earlier[k] == p);
            }
        }
        if earlier.contains(p) {
            let k = choose|k: int| 0 <= k < earlier.len() && earlier[k] == p;
            assert(all[k] == p);
        }
        if all.len() > earlier.len() {
            assert(all[earlier.len() as int] == body.len() - 1);
        }
    } else {
        assert(!all.contains(p));
    }
}

/// The rule that a seed clause comes from.
pub proof fn lemma_seed_rule(
    rules: Seq<ResolvedRuleView>,
    group: Seq<PredicateId>,
    c: int,
) -> (i: int)
    requires
        0 <= c < seed_clauses(rules, group).len(),
    ensures
        0 <= i < rules.len(),
        derives_into(rules[i], group),
        recursive_positions(rules[i].body, group).len() == 0,
        seed_clauses(rules, group)[c] == rule_clause(rules[i], None),
    decreases rules.len(),
{
    let rest = rules.drop_last();
    if c < seed_clauses(rest, group).len() {
        let i = lemma_seed_rule(rest, group, c);
        assert(rest[i] == rules[i]);
        i
    } else {
        rules.len() - 1
    }
}

/// The rule and the position that a recursive clause comes from.
pub proof fn lemma_variant_rule(
    rules: Seq<ResolvedRuleView>,
    group: Seq<PredicateId>,
    c: int,
) -> (r: (int, int))
    requires
        0 <= c < variant_clauses(rules, group).len(),
    ensures
        0 <= r.0 < rules.len(),
        derives_into(rules[r.0], group),
        recursive_positions(rules[r.0].body, group).contains(r.1),
        variant_clauses(rules, group)[c] == rule_clause(rules[r.0], Some(r.1)),
    decreases rules.len(),
{
    let rest = rules.drop_last();
    let earlier = variant_clauses(rest, group);
    if c < earlier.len() {
        let r = lemma_variant_rule(rest, group, c);
        assert(rest[r.0] == rules[r.0]);
        r
    } else {
        let positions = recursive_positions(rules.last().body, group);
        let p = positions[c - earlier.len()];
        assert(positions.contains(p));
        (rules.len() - 1, p)
    }
}

/// Every rule that derives a group from outside it has a seed clause.
pub proof fn lemma_rule_seed(
    rules: Seq<ResolvedRuleView>,
    group: Seq<PredicateId>,
    i: int,
) -> (c: int)
    requires
        0 <= i < rules.len(),
        derives_into(rules[i], group),
        recursive_positions(rules[i].body, group).len() == 0,
    ensures
        0 <= c < seed_clauses(rules, group).len(),
        seed_clauses(rules, group)[c] == rule_clause(rules[i], None),
    decreases rules.len(),
{
    let rest = rules.drop_last();
    if i < rest.len() {
        assert(rest[i] == rules[i]);
        lemma_rule_seed(rest, group, i)
    } else {
        seed_clauses(rest, group).len() as int
    }
}

/// Every recursive position of a rule has a clause.
pub proof fn lemma_rule_variant(
    rules: Seq<ResolvedRuleView>,
    group: Seq<PredicateId>,
    i: int,
    p: int,
) -> (c: int)
    requires
        0 <= i < rules.len(),
        derives_into(rules[i], group),
        recursive_positions(rules[i].body, group).contains(p),
    ensures
        0 <= c < variant_clauses(rules, group).len(),
        variant_clauses(rules, group)[c] == rule_clause(rules[i], Some(p)),
    decreases rules.len(),
{
    let rest = rules.drop_last();
    let earlier = variant_clauses(rest, group);
    if i < rest.len() {
        assert(rest[i] == rules[i]);
        lemma_rule_variant(rest, group, i, p)
    } else {
        let positions = recursive_positions(rules[i].body, group);
        let k = choose|k: int| 0 <= k < positions.len() && positions[k] == p;
        assert(variant_clauses(rules, group) == earlier + rule_variants(rules[i], group));
        earlier.len() + k
    }
}

proof fn lemma_optimized_clause_valid(
    program: ResolvedProgramView,
    count: int,
    i: int,
    delta: Option<int>,
    clause: ClauseView,
    statistics: Seq<usize>,
)
    requires
        is_predicate_count(program, count),
        0 <= i < program.rules.len(),
        rule_safe(program.rules[i]),
        statistics::is_optimized(rule_clause(program.rules[i], delta), clause, statistics),
    ensures
        evaluation::clause_valid(clause, count),
{
    let rule = program.rules[i];
    let raw = rule_clause(rule, delta);
    assert(schedule::mentions(program.rules[i], rule.head.predicate));
    assert(occurs(program, rule.head.predicate));
    statistics::lemma_join_order_permutes(raw.positive, Seq::empty(), statistics);
    assert(forall|atom: PlannedAtomView| !Seq::<PlannedAtomView>::empty().contains(atom));
    assert forall|k: int| 0 <= k < clause.positive.len() implies evaluation::atom_valid(
        #[trigger] clause.positive[k],
        count,
    ) && clause.positive[k].version != RelationVersion::Newt by {
        let atom = clause.positive[k];
        assert(clause.positive.contains(atom));
        assert(raw.positive.contains(atom));
        lemma_body_atoms(rule.body, false, delta, atom);
        let j = choose|j: int|
            0 <= j < rule.body.len() && (#[trigger] rule.body[j]).negated == false && atom
                == planned(rule.body[j].atom, version_at(j, delta));
        assert(schedule::mentions(program.rules[i], rule.body[j].atom.predicate));
        assert(occurs(program, rule.body[j].atom.predicate));
        assert(evaluation::bindings_fit(plan_terms_of(rule.body[j].atom.terms)));
    }
    assert forall|k: int| 0 <= k < clause.negative.len() implies evaluation::atom_valid(
        #[trigger] clause.negative[k],
        count,
    ) by {
        let atom = clause.negative[k];
        assert(raw.negative.contains(atom));
        lemma_body_atoms(rule.body, true, delta, atom);
        let j = choose|j: int|
            0 <= j < rule.body.len() && (#[trigger] rule.body[j]).negated == true && atom
                == planned(rule.body[j].atom, version_at(j, delta));
        assert(schedule::mentions(program.rules[i], rule.body[j].atom.predicate));
        assert(occurs(program, rule.body[j].atom.predicate));
        assert(evaluation::bindings_fit(plan_terms_of(rule.body[j].atom.terms)));
    }
    let full = rule_clause(rule, None);
    assert forall|b: u32| #[trigger] evaluation::uses(clause.head, b) implies evaluation::bound_by(clause.positive, b) by {
        assert(evaluation::uses(full.head, b));
        let k = choose|k: int|
            0 <= k < full.positive.len() && evaluation::uses((#[trigger] full.positive[k]).terms, b);
        let atom = full.positive[k];
        assert(full.positive.contains(atom));
        lemma_body_atoms(rule.body, false, None, atom);
        let j = choose|j: int|
            0 <= j < rule.body.len() && (#[trigger] rule.body[j]).negated == false && atom
                == planned(rule.body[j].atom, version_at(j, None));
        let own = planned(rule.body[j].atom, version_at(j, delta));
        lemma_body_atoms(rule.body, false, delta, own);
        assert(rule.body[j].negated == false);
        assert(raw.positive.contains(own));
        assert(clause.positive.contains(own));
        let m = choose|m: int| 0 <= m < clause.positive.len() && clause.positive[m] == own;
        assert(evaluation::uses(clause.positive[m].terms, b));
    }
}

/// The groups of a stratum are among those of the order.
pub proof fn lemma_at_level_member(
    deps: Seq<graph::Dependency>,
    order: Seq<Seq<PredicateId>>,
    level: nat,
    index: int,
) -> (k: int)
    requires
        0 <= index < schedule::at_level(deps, order, level).len(),
    ensures
        0 <= k < order.len(),
        schedule::at_level(deps, order, level)[index] == order[k],
        graph::is_level(deps, order[k][0], level),
    decreases order.len(),
{
    let rest = order.drop_last();
    if index < schedule::at_level(deps, rest, level).len() {
        let k = lemma_at_level_member(deps, rest, level, index);
        assert(rest[k] == order[k]);
        k
    } else {
        order.len() - 1
    }
}

/// A scheduled component is a component of the program.
pub proof fn lemma_scheduled_component(
    program: ResolvedProgramView,
    schedule: ProgramSchedule,
    i: int,
    j: int,
)
    requires
        schedule::schedules(program, schedule),
        0 <= i < schedule.strata@.len(),
        0 <= j < schedule.strata@[i].sccs@.len(),
    ensures
        schedule::is_component(
            program,
            schedule::program_dependencies(program),
            schedule.strata@[i].sccs@[j].predicates@,
        ),
{
    let deps = schedule::program_dependencies(program);
    let order = choose|order: Seq<Seq<PredicateId>>| #[trigger]
        schedule::is_evaluation_order(program, order) && schedule::follows_order(
            deps,
            order,
            schedule.strata@,
        );
    let stratum = schedule.strata@[i];
    assert(schedule::groups_of(stratum.sccs@)[j] == stratum.sccs@[j].predicates@);
    let k = lemma_at_level_member(deps, order, stratum.index as nat, j);
    assert(schedule::is_component(program, deps, order[k]));
}

proof fn lemma_lowered_plan_valid(
    program: ResolvedProgramView,
    schedule: ProgramSchedule,
    plan: ProgramPlanView,
)
    requires
        program_safe(program),
        is_predicate_count(program, plan.predicate_count as int),
        plan.facts == fact_tuples(program.rules),
        schedule::schedules(program, schedule),
        strata_lowered(
            program,
            schedule.strata@,
            plan.strata,
            statistics::fact_rows(plan.facts, plan.predicate_count),
        ),
    ensures
        execution_general::plan_valid(plan),
{
    let count = plan.predicate_count as int;
    let statistics = statistics::fact_rows(plan.facts, plan.predicate_count);
    lemma_facts_counted(program, program.rules.len() as int);
    assert(program.rules.take(program.rules.len() as int) =~= program.rules);
    assert forall|m: int| 0 <= m < plan.facts.len() implies (#[trigger] plan.facts[m]).0.0
        < plan.predicate_count by {
        assert(occurs(program, PredicateId(plan.facts[m].0.0)));
    }
    assert forall|i: int, j: int|
        #![trigger plan.strata[i].sccs[j]]
        0 <= i < plan.strata.len() && 0 <= j < plan.strata[i].sccs.len() implies execution_general::scc_valid(
        plan.strata[i].sccs[j],
        count,
    ) by {
        assert(plan.strata[i].sccs.len() == schedule.strata@[i].sccs@.len());
        let scc = schedule.strata@[i].sccs@[j];
        let group = scc.predicates@;
        let own = plan.strata[i].sccs[j];
        assert(scc_lowered(program, scc, own, statistics));
        lemma_scheduled_component(program, schedule, i, j);
        assert forall|k: int| 0 <= k < own.relations.len() implies (#[trigger] own.relations[k]).0
            < count by {
            assert(group.contains(group[k]));
            assert(schedule::is_active(program, group[k]));
            assert(occurs(program, group[k]));
        }
        assert(own.relations.no_duplicates());
        assert forall|c: int| 0 <= c < own.seeds.len() implies evaluation::clause_valid(
            #[trigger] own.seeds[c],
            count,
        ) by {
            let r = lemma_seed_rule(program.rules, group, c);
            assert(program.rules[r].body.len() > 0);
            lemma_optimized_clause_valid(program, count, r, None, own.seeds[c], statistics);
        }
        assert forall|c: int| 0 <= c < own.recursive_variants.len() implies {
            &&& evaluation::clause_valid(#[trigger] own.recursive_variants[c], count)
            &&& own.relations.contains(own.recursive_variants[c].target)
        } by {
            let (r, p) = lemma_variant_rule(program.rules, group, c);
            assert(program.rules[r].body.len() > 0);
            lemma_optimized_clause_valid(
                program,
                count,
                r,
                Some(p),
                own.recursive_variants[c],
                statistics,
            );
            let head = program.rules[r].head.predicate;
            let k = choose|k: int| 0 <= k < group.len() && group[k] == head;
            assert(own.relations[k] == relation_of(head));
        }
    }
}

} // verus!
