//! What a program means, and that evaluation computes it.
use vstd::prelude::*;

use crate::ast::{ResolvedProgramView, ResolvedRuleView};
use crate::catalog::PredicateId;
use crate::evaluation;
use crate::evaluation::StoreView;
use crate::execution_general;
use crate::general;
use crate::graph::{Dependency, DependencyKind};
use crate::relational::{
    ClauseView, PlannedAtomView, ProgramPlanView, RelationId, SccPlanView, StratumPlanView,
};
use crate::schedule;
use crate::schedule::{ProgramSchedule, ScheduledStratum};
use crate::schedule_laws;
use crate::statistics;

verus! {

/// The tuple that a body literal denotes under an assignment of values to variables.
pub open spec fn literal_tuple(
    rule: ResolvedRuleView,
    j: int,
    v: spec_fn(u32) -> u32,
) -> Seq<u32> {
    evaluation::instance(general::plan_terms_of(rule.body[j].atom.terms), v)
}

/// The tuple that the head of a rule denotes under an assignment.
pub open spec fn head_tuple(rule: ResolvedRuleView, v: spec_fn(u32) -> u32) -> Seq<u32> {
    evaluation::instance(general::plan_terms_of(rule.head.terms), v)
}

/// Whether a positive body literal uses a variable.
pub open spec fn bound_in(rule: ResolvedRuleView, b: u32) -> bool {
    exists|j: int|
        0 <= j < rule.body.len() && !(#[trigger] rule.body[j]).negated && evaluation::uses(
            general::plan_terms_of(rule.body[j].atom.terms),
            b,
        )
}

/// Whether two assignments agree on the variables of positive body literals.
pub open spec fn agree_in(
    rule: ResolvedRuleView,
    v: spec_fn(u32) -> u32,
    w: spec_fn(u32) -> u32,
) -> bool {
    forall|b: u32| #[trigger] bound_in(rule, b) ==> v(b) == w(b)
}

/// Whether every positive body literal holds; literal `delta`, if any, among the newest tuples.
pub open spec fn positives_hold(
    rule: ResolvedRuleView,
    delta: Option<int>,
    store: StoreView,
    v: spec_fn(u32) -> u32,
) -> bool {
    forall|j: int|
        0 <= j < rule.body.len() && !(#[trigger] rule.body[j]).negated ==> (if delta == Some(j) {
            store.delta[rule.body[j].atom.predicate.0 as int]
        } else {
            store.full[rule.body[j].atom.predicate.0 as int]
        }).contains(literal_tuple(rule, j, v))
}

/// Whether a negated literal matches a tuple, where the positive literals fix what they bind.
pub open spec fn literal_matches(
    rule: ResolvedRuleView,
    j: int,
    store: StoreView,
    v: spec_fn(u32) -> u32,
) -> bool {
    exists|w: spec_fn(u32) -> u32| #[trigger]
        agree_in(rule, v, w) && store.full[rule.body[j].atom.predicate.0 as int].contains(
            literal_tuple(rule, j, w),
        )
}

/// Whether no negated body literal matches a tuple.
pub open spec fn negatives_hold(
    rule: ResolvedRuleView,
    store: StoreView,
    v: spec_fn(u32) -> u32,
) -> bool {
    forall|j: int|
        0 <= j < rule.body.len() && (#[trigger] rule.body[j]).negated ==> !literal_matches(
            rule,
            j,
            store,
            v,
        )
}

/// Whether a relation holds the head tuple of a rule.
pub open spec fn head_holds(
    rule: ResolvedRuleView,
    store: StoreView,
    v: spec_fn(u32) -> u32,
) -> bool {
    store.full[rule.head.predicate.0 as int].contains(head_tuple(rule, v))
}

/// Whether a store is closed under the rules of a program, where negation is read from another
/// store.
pub open spec fn closed_under(
    program: ResolvedProgramView,
    store: StoreView,
    negation: StoreView,
) -> bool {
    forall|i: int, v: spec_fn(u32) -> u32|
        0 <= i < program.rules.len() && program.rules[i].body.len() > 0 && #[trigger]
        positives_hold(program.rules[i], None, store, v) && negatives_hold(
            program.rules[i],
            negation,
            v,
        ) ==> head_holds(program.rules[i], store, v)
}

/// Whether a store holds the facts of a program.
pub open spec fn holds_facts(
    facts: Seq<(RelationId, Seq<u32>)>,
    store: StoreView,
) -> bool {
    forall|m: int|
        0 <= m < facts.len() ==> store.full[(#[trigger] facts[m]).0.0 as int].contains(facts[m].1)
}

/// Whether every relation of one store is part of that of another.
pub open spec fn included(small: StoreView, large: StoreView) -> bool {
    forall|r: int, t: Seq<u32>|
        0 <= r < small.full.len() && #[trigger] small.full[r].contains(t)
            ==> large.full[r].contains(t)
}

proof fn lemma_bound_agrees(rule: ResolvedRuleView, delta: Option<int>, b: u32)
    ensures
        evaluation::bound_by(general::rule_clause(rule, delta).positive, b) <==> bound_in(rule, b),
{
    let atoms = general::rule_clause(rule, delta).positive;
    if evaluation::bound_by(atoms, b) {
        let i = choose|i: int| 0 <= i < atoms.len() && evaluation::uses((#[trigger] atoms[i]).terms, b);
        assert(atoms.contains(atoms[i]));
        general::lemma_body_atoms(rule.body, false, delta, atoms[i]);
        let j = choose|j: int|
            0 <= j < rule.body.len() && (#[trigger] rule.body[j]).negated == false && atoms[i]
                == general::planned(rule.body[j].atom, general::version_at(j, delta));
        assert(!rule.body[j].negated);
    }
    if bound_in(rule, b) {
        let j = choose|j: int|
            0 <= j < rule.body.len() && !(#[trigger] rule.body[j]).negated && evaluation::uses(
                general::plan_terms_of(rule.body[j].atom.terms),
                b,
            );
        let atom = general::planned(rule.body[j].atom, general::version_at(j, delta));
        general::lemma_body_atoms(rule.body, false, delta, atom);
        assert(rule.body[j].negated == false);
        assert(atoms.contains(atom));
        let i = choose|i: int| 0 <= i < atoms.len() && atoms[i] == atom;
        assert(evaluation::uses(atoms[i].terms, b));
    }
}

/// The clause of a rule holds exactly where its literals do.
pub proof fn lemma_clause_is_rule(
    rule: ResolvedRuleView,
    delta: Option<int>,
    store: StoreView,
    v: spec_fn(u32) -> u32,
)
    requires
        delta matches Some(p) ==> 0 <= p < rule.body.len() && !rule.body[p].negated,
    ensures
        evaluation::clause_holds(general::rule_clause(rule, delta), store, v) <==> (positives_hold(
            rule,
            delta,
            store,
            v,
        ) && negatives_hold(rule, store, v)),
{
    let clause = general::rule_clause(rule, delta);
    let body = rule.body;
    assert(evaluation::joins(clause.positive, store, v) <==> positives_hold(rule, delta, store, v)) by {
        if evaluation::joins(clause.positive, store, v) {
            assert forall|j: int| 0 <= j < body.len() && !(#[trigger] body[j]).negated implies (
            if delta == Some(j) {
                store.delta[body[j].atom.predicate.0 as int]
            } else {
                store.full[body[j].atom.predicate.0 as int]
            }).contains(literal_tuple(rule, j, v)) by {
                let atom = general::planned(body[j].atom, general::version_at(j, delta));
                general::lemma_body_atoms(body, false, delta, atom);
                assert(body[j].negated == false);
                assert(clause.positive.contains(atom));
                let i = choose|i: int|
                    0 <= i < clause.positive.len() && clause.positive[i] == atom;
                assert(evaluation::rows_of(store, clause.positive[i]).contains(
                    evaluation::instance(clause.positive[i].terms, v),
                ));
            }
        }
        if positives_hold(rule, delta, store, v) {
            assert forall|i: int| 0 <= i < clause.positive.len() implies evaluation::rows_of(
                store,
                #[trigger] clause.positive[i],
            ).contains(evaluation::instance(clause.positive[i].terms, v)) by {
                let atom = clause.positive[i];
                assert(clause.positive.contains(atom));
                general::lemma_body_atoms(body, false, delta, atom);
                let j = choose|j: int|
                    0 <= j < body.len() && (#[trigger] body[j]).negated == false && atom
                        == general::planned(body[j].atom, general::version_at(j, delta));
                assert(!body[j].negated);
                assert(evaluation::instance(atom.terms, v) == literal_tuple(rule, j, v));
            }
        }
    }
    assert forall|w: spec_fn(u32) -> u32| #[trigger] evaluation::agree_on(clause.positive, v, w) <==> agree_in(
        rule,
        v,
        w,
    ) by {
        assert forall|b: u32| #[trigger] evaluation::bound_by(clause.positive, b) <==> bound_in(rule, b) by {
            lemma_bound_agrees(rule, delta, b);
        }
        if evaluation::agree_on(clause.positive, v, w) {
            assert forall|b: u32| #[trigger] bound_in(rule, b) implies v(b) == w(b) by {
                assert(evaluation::bound_by(clause.positive, b));
            }
        }
    }
    let open = forall|j: int|
        0 <= j < clause.negative.len() ==> !evaluation::blocked(
            #[trigger] clause.negative[j],
            clause.positive,
            store,
            v,
        );
    if open {
        assert forall|j: int| 0 <= j < body.len() && (
        #[trigger] body[j]).negated implies !literal_matches(rule, j, store, v) by {
            let atom = general::planned(body[j].atom, general::version_at(j, delta));
            general::lemma_body_atoms(body, true, delta, atom);
            assert(body[j].negated == true);
            assert(clause.negative.contains(atom));
            let i = choose|i: int| 0 <= i < clause.negative.len() && clause.negative[i] == atom;
            assert(!evaluation::blocked(clause.negative[i], clause.positive, store, v));
            if literal_matches(rule, j, store, v) {
                let w = choose|w: spec_fn(u32) -> u32| #[trigger]
                    agree_in(rule, v, w) && store.full[body[j].atom.predicate.0 as int].contains(
                        literal_tuple(rule, j, w),
                    );
                assert(evaluation::agree_on(clause.positive, v, w));
            }
        }
    }
    if negatives_hold(rule, store, v) {
        assert forall|i: int| 0 <= i < clause.negative.len() implies !evaluation::blocked(
            #[trigger] clause.negative[i],
            clause.positive,
            store,
            v,
        ) by {
            let atom = clause.negative[i];
            assert(clause.negative.contains(atom));
            general::lemma_body_atoms(body, true, delta, atom);
            let j = choose|j: int|
                0 <= j < body.len() && (#[trigger] body[j]).negated == true && atom == general::planned(
                    body[j].atom,
                    general::version_at(j, delta),
                );
            assert(body[j].negated);
            assert(!literal_matches(rule, j, store, v));
            if evaluation::blocked(atom, clause.positive, store, v) {
                let w = choose|w: spec_fn(u32) -> u32| #[trigger]
                    evaluation::agree_on(clause.positive, v, w) && store.full[atom.relation.0 as int].contains(
                        evaluation::instance(atom.terms, w),
                    );
                assert(agree_in(rule, v, w));
                assert(evaluation::instance(atom.terms, w) == literal_tuple(rule, j, w));
            }
        }
    }
}

/// Optimizing a clause does not change where it holds.
pub proof fn lemma_optimized_holds(
    before: ClauseView,
    after: ClauseView,
    statistics: Seq<usize>,
    store: StoreView,
    v: spec_fn(u32) -> u32,
)
    requires
        statistics::is_optimized(before, after, statistics),
    ensures
        evaluation::clause_holds(after, store, v) <==> evaluation::clause_holds(before, store, v),
{
    statistics::lemma_join_order_permutes(before.positive, Seq::empty(), statistics);
    assert(forall|atom: PlannedAtomView| !Seq::<PlannedAtomView>::empty().contains(atom));
    let a = before.positive;
    let b = after.positive;
    assert forall|atom: PlannedAtomView|
        #![trigger a.contains(atom)]
        #![trigger b.contains(atom)]
        a.contains(atom) <==> b.contains(atom) by {}
    if evaluation::joins(a, store, v) {
        lemma_same_atoms(a, b, store, v);
    }
    if evaluation::joins(b, store, v) {
        lemma_same_atoms(b, a, store, v);
    }
    assert forall|x: u32| #[trigger] evaluation::bound_by(a, x) <==> evaluation::bound_by(b, x) by {
        if evaluation::bound_by(a, x) {
            let i = choose|i: int| 0 <= i < a.len() && evaluation::uses((#[trigger] a[i]).terms, x);
            assert(a.contains(a[i]));
            let k = choose|k: int| 0 <= k < b.len() && b[k] == a[i];
            assert(evaluation::uses(b[k].terms, x));
        }
        if evaluation::bound_by(b, x) {
            let i = choose|i: int| 0 <= i < b.len() && evaluation::uses((#[trigger] b[i]).terms, x);
            assert(b.contains(b[i]));
            let k = choose|k: int| 0 <= k < a.len() && a[k] == b[i];
            assert(evaluation::uses(a[k].terms, x));
        }
    }
    assert forall|w: spec_fn(u32) -> u32| #[trigger] evaluation::agree_on(a, v, w) <==> evaluation::agree_on(b, v, w) by {
        if evaluation::agree_on(b, v, w) {
            assert forall|x: u32| #[trigger] evaluation::bound_by(a, x) implies v(x) == w(x) by {
                assert(evaluation::bound_by(b, x));
            }
        }
        if evaluation::agree_on(a, v, w) {
            assert forall|x: u32| #[trigger] evaluation::bound_by(b, x) implies v(x) == w(x) by {
                assert(evaluation::bound_by(a, x));
            }
        }
    }
    assert forall|atom: PlannedAtomView| #[trigger] evaluation::blocked(atom, a, store, v) <==> evaluation::blocked(
        atom,
        b,
        store,
        v,
    ) by {
        if evaluation::blocked(atom, b, store, v) {
            let w = choose|w: spec_fn(u32) -> u32| #[trigger]
                evaluation::agree_on(b, v, w) && store.full[atom.relation.0 as int].contains(
                    evaluation::instance(atom.terms, w),
                );
            assert(evaluation::agree_on(a, v, w));
        }
        if evaluation::blocked(atom, a, store, v) {
            let w = choose|w: spec_fn(u32) -> u32| #[trigger]
                evaluation::agree_on(a, v, w) && store.full[atom.relation.0 as int].contains(
                    evaluation::instance(atom.terms, w),
                );
            assert(evaluation::agree_on(b, v, w));
        }
    }
    if evaluation::clause_holds(after, store, v) {
        assert forall|j: int| 0 <= j < before.negative.len() implies !evaluation::blocked(
            #[trigger] before.negative[j],
            a,
            store,
            v,
        ) by {
            assert(!evaluation::blocked(after.negative[j], b, store, v));
        }
    }
    if evaluation::clause_holds(before, store, v) {
        assert forall|j: int| 0 <= j < after.negative.len() implies !evaluation::blocked(
            #[trigger] after.negative[j],
            b,
            store,
            v,
        ) by {
            assert(!evaluation::blocked(before.negative[j], a, store, v));
        }
    }
}

proof fn lemma_same_atoms(
    a: Seq<PlannedAtomView>,
    b: Seq<PlannedAtomView>,
    store: StoreView,
    v: spec_fn(u32) -> u32,
)
    requires
        forall|atom: PlannedAtomView| #[trigger] b.contains(atom) ==> a.contains(atom),
        evaluation::joins(a, store, v),
    ensures
        evaluation::joins(b, store, v),
{
    assert forall|i: int| 0 <= i < b.len() implies evaluation::rows_of(store, #[trigger] b[i]).contains(
        evaluation::instance(b[i].terms, v),
    ) by {
        assert(b.contains(b[i]));
        let k = choose|k: int| 0 <= k < a.len() && a[k] == b[i];
        assert(evaluation::rows_of(store, a[k]).contains(evaluation::instance(a[k].terms, v)));
    }
}

/// Whether a component plan evaluates a group of predicates of a program.
pub open spec fn evaluates(
    program: ResolvedProgramView,
    group: Seq<PredicateId>,
    scc: SccPlanView,
    statistics: Seq<usize>,
) -> bool {
    &&& scc.relations == general::relations_of(group)
    &&& statistics::all_optimized(general::seed_clauses(program.rules, group), scc.seeds, statistics)
    &&& statistics::all_optimized(general::variant_clauses(program.rules, group), scc.recursive_variants, statistics)
    &&& forall|i: int|
        0 <= i < program.rules.len() && general::derives_into(#[trigger] program.rules[i], group) ==> {
            &&& general::recursive_positions(program.rules[i].body, group).len() > 0 ==> scc.recursive
            &&& forall|j: int|
                0 <= j < program.rules[i].body.len() && (
                #[trigger] program.rules[i].body[j]).negated ==> !group.contains(
                    program.rules[i].body[j].atom.predicate,
                )
        }
}

proof fn lemma_relation_in_group(group: Seq<PredicateId>, predicate: PredicateId)
    ensures
        general::relations_of(group).contains(general::relation_of(predicate)) <==> group.contains(predicate),
{
    if group.contains(predicate) {
        let k = choose|k: int| 0 <= k < group.len() && group[k] == predicate;
        assert(general::relations_of(group)[k] == general::relation_of(predicate));
    }
    if general::relations_of(group).contains(general::relation_of(predicate)) {
        let k = choose|k: int|
            0 <= k < group.len() && general::relations_of(group)[k] == general::relation_of(predicate);
        assert(group[k] == predicate);
    }
}

/// What clauses of a component derive belongs to its relations.
proof fn lemma_derives_within(
    program: ResolvedProgramView,
    group: Seq<PredicateId>,
    scc: SccPlanView,
    statistics: Seq<usize>,
    store: StoreView,
    relation: RelationId,
)
    requires
        evaluates(program, group, scc, statistics),
        !scc.relations.contains(relation),
    ensures
        evaluation::derived(scc.seeds, store, relation) == Set::<Seq<u32>>::empty(),
{
    assert forall|t: Seq<u32>| !#[trigger] evaluation::derived(scc.seeds, store, relation).contains(t) by {
        if evaluation::derived(scc.seeds, store, relation).contains(t) {
            let c = choose|c: int|
                0 <= c < scc.seeds.len() && (#[trigger] scc.seeds[c]).target == relation
                    && evaluation::clause_result(scc.seeds[c], store).contains(t);
            let i = general::lemma_seed_rule(program.rules, group, c);
            assert(statistics::is_optimized(
                general::seed_clauses(program.rules, group)[c],
                scc.seeds[c],
                statistics,
            ));
            lemma_relation_in_group(group, program.rules[i].head.predicate);
        }
    }
    assert(evaluation::derived(scc.seeds, store, relation) =~= Set::empty());
}

/// Rounds keep what is known, leave other relations alone, and know what is new.
proof fn lemma_rounds_grow(
    program: ResolvedProgramView,
    group: Seq<PredicateId>,
    scc: SccPlanView,
    statistics: Seq<usize>,
    before: StoreView,
    rounds: nat,
)
    requires
        evaluates(program, group, scc, statistics),
        before.full.len() == before.delta.len(),
        before.full.len() <= u32::MAX + 1,
    ensures
        execution_general::iterated(scc, execution_general::started(scc, before), rounds).full.len() == before.full.len(),
        execution_general::iterated(scc, execution_general::started(scc, before), rounds).delta.len() == before.full.len(),
        forall|r: int|
            0 <= r < before.full.len() ==> execution_general::seeded(scc, before).full[r].subset_of(
                #[trigger] execution_general::iterated(scc, execution_general::started(scc, before), rounds).full[r],
            ),
        forall|r: int|
            0 <= r < before.full.len() && !scc.relations.contains(RelationId(r as u32))
                ==> #[trigger] execution_general::iterated(scc, execution_general::started(scc, before), rounds).full[r]
                == before.full[r],
        forall|r: int|
            0 <= r < before.full.len() && scc.relations.contains(RelationId(r as u32))
                ==> #[trigger] execution_general::iterated(scc, execution_general::started(scc, before), rounds).delta[r].subset_of(
                execution_general::iterated(scc, execution_general::started(scc, before), rounds).full[r],
            ),
    decreases rounds,
{
    let start = execution_general::started(scc, before);
    let now = execution_general::iterated(scc, start, rounds);
    if rounds == 0 {
        assert forall|r: int|
            0 <= r < before.full.len() && !scc.relations.contains(
                RelationId(r as u32),
            ) implies #[trigger] now.full[r] == before.full[r] by {
            lemma_derives_within(
                program,
                group,
                scc,
                statistics,
                before,
                RelationId(r as u32),
            );
            assert(before.full[r].union(Set::empty()) =~= before.full[r]);
        }
    } else {
        lemma_rounds_grow(program, group, scc, statistics, before, (rounds - 1) as nat);
        let prior = execution_general::iterated(scc, start, (rounds - 1) as nat);
        assert forall|r: int| 0 <= r < before.full.len() implies execution_general::seeded(
            scc,
            before,
        ).full[r].subset_of(#[trigger] now.full[r]) by {
            assert(prior.full[r].subset_of(now.full[r]));
            assert(execution_general::seeded(scc, before).full[r].subset_of(prior.full[r]));
        }
        assert forall|r: int|
            0 <= r < before.full.len() && !scc.relations.contains(
                RelationId(r as u32),
            ) implies #[trigger] now.full[r] == before.full[r] by {
            assert(prior.full[r] == before.full[r]);
        }
    }
}

/// Evaluating a component leaves the relations of others alone, and keeps what is known.
pub proof fn lemma_scc_frame(
    program: ResolvedProgramView,
    group: Seq<PredicateId>,
    scc: SccPlanView,
    statistics: Seq<usize>,
    before: StoreView,
    limit: usize,
    after: StoreView,
)
    requires
        evaluates(program, group, scc, statistics),
        before.full.len() == before.delta.len(),
        before.full.len() <= u32::MAX + 1,
        execution_general::run_scc(scc, before, limit) == Some(after),
    ensures
        after.full.len() == before.full.len(),
        after.delta.len() == before.delta.len(),
        forall|r: int|
            0 <= r < before.full.len() && !scc.relations.contains(RelationId(r as u32))
                ==> #[trigger] after.full[r] == before.full[r],
        forall|r: int|
            0 <= r < before.full.len() ==> before.full[r].subset_of(#[trigger] after.full[r]),
{
    if scc.recursive {
        let start = execution_general::started(scc, before);
        let n = execution_general::settling_round(scc, start);
        lemma_rounds_grow(program, group, scc, statistics, before, n);
        assert forall|r: int| 0 <= r < before.full.len() implies before.full[r].subset_of(
            #[trigger] after.full[r],
        ) by {
            assert(execution_general::seeded(scc, before).full[r].subset_of(after.full[r]));
        }
    } else {
        assert forall|r: int|
            0 <= r < before.full.len() && !scc.relations.contains(
                RelationId(r as u32),
            ) implies #[trigger] after.full[r] == before.full[r] by {
            lemma_derives_within(
                program,
                group,
                scc,
                statistics,
                before,
                RelationId(r as u32),
            );
            assert(before.full[r].union(Set::empty()) =~= before.full[r]);
        }
    }
}

/// Whether every positive literal holds, those over a group among tuples that are not new.
spec fn holds_in_old(
    rule: ResolvedRuleView,
    group: Seq<PredicateId>,
    store: StoreView,
    v: spec_fn(u32) -> u32,
) -> bool {
    &&& positives_hold(rule, None, store, v)
    &&& forall|j: int|
        0 <= j < rule.body.len() && !(#[trigger] rule.body[j]).negated && group.contains(
            rule.body[j].atom.predicate,
        ) ==> !store.delta[rule.body[j].atom.predicate.0 as int].contains(
            literal_tuple(rule, j, v),
        )
}

/// Whether the predicates of a rule have relations in a store.
pub open spec fn fits(rule: ResolvedRuleView, count: int) -> bool {
    &&& rule.head.predicate.0 < count
    &&& forall|j: int|
        0 <= j < rule.body.len() ==> (#[trigger] rule.body[j]).atom.predicate.0 < count
}

/// After each round, everything that old tuples imply is known.
proof fn lemma_rounds_close(
    program: ResolvedProgramView,
    group: Seq<PredicateId>,
    scc: SccPlanView,
    statistics: Seq<usize>,
    before: StoreView,
    i: int,
    rounds: nat,
    v: spec_fn(u32) -> u32,
)
    requires
        evaluates(program, group, scc, statistics),
        before.full.len() == before.delta.len(),
        before.full.len() <= u32::MAX + 1,
        0 <= i < program.rules.len(),
        general::derives_into(program.rules[i], group),
        general::recursive_positions(program.rules[i].body, group).len() > 0,
        fits(program.rules[i], before.full.len() as int),
        holds_in_old(
            program.rules[i],
            group,
            execution_general::iterated(scc, execution_general::started(scc, before), rounds),
            v,
        ),
        negatives_hold(program.rules[i], before, v),
    ensures
        head_holds(program.rules[i], execution_general::iterated(scc, execution_general::started(scc, before), rounds), v),
    decreases rounds,
{
    let rule = program.rules[i];
    let start = execution_general::started(scc, before);
    let now = execution_general::iterated(scc, start, rounds);
    let positions = general::recursive_positions(rule.body, group);
    if rounds == 0 {
        let p = positions[0];
        assert(positions.contains(p));
        general::lemma_recursive_positions(rule.body, group, p);
        lemma_relation_in_group(group, rule.body[p].atom.predicate);
        let r = rule.body[p].atom.predicate.0 as int;
        assert(RelationId(r as u32) == general::relation_of(rule.body[p].atom.predicate));
        assert(now.delta[r] == now.full[r]);
        assert(!rule.body[p].negated);
        assert(false);
    } else {
        let prior = execution_general::iterated(scc, start, (rounds - 1) as nat);
        lemma_rounds_grow(program, group, scc, statistics, before, (rounds - 1) as nat);
        lemma_rounds_grow(program, group, scc, statistics, before, rounds);
        assert forall|j: int| 0 <= j < rule.body.len() && !(
        #[trigger] rule.body[j]).negated implies prior.full[rule.body[j].atom.predicate.0 as int].contains(
        literal_tuple(rule, j, v)) by {
            let r = rule.body[j].atom.predicate.0 as int;
            lemma_relation_in_group(group, rule.body[j].atom.predicate);
            assert(RelationId(r as u32) == general::relation_of(rule.body[j].atom.predicate));
            assert(now.full[r].contains(literal_tuple(rule, j, v)));
            if !group.contains(rule.body[j].atom.predicate) {
                assert(now.full[r] == before.full[r]);
                assert(prior.full[r] == before.full[r]);
            }
        }
        assert(positives_hold(rule, None, prior, v));
        lemma_relation_in_group(group, rule.head.predicate);
        let h = rule.head.predicate.0 as int;
        assert(RelationId(h as u32) == general::relation_of(rule.head.predicate));
        if holds_in_old(rule, group, prior, v) {
            lemma_rounds_close(
                program,
                group,
                scc,
                statistics,
                before,
                i,
                (rounds - 1) as nat,
                v,
            );
            assert(prior.full[h].subset_of(now.full[h]));
        } else {
            let p = choose|p: int|
                0 <= p < rule.body.len() && !(#[trigger] rule.body[p]).negated && group.contains(
                    rule.body[p].atom.predicate,
                ) && prior.delta[rule.body[p].atom.predicate.0 as int].contains(
                    literal_tuple(rule, p, v),
                );
            general::lemma_recursive_positions(rule.body, group, p);
            let c = general::lemma_rule_variant(program.rules, group, i, p);
            let clause = scc.recursive_variants[c];
            assert(statistics::is_optimized(
                general::variant_clauses(program.rules, group)[c],
                clause,
                statistics,
            ));
            assert(positives_hold(rule, Some(p), prior, v));
            lemma_negatives_same(program, group, scc, statistics, before, i, prior, v);
            lemma_clause_is_rule(rule, Some(p), prior, v);
            lemma_optimized_holds(general::rule_clause(rule, Some(p)), clause, statistics, prior, v);
            assert(evaluation::clause_holds(clause, prior, v));
            let t = head_tuple(rule, v);
            assert(evaluation::clause_result(clause, prior).contains(t));
            assert(evaluation::derived(
                scc.recursive_variants,
                prior,
                general::relation_of(rule.head.predicate),
            ).contains(t));
            assert(now.full[h].contains(t));
        }
    }
}

/// Negation over other relations reads the same in every round.
proof fn lemma_negatives_same(
    program: ResolvedProgramView,
    group: Seq<PredicateId>,
    scc: SccPlanView,
    statistics: Seq<usize>,
    before: StoreView,
    i: int,
    now: StoreView,
    v: spec_fn(u32) -> u32,
)
    requires
        evaluates(program, group, scc, statistics),
        0 <= i < program.rules.len(),
        general::derives_into(program.rules[i], group),
        fits(program.rules[i], before.full.len() as int),
        forall|r: int|
            0 <= r < before.full.len() && !scc.relations.contains(RelationId(r as u32))
                ==> #[trigger] now.full[r] == before.full[r],
    ensures
        negatives_hold(program.rules[i], now, v) <==> negatives_hold(program.rules[i], before, v),
{
    let rule = program.rules[i];
    assert forall|j: int| 0 <= j < rule.body.len() && (
    #[trigger] rule.body[j]).negated implies now.full[rule.body[j].atom.predicate.0 as int]
        == before.full[rule.body[j].atom.predicate.0 as int] by {
        let p = rule.body[j].atom.predicate;
        assert(program.rules[i].body[j].negated);
        lemma_relation_in_group(group, p);
        assert(RelationId(p.0 as int as u32) == general::relation_of(p));
    }
    if negatives_hold(rule, now, v) {
        lemma_negatives_depend(rule, now, before, v);
    }
    if negatives_hold(rule, before, v) {
        lemma_negatives_depend(rule, before, now, v);
    }
}

pub proof fn lemma_negatives_depend(
    rule: ResolvedRuleView,
    a: StoreView,
    b: StoreView,
    v: spec_fn(u32) -> u32,
)
    requires
        forall|j: int|
            0 <= j < rule.body.len() && (#[trigger] rule.body[j]).negated
                ==> a.full[rule.body[j].atom.predicate.0 as int]
                == b.full[rule.body[j].atom.predicate.0 as int],
        negatives_hold(rule, a, v),
    ensures
        negatives_hold(rule, b, v),
{
    assert forall|j: int| 0 <= j < rule.body.len() && (
    #[trigger] rule.body[j]).negated implies !literal_matches(rule, j, b, v) by {
        assert(!literal_matches(rule, j, a, v));
        if literal_matches(rule, j, b, v) {
            let w = choose|w: spec_fn(u32) -> u32| #[trigger]
                agree_in(rule, v, w) && b.full[rule.body[j].atom.predicate.0 as int].contains(
                    literal_tuple(rule, j, w),
                );
            assert(agree_in(rule, v, w));
        }
    }
}

/// A component that has been evaluated is closed under its rules.
pub proof fn law_component_is_closed(
    program: ResolvedProgramView,
    group: Seq<PredicateId>,
    scc: SccPlanView,
    statistics: Seq<usize>,
    before: StoreView,
    limit: usize,
    after: StoreView,
    i: int,
    v: spec_fn(u32) -> u32,
)
    requires
        evaluates(program, group, scc, statistics),
        before.full.len() == before.delta.len(),
        before.full.len() <= u32::MAX + 1,
        execution_general::run_scc(scc, before, limit) == Some(after),
        0 <= i < program.rules.len(),
        general::derives_into(program.rules[i], group),
        fits(program.rules[i], before.full.len() as int),
        positives_hold(program.rules[i], None, after, v),
        negatives_hold(program.rules[i], after, v),
    ensures
        head_holds(program.rules[i], after, v),
{
    let rule = program.rules[i];
    let start = execution_general::started(scc, before);
    lemma_scc_frame(program, group, scc, statistics, before, limit, after);
    lemma_negatives_same(program, group, scc, statistics, before, i, after, v);
    let positions = general::recursive_positions(rule.body, group);
    lemma_relation_in_group(group, rule.head.predicate);
    let h = rule.head.predicate.0 as int;
    assert(RelationId(h as u32) == general::relation_of(rule.head.predicate));
    if positions.len() == 0 {
        assert forall|j: int| 0 <= j < rule.body.len() && !(
        #[trigger] rule.body[j]).negated implies before.full[rule.body[j].atom.predicate.0 as int].contains(
        literal_tuple(rule, j, v)) by {
            let p = rule.body[j].atom.predicate;
            general::lemma_recursive_positions(rule.body, group, j);
            if group.contains(p) {
                assert(positions.contains(j));
            }
            lemma_relation_in_group(group, p);
            assert(RelationId(p.0 as int as u32) == general::relation_of(p));
            assert(after.full[p.0 as int] == before.full[p.0 as int]);
        }
        let c = general::lemma_rule_seed(program.rules, group, i);
        let clause = scc.seeds[c];
        assert(statistics::is_optimized(general::seed_clauses(program.rules, group)[c], clause, statistics));
        assert(positives_hold(rule, None, before, v));
        lemma_clause_is_rule(rule, None, before, v);
        lemma_optimized_holds(general::rule_clause(rule, None), clause, statistics, before, v);
        let t = head_tuple(rule, v);
        assert(evaluation::clause_result(clause, before).contains(t));
        assert(evaluation::derived(scc.seeds, before, general::relation_of(rule.head.predicate)).contains(t));
        assert(execution_general::seeded(scc, before).full[h].contains(t));
        if scc.recursive {
            lemma_rounds_grow(
                program,
                group,
                scc,
                statistics,
                before,
                execution_general::settling_round(scc, start),
            );
            assert(execution_general::seeded(scc, before).full[h].subset_of(after.full[h]));
        }
    } else {
        let n = execution_general::settling_round(scc, start);
        assert(execution_general::settles_at(scc, start, n));
        assert(holds_in_old(rule, group, after, v)) by {
            assert forall|j: int|
                0 <= j < rule.body.len() && !(#[trigger] rule.body[j]).negated && group.contains(
                    rule.body[j].atom.predicate,
                ) implies !after.delta[rule.body[j].atom.predicate.0 as int].contains(
                literal_tuple(rule, j, v),
            ) by {
                let p = rule.body[j].atom.predicate;
                let k = choose|k: int| 0 <= k < group.len() && group[k] == p;
                assert(scc.relations[k] == general::relation_of(p));
            }
        }
        lemma_rounds_close(program, group, scc, statistics, before, i, n, v);
    }
}

/// Evaluating a component derives nothing beyond what any store holds that includes the store
/// before, and is closed under the rules with negation read from the store after.
pub proof fn law_component_is_least(
    program: ResolvedProgramView,
    group: Seq<PredicateId>,
    scc: SccPlanView,
    statistics: Seq<usize>,
    before: StoreView,
    limit: usize,
    after: StoreView,
    other: StoreView,
    negation: StoreView,
)
    requires
        evaluates(program, group, scc, statistics),
        before.full.len() == before.delta.len(),
        before.full.len() <= u32::MAX + 1,
        execution_general::run_scc(scc, before, limit) == Some(after),
        forall|i: int|
            0 <= i < program.rules.len() ==> fits(
                #[trigger] program.rules[i],
                before.full.len() as int,
            ),
        included(before, other),
        closed_under(program, other, negation),
        forall|i: int, j: int|
            #![trigger program.rules[i].body[j]]
            0 <= i < program.rules.len() && 0 <= j < program.rules[i].body.len() && general::derives_into(
                program.rules[i],
                group,
            ) && program.rules[i].body[j].negated
                ==> before.full[program.rules[i].body[j].atom.predicate.0 as int]
                == negation.full[program.rules[i].body[j].atom.predicate.0 as int],
    ensures
        included(after, other),
{
    let start = execution_general::started(scc, before);
    assert(included(execution_general::seeded(scc, before), other)) by {
        assert forall|r: int, t: Seq<u32>|
            0 <= r < before.full.len() && #[trigger] execution_general::seeded(scc, before).full[r].contains(
                t,
            ) implies other.full[r].contains(t) by {
            if !before.full[r].contains(t) {
                let relation = RelationId(r as u32);
                let c = choose|c: int|
                    0 <= c < scc.seeds.len() && (#[trigger] scc.seeds[c]).target == relation
                        && evaluation::clause_result(scc.seeds[c], before).contains(t);
                let clause = scc.seeds[c];
                let i = general::lemma_seed_rule(program.rules, group, c);
                let rule = program.rules[i];
                assert(statistics::is_optimized(general::seed_clauses(program.rules, group)[c], clause, statistics));
                let v = choose|v: spec_fn(u32) -> u32| #[trigger]
                    evaluation::clause_holds(clause, before, v) && t == evaluation::instance(clause.head, v);
                lemma_optimized_holds(general::rule_clause(rule, None), clause, statistics, before, v);
                lemma_clause_is_rule(rule, None, before, v);
                lemma_negatives_depend(rule, before, negation, v);
                assert(fits(program.rules[i], before.full.len() as int));
                assert forall|j: int| 0 <= j < rule.body.len() && !(
                #[trigger] rule.body[j]).negated implies other.full[rule.body[j].atom.predicate.0 as int].contains(
                literal_tuple(rule, j, v)) by {
                    assert(before.full[rule.body[j].atom.predicate.0 as int].contains(
                        literal_tuple(rule, j, v),
                    ));
                }
                assert(positives_hold(program.rules[i], None, other, v));
                assert(head_holds(rule, other, v));
            } else {
                assert(before.full[r].contains(t));
            }
        }
    }
    if scc.recursive {
        lemma_rounds_included(
            program,
            group,
            scc,
            statistics,
            before,
            execution_general::settling_round(scc, start),
            other,
            negation,
        );
    }
}

proof fn lemma_rounds_included(
    program: ResolvedProgramView,
    group: Seq<PredicateId>,
    scc: SccPlanView,
    statistics: Seq<usize>,
    before: StoreView,
    rounds: nat,
    other: StoreView,
    negation: StoreView,
)
    requires
        evaluates(program, group, scc, statistics),
        before.full.len() == before.delta.len(),
        before.full.len() <= u32::MAX + 1,
        forall|i: int|
            0 <= i < program.rules.len() ==> fits(
                #[trigger] program.rules[i],
                before.full.len() as int,
            ),
        included(execution_general::seeded(scc, before), other),
        closed_under(program, other, negation),
        forall|i: int, j: int|
            #![trigger program.rules[i].body[j]]
            0 <= i < program.rules.len() && 0 <= j < program.rules[i].body.len() && general::derives_into(
                program.rules[i],
                group,
            ) && program.rules[i].body[j].negated
                ==> before.full[program.rules[i].body[j].atom.predicate.0 as int]
                == negation.full[program.rules[i].body[j].atom.predicate.0 as int],
    ensures
        included(execution_general::iterated(scc, execution_general::started(scc, before), rounds), other),
    decreases rounds,
{
    let start = execution_general::started(scc, before);
    let now = execution_general::iterated(scc, start, rounds);
    if rounds == 0 {
        assert forall|r: int, t: Seq<u32>|
            0 <= r < now.full.len() && #[trigger] now.full[r].contains(
                t,
            ) implies other.full[r].contains(t) by {
            assert(execution_general::seeded(scc, before).full[r].contains(t));
        }
    } else {
        lemma_rounds_included(
            program,
            group,
            scc,
            statistics,
            before,
            (rounds - 1) as nat,
            other,
            negation,
        );
        lemma_rounds_grow(program, group, scc, statistics, before, (rounds - 1) as nat);
        let prior = execution_general::iterated(scc, start, (rounds - 1) as nat);
        assert forall|r: int, t: Seq<u32>|
            0 <= r < now.full.len() && #[trigger] now.full[r].contains(
                t,
            ) implies other.full[r].contains(t) by {
            if !prior.full[r].contains(t) {
                let relation = RelationId(r as u32);
                assert(execution_general::fresh(scc, prior, relation).contains(t));
                let c = choose|c: int|
                    0 <= c < scc.recursive_variants.len() && (
                    #[trigger] scc.recursive_variants[c]).target == relation && evaluation::clause_result(
                        scc.recursive_variants[c],
                        prior,
                    ).contains(t);
                let clause = scc.recursive_variants[c];
                let (i, p) = general::lemma_variant_rule(program.rules, group, c);
                let rule = program.rules[i];
                general::lemma_recursive_positions(rule.body, group, p);
                assert(statistics::is_optimized(
                    general::variant_clauses(program.rules, group)[c],
                    clause,
                    statistics,
                ));
                let v = choose|v: spec_fn(u32) -> u32| #[trigger]
                    evaluation::clause_holds(clause, prior, v) && t == evaluation::instance(clause.head, v);
                lemma_optimized_holds(general::rule_clause(rule, Some(p)), clause, statistics, prior, v);
                lemma_clause_is_rule(rule, Some(p), prior, v);
                assert(fits(program.rules[i], before.full.len() as int));
                lemma_negatives_same(program, group, scc, statistics, before, i, prior, v);
                lemma_negatives_depend(rule, before, negation, v);
                assert forall|j: int| 0 <= j < rule.body.len() && !(
                #[trigger] rule.body[j]).negated implies other.full[rule.body[j].atom.predicate.0 as int].contains(
                literal_tuple(rule, j, v)) by {
                    let q = rule.body[j].atom.predicate;
                    lemma_relation_in_group(group, q);
                    assert(RelationId(q.0 as int as u32) == general::relation_of(q));
                    if j == p {
                        assert(prior.delta[q.0 as int].subset_of(prior.full[q.0 as int]));
                    }
                    assert(prior.full[q.0 as int].contains(literal_tuple(rule, j, v)));
                }
                assert(positives_hold(program.rules[i], None, other, v));
                assert(head_holds(rule, other, v));
            }
        }
    }
}

/// The components of a plan evaluate the groups of its schedule, one by one.
proof fn lemma_plan_evaluates(
    program: ResolvedProgramView,
    schedule: ProgramSchedule,
    plans: Seq<StratumPlanView>,
    statistics: Seq<usize>,
    k: int,
)
    requires
        schedule::schedules(program, schedule),
        general::strata_lowered(program, schedule.strata@, plans, statistics),
        0 <= k < schedule_laws::flat_groups(schedule.strata@).len(),
    ensures
        execution_general::all_sccs(plans).len() == schedule_laws::flat_groups(schedule.strata@).len(),
        evaluates(
            program,
            schedule_laws::flat_groups(schedule.strata@)[k],
            execution_general::all_sccs(plans)[k],
            statistics,
        ),
{
    let strata = schedule.strata@;
    lemma_flat_parallel(strata, plans, strata.len() as int);
    assert(strata.take(strata.len() as int) =~= strata);
    assert(plans.take(strata.len() as int) =~= plans);
    let place = schedule_laws::lemma_flat_place(strata, k);
    let (s, j) = place;
    let own = plans[s].sccs[j];
    let scc = strata[s].sccs@[j];
    let group = scc.predicates@;
    assert(plans[s].sccs.len() == strata[s].sccs@.len());
    assert(general::scc_lowered(program, scc, own, statistics));
    lemma_all_sccs_index(plans, s, j);
    lemma_flat_parallel(strata, plans, s);
    assert(execution_general::all_sccs(plans)[k] == own);
    general::lemma_scheduled_component(program, schedule, s, j);
    let deps = schedule::program_dependencies(program);
    let order = choose|order: Seq<Seq<PredicateId>>| #[trigger]
        schedule::is_evaluation_order(program, order) && schedule::follows_order(
            deps,
            order,
            strata,
        );
    assert(strata[s].sccs@[j].recursive == schedule::is_recursive(deps, group));
    assert forall|i: int|
        0 <= i < program.rules.len() && general::derives_into(#[trigger] program.rules[i], group) implies {
        &&& general::recursive_positions(program.rules[i].body, group).len() > 0 ==> own.recursive
        &&& forall|m: int|
            0 <= m < program.rules[i].body.len() && (
            #[trigger] program.rules[i].body[m]).negated ==> !group.contains(
                program.rules[i].body[m].atom.predicate,
            )
    } by {
        let rule = program.rules[i];
        if general::recursive_positions(rule.body, group).len() > 0 {
            let p = general::recursive_positions(rule.body, group)[0];
            assert(general::recursive_positions(rule.body, group).contains(p));
            general::lemma_recursive_positions(rule.body, group, p);
            if group.len() == 1 {
                let item = Dependency {
                    head: group[0],
                    body: group[0],
                    kind: DependencyKind::Positive,
                };
                schedule::lemma_program_dependencies_contain(program, item);
                assert(item == schedule::literal_dependency(
                    program.rules[i].head.predicate,
                    program.rules[i].body[p],
                ));
            }
        }
        assert forall|m: int|
            0 <= m < rule.body.len() && (#[trigger] rule.body[m]).negated implies !group.contains(
            rule.body[m].atom.predicate,
        ) by {
            if group.contains(rule.body[m].atom.predicate) {
                let item = schedule::literal_dependency(rule.head.predicate, rule.body[m]);
                schedule::lemma_program_dependencies_contain(program, item);
                assert(item == schedule::literal_dependency(
                    program.rules[i].head.predicate,
                    program.rules[i].body[m],
                ));
                let d = choose|d: int| 0 <= d < deps.len() && deps[d] == item;
                schedule_laws::law_producers_before_consumers(program, schedule, d, k, k);
            }
        }
    }
}

proof fn lemma_flat_parallel(
    strata: Seq<ScheduledStratum>,
    plans: Seq<StratumPlanView>,
    count: int,
)
    requires
        plans.len() == strata.len(),
        0 <= count <= strata.len(),
        forall|i: int|
            0 <= i < strata.len() ==> (#[trigger] plans[i]).sccs.len() == strata[i].sccs@.len(),
    ensures
        execution_general::all_sccs(plans.take(count)).len() == schedule_laws::flat_groups(strata.take(count)).len(),
    decreases count,
{
    if count > 0 {
        lemma_flat_parallel(strata, plans, count - 1);
        assert(strata.take(count).drop_last() =~= strata.take(count - 1));
        assert(plans.take(count).drop_last() =~= plans.take(count - 1));
        assert(plans[count - 1].sccs.len() == strata[count - 1].sccs@.len());
    }
}

proof fn lemma_all_sccs_index(plans: Seq<StratumPlanView>, s: int, j: int)
    requires
        0 <= s < plans.len(),
        0 <= j < plans[s].sccs.len(),
    ensures
        execution_general::all_sccs(plans.take(s)).len() + j < execution_general::all_sccs(plans).len(),
        execution_general::all_sccs(plans)[execution_general::all_sccs(plans.take(s)).len() + j] == plans[s].sccs[j],
    decreases plans.len(),
{
    let rest = plans.drop_last();
    if s < rest.len() {
        assert(rest[s] == plans[s]);
        assert(rest.take(s) =~= plans.take(s));
        lemma_all_sccs_index(rest, s, j);
    } else {
        assert(plans.take(s) =~= rest);
    }
}

/// Whether components evaluate groups, one by one.
spec fn evaluate_all(
    program: ResolvedProgramView,
    groups: Seq<Seq<PredicateId>>,
    sccs: Seq<SccPlanView>,
    statistics: Seq<usize>,
) -> bool {
    &&& sccs.len() == groups.len()
    &&& forall|k: int|
        0 <= k < groups.len() ==> evaluates(
            program,
            #[trigger] groups[k],
            sccs[k],
            statistics,
        )
}

/// The store after the first components.
spec fn store_after(
    sccs: Seq<SccPlanView>,
    start: StoreView,
    limit: usize,
    count: int,
) -> StoreView {
    execution_general::run_sccs(sccs.take(count), start, limit)->0
}

proof fn lemma_store_step(sccs: Seq<SccPlanView>, start: StoreView, limit: usize, k: int)
    requires
        0 <= k < sccs.len(),
        execution_general::run_sccs(sccs, start, limit) is Some,
    ensures
        execution_general::run_scc(sccs[k], store_after(sccs, start, limit, k), limit) == Some(
            store_after(sccs, start, limit, k + 1),
        ),
        execution_general::run_sccs(sccs.take(k), start, limit) is Some,
{
    let longer = sccs.take(k + 1);
    assert(longer.drop_last() =~= sccs.take(k));
    assert(longer.last() == sccs[k]);
    if execution_general::run_sccs(longer, start, limit) is None {
        execution_general::lemma_run_prefix(sccs, start, limit, longer);
    }
}

/// Components only add to their own relations.
proof fn lemma_stores_grow(
    program: ResolvedProgramView,
    groups: Seq<Seq<PredicateId>>,
    sccs: Seq<SccPlanView>,
    statistics: Seq<usize>,
    start: StoreView,
    limit: usize,
    from: int,
    to: int,
)
    requires
        evaluate_all(program, groups, sccs, statistics),
        execution_general::run_sccs(sccs, start, limit) is Some,
        start.full.len() == start.delta.len(),
        start.full.len() <= u32::MAX + 1,
        0 <= from <= to <= sccs.len(),
    ensures
        store_after(sccs, start, limit, to).full.len() == start.full.len(),
        store_after(sccs, start, limit, to).delta.len() == start.full.len(),
        included(store_after(sccs, start, limit, from), store_after(sccs, start, limit, to)),
        forall|p: PredicateId|
            #![trigger store_after(sccs, start, limit, to).full[p.0 as int]]
            (p.0 as int) < start.full.len() && (forall|k: int|
                from <= k < to ==> !(#[trigger] groups[k]).contains(p)) ==> store_after(
                sccs,
                start,
                limit,
                to,
            ).full[p.0 as int] == store_after(sccs, start, limit, from).full[p.0 as int],
    decreases to,
{
    if to == 0 {
        assert(sccs.take(0) =~= Seq::empty());
    } else if from == to {
        lemma_stores_grow(
            program,
            groups,
            sccs,
            statistics,
            start,
            limit,
            to - 1,
            to - 1,
        );
        lemma_store_step(sccs, start, limit, to - 1);
        assert(evaluates(program, groups[to - 1], sccs[to - 1], statistics));
        lemma_scc_frame(
            program,
            groups[to - 1],
            sccs[to - 1],
            statistics,
            store_after(sccs, start, limit, to - 1),
            limit,
            store_after(sccs, start, limit, to),
        );
    } else {
        lemma_stores_grow(program, groups, sccs, statistics, start, limit, from, to - 1);
        lemma_store_step(sccs, start, limit, to - 1);
        let prior = store_after(sccs, start, limit, to - 1);
        let now = store_after(sccs, start, limit, to);
        let first = store_after(sccs, start, limit, from);
        assert(evaluates(program, groups[to - 1], sccs[to - 1], statistics));
        lemma_scc_frame(program, groups[to - 1], sccs[to - 1], statistics, prior, limit, now);
        assert forall|r: int, t: Seq<u32>|
            0 <= r < first.full.len() && #[trigger] first.full[r].contains(
                t,
            ) implies now.full[r].contains(t) by {
            if r < prior.full.len() {
                assert(prior.full[r].contains(t));
                assert(prior.full[r].subset_of(now.full[r]));
            } else {
                lemma_stores_grow(
                    program,
                    groups,
                    sccs,
                    statistics,
                    start,
                    limit,
                    from,
                    from,
                );
            }
        }
        assert forall|p: PredicateId|
            #![trigger now.full[p.0 as int]]
            (p.0 as int) < start.full.len() && (forall|k: int|
                from <= k < to ==> !(#[trigger] groups[k]).contains(
                    p,
                )) implies now.full[p.0 as int] == first.full[p.0 as int] by {
            lemma_relation_in_group(groups[to - 1], p);
            assert(RelationId(p.0 as int as u32) == general::relation_of(p));
            assert(prior.full[p.0 as int] == first.full[p.0 as int]);
        }
    }
}

/// A plan with further facts.
pub open spec fn with_facts(
    plan: ProgramPlanView,
    extra: Seq<(RelationId, Seq<u32>)>,
) -> ProgramPlanView {
    ProgramPlanView { facts: plan.facts + extra, ..plan }
}

/// Whether facts are about relations of a plan.
pub open spec fn facts_fit(facts: Seq<(RelationId, Seq<u32>)>, count: int) -> bool {
    forall|m: int| 0 <= m < facts.len() ==> (#[trigger] facts[m]).0.0 < count
}

/// Whether a plan of a program, with further facts, ends in a store.
pub open spec fn results_in(
    program: ResolvedProgramView,
    plan: ProgramPlanView,
    extra: Seq<(RelationId, Seq<u32>)>,
    limit: usize,
    store: StoreView,
) -> bool {
    &&& general::lowers(program, plan)
    &&& facts_fit(extra, plan.predicate_count as int)
    &&& execution_general::run_program(with_facts(plan, extra), limit) == Some(store)
}

/// What the laws about a whole evaluation rest on.
proof fn lemma_evaluation(
    program: ResolvedProgramView,
    plan: ProgramPlanView,
    extra: Seq<(RelationId, Seq<u32>)>,
    limit: usize,
    store: StoreView,
) -> (r: (ProgramSchedule, Seq<Seq<PredicateId>>))
    requires
        results_in(program, plan, extra, limit, store),
    ensures
        schedule::schedules(program, r.0),
        r.1 == schedule_laws::flat_groups(r.0.strata@),
        evaluate_all(
            program,
            r.1,
            execution_general::all_sccs(plan.strata),
            statistics::fact_rows(plan.facts, plan.predicate_count),
        ),
        plan.predicate_count <= u32::MAX + 1,
        forall|i: int|
            0 <= i < program.rules.len() ==> fits(
                #[trigger] program.rules[i],
                plan.predicate_count as int,
            ),
        store == store_after(
            execution_general::all_sccs(plan.strata),
            execution_general::fact_store(plan.predicate_count as nat, plan.facts + extra),
            limit,
            execution_general::all_sccs(plan.strata).len() as int,
        ),
{
    let statistics = statistics::fact_rows(plan.facts, plan.predicate_count);
    let schedule = choose|schedule: ProgramSchedule| #[trigger]
        schedule::schedules(program, schedule) && general::strata_lowered(
            program,
            schedule.strata@,
            plan.strata,
            statistics,
        );
    let groups = schedule_laws::flat_groups(schedule.strata@);
    let sccs = execution_general::all_sccs(plan.strata);
    let strata = schedule.strata@;
    lemma_flat_parallel(strata, plan.strata, strata.len() as int);
    assert(strata.take(strata.len() as int) =~= strata);
    assert(plan.strata.take(strata.len() as int) =~= plan.strata);
    assert forall|k: int| 0 <= k < groups.len() implies evaluates(
        program,
        #[trigger] groups[k],
        sccs[k],
        statistics,
    ) by {
        lemma_plan_evaluates(program, schedule, plan.strata, statistics, k);
    }
    assert forall|i: int| 0 <= i < program.rules.len() implies fits(
        #[trigger] program.rules[i],
        plan.predicate_count as int,
    ) by {
        let rule = program.rules[i];
        assert(schedule::mentions(rule, rule.head.predicate));
        assert(general::occurs(program, rule.head.predicate));
        assert forall|j: int| 0 <= j < rule.body.len() implies (
        #[trigger] rule.body[j]).atom.predicate.0 < plan.predicate_count by {
            assert(schedule::mentions(rule, rule.body[j].atom.predicate));
            assert(general::occurs(program, rule.body[j].atom.predicate));
        }
    }
    assert(sccs.take(sccs.len() as int) =~= sccs);
    (schedule, groups)
}

/// A finished evaluation has as many relations as the plan counts.
pub proof fn lemma_result_size(
    program: ResolvedProgramView,
    plan: ProgramPlanView,
    extra: Seq<(RelationId, Seq<u32>)>,
    limit: usize,
    store: StoreView,
)
    requires
        results_in(program, plan, extra, limit, store),
    ensures
        store.full.len() == plan.predicate_count,
        plan.predicate_count <= u32::MAX + 1,
{
    let (schedule, groups) = lemma_evaluation(program, plan, extra, limit, store);
    let sccs = execution_general::all_sccs(plan.strata);
    let statistics = statistics::fact_rows(plan.facts, plan.predicate_count);
    let start = execution_general::fact_store(plan.predicate_count as nat, plan.facts + extra);
    lemma_stores_grow(program, groups, sccs, statistics, start, limit, 0, sccs.len() as int);
}

/// The component of a rule's head, and where the predicates of its body stand.
proof fn lemma_rule_placed(
    program: ResolvedProgramView,
    schedule: ProgramSchedule,
    i: int,
) -> (k: int)
    requires
        schedule::schedules(program, schedule),
        0 <= i < program.rules.len(),
    ensures
        0 <= k < schedule_laws::flat_groups(schedule.strata@).len(),
        schedule_laws::flat_groups(schedule.strata@)[k].contains(program.rules[i].head.predicate),
        forall|j: int, m: int|
            #![trigger program.rules[i].body[j], schedule_laws::flat_groups(schedule.strata@)[m]]
            0 <= j < program.rules[i].body.len() && k < m < schedule_laws::flat_groups(schedule.strata@).len()
                ==> !schedule_laws::flat_groups(schedule.strata@)[m].contains(
                program.rules[i].body[j].atom.predicate,
            ),
        forall|j: int|
            0 <= j < program.rules[i].body.len() && (#[trigger] program.rules[i].body[j]).negated
                ==> !schedule_laws::flat_groups(schedule.strata@)[k].contains(
                program.rules[i].body[j].atom.predicate,
            ),
{
    let rule = program.rules[i];
    let groups = schedule_laws::flat_groups(schedule.strata@);
    let deps = schedule::program_dependencies(program);
    assert(schedule::mentions(program.rules[i], rule.head.predicate));
    assert(schedule::is_active(program, rule.head.predicate));
    schedule_laws::law_components_partition(program, schedule, rule.head.predicate);
    let k = choose|k: int|
        0 <= k < groups.len() && (#[trigger] groups[k]).contains(rule.head.predicate);
    assert forall|j: int, m: int|
        #![trigger rule.body[j], groups[m]]
        0 <= j < rule.body.len() && k <= m < groups.len() && groups[m].contains(
            rule.body[j].atom.predicate,
        ) implies m == k && !rule.body[j].negated by {
        let item = schedule::literal_dependency(rule.head.predicate, rule.body[j]);
        schedule::lemma_program_dependencies_contain(program, item);
        assert(item == schedule::literal_dependency(
            program.rules[i].head.predicate,
            program.rules[i].body[j],
        ));
        let d = choose|d: int| 0 <= d < deps.len() && deps[d] == item;
        schedule_laws::law_producers_before_consumers(program, schedule, d, k, m);
    }
    k
}

/// A finished evaluation holds every fact, of the program and of those added to it, and is closed
/// under every rule.
pub proof fn law_result_is_model(
    program: ResolvedProgramView,
    plan: ProgramPlanView,
    extra: Seq<(RelationId, Seq<u32>)>,
    limit: usize,
    store: StoreView,
)
    requires
        results_in(program, plan, extra, limit, store),
    ensures
        holds_facts(general::fact_tuples(program.rules) + extra, store),
        closed_under(program, store, store),
{
    let (schedule, groups) = lemma_evaluation(program, plan, extra, limit, store);
    let sccs = execution_general::all_sccs(plan.strata);
    let statistics = statistics::fact_rows(plan.facts, plan.predicate_count);
    let start = execution_general::fact_store(plan.predicate_count as nat, plan.facts + extra);
    let n = sccs.len() as int;
    lemma_stores_grow(program, groups, sccs, statistics, start, limit, 0, n);
    assert(sccs.take(0) =~= Seq::empty());
    assert(store_after(sccs, start, limit, 0) == start);
    general::lemma_facts_counted(program, program.rules.len() as int);
    assert(program.rules.take(program.rules.len() as int) =~= program.rules);
    let facts = plan.facts + extra;
    assert forall|m: int| 0 <= m < facts.len() implies store.full[(
    #[trigger] facts[m]).0.0 as int].contains(facts[m].1) by {
        let r = facts[m].0.0 as int;
        if m < plan.facts.len() {
            assert(facts[m] == plan.facts[m]);
            assert(general::occurs(program, PredicateId(plan.facts[m].0.0)));
        } else {
            assert(facts[m] == extra[m - plan.facts.len()]);
        }
        assert(facts.contains(facts[m]));
        assert(RelationId(r as u32) == facts[m].0);
        assert(facts[m] == (RelationId(r as u32), facts[m].1));
        assert(start.full[r].contains(facts[m].1));
    }
    assert forall|i: int, v: spec_fn(u32) -> u32|
        0 <= i < program.rules.len() && program.rules[i].body.len() > 0 && #[trigger]
        positives_hold(program.rules[i], None, store, v) && negatives_hold(
            program.rules[i],
            store,
            v,
        ) implies head_holds(program.rules[i], store, v) by {
        let rule = program.rules[i];
        let k = lemma_rule_placed(program, schedule, i);
        assert(fits(program.rules[i], plan.predicate_count as int));
        lemma_stores_grow(program, groups, sccs, statistics, start, limit, k + 1, n);
        lemma_stores_grow(program, groups, sccs, statistics, start, limit, k, k);
        lemma_stores_grow(program, groups, sccs, statistics, start, limit, k + 1, k + 1);
        let before = store_after(sccs, start, limit, k);
        let after = store_after(sccs, start, limit, k + 1);
        assert forall|j: int| 0 <= j < rule.body.len() implies store.full[(
        #[trigger] rule.body[j]).atom.predicate.0 as int]
            == after.full[rule.body[j].atom.predicate.0 as int] by {
            let p = rule.body[j].atom.predicate;
            assert forall|m: int| k + 1 <= m < n implies !(#[trigger] groups[m]).contains(p) by {
                assert(program.rules[i].body[j] == rule.body[j]);
            }
        }
        assert(positives_hold(rule, None, after, v));
        lemma_negatives_depend(rule, store, after, v);
        lemma_store_step(sccs, start, limit, k);
        assert(evaluates(program, groups[k], sccs[k], statistics));
        law_component_is_closed(
            program,
            groups[k],
            sccs[k],
            statistics,
            before,
            limit,
            after,
            i,
            v,
        );
        assert(after.full[rule.head.predicate.0 as int].contains(head_tuple(rule, v)));
    }
}

/// A finished evaluation holds nothing else: it is part of every store that holds the facts and is
/// closed under the rules, where negation is read from the result.
pub proof fn law_result_is_least(
    program: ResolvedProgramView,
    plan: ProgramPlanView,
    extra: Seq<(RelationId, Seq<u32>)>,
    limit: usize,
    store: StoreView,
    other: StoreView,
)
    requires
        results_in(program, plan, extra, limit, store),
        other.full.len() == store.full.len(),
        holds_facts(general::fact_tuples(program.rules) + extra, other),
        closed_under(program, other, store),
    ensures
        included(store, other),
{
    let (schedule, groups) = lemma_evaluation(program, plan, extra, limit, store);
    let sccs = execution_general::all_sccs(plan.strata);
    let start = execution_general::fact_store(plan.predicate_count as nat, plan.facts + extra);
    assert(sccs.take(0) =~= Seq::empty());
    assert(store_after(sccs, start, limit, 0) == start);
    assert(included(start, other)) by {
        assert forall|r: int, t: Seq<u32>|
            0 <= r < start.full.len() && #[trigger] start.full[r].contains(
                t,
            ) implies other.full[r].contains(t) by {
            let key = (RelationId(r as u32), t);
            let facts = plan.facts + extra;
            let m = choose|m: int| 0 <= m < facts.len() && facts[m] == key;
            assert(other.full[facts[m].0.0 as int].contains(facts[m].1));
        }
    }
    lemma_prefix_included(
        program,
        schedule,
        groups,
        plan,
        start,
        limit,
        store,
        other,
        sccs.len() as int,
    );
}

proof fn lemma_prefix_included(
    program: ResolvedProgramView,
    schedule: ProgramSchedule,
    groups: Seq<Seq<PredicateId>>,
    plan: ProgramPlanView,
    start: StoreView,
    limit: usize,
    store: StoreView,
    other: StoreView,
    count: int,
)
    requires
        execution_general::run_sccs(execution_general::all_sccs(plan.strata), start, limit) is Some,
        start.full.len() == plan.predicate_count,
        start.delta.len() == plan.predicate_count,
        schedule::schedules(program, schedule),
        groups == schedule_laws::flat_groups(schedule.strata@),
        evaluate_all(
            program,
            groups,
            execution_general::all_sccs(plan.strata),
            statistics::fact_rows(plan.facts, plan.predicate_count),
        ),
        plan.predicate_count <= u32::MAX + 1,
        forall|i: int|
            0 <= i < program.rules.len() ==> fits(
                #[trigger] program.rules[i],
                plan.predicate_count as int,
            ),
        store == store_after(
            execution_general::all_sccs(plan.strata),
            start,
            limit,
            execution_general::all_sccs(plan.strata).len() as int,
        ),
        closed_under(program, other, store),
        included(start, other),
        0 <= count <= execution_general::all_sccs(plan.strata).len(),
    ensures
        included(
            store_after(
                execution_general::all_sccs(plan.strata),
                start,
                limit,
                count,
            ),
            other,
        ),
    decreases count,
{
    let sccs = execution_general::all_sccs(plan.strata);
    let statistics = statistics::fact_rows(plan.facts, plan.predicate_count);
    let n = sccs.len() as int;
    if count == 0 {
        assert(sccs.take(0) =~= Seq::empty());
    } else {
        let k = count - 1;
        lemma_prefix_included(
            program,
            schedule,
            groups,
            plan,
            start,
            limit,
            store,
            other,
            k,
        );
        lemma_store_step(sccs, start, limit, k);
        let before = store_after(sccs, start, limit, k);
        let after = store_after(sccs, start, limit, count);
        lemma_stores_grow(program, groups, sccs, statistics, start, limit, k, k);
        lemma_stores_grow(program, groups, sccs, statistics, start, limit, k, n);
        assert(evaluates(program, groups[k], sccs[k], statistics));
        assert forall|i: int, j: int|
            #![trigger program.rules[i].body[j]]
            0 <= i < program.rules.len() && 0 <= j < program.rules[i].body.len() && general::derives_into(
                program.rules[i],
                groups[k],
            )
                && program.rules[i].body[j].negated implies before.full[program.rules[i].body[j].atom.predicate.0 as int]
            == store.full[program.rules[i].body[j].atom.predicate.0 as int] by {
            let rule = program.rules[i];
            let p = rule.body[j].atom.predicate;
            let own = lemma_rule_placed(program, schedule, i);
            schedule_laws::law_components_partition(program, schedule, rule.head.predicate);
            assert(groups[own].contains(rule.head.predicate));
            assert(groups[k].contains(rule.head.predicate));
            assert(own == k);
            assert(fits(program.rules[i], plan.predicate_count as int));
            assert forall|m: int| k <= m < n implies !(#[trigger] groups[m]).contains(p) by {
                assert(program.rules[i].body[j].negated);
            }
        }
        assert forall|i: int| 0 <= i < program.rules.len() implies fits(
            #[trigger] program.rules[i],
            before.full.len() as int,
        ) by {}
        law_component_is_least(
            program,
            groups[k],
            sccs[k],
            statistics,
            before,
            limit,
            after,
            other,
            store,
        );
    }
}

} // verus!
