//! How the clauses of a plan follow from rules, and in which order their atoms are joined.
use vstd::prelude::*;

use crate::ast::{
    ResolvedAtomView, ResolvedLiteralView, ResolvedProgramView, ResolvedRuleView, ResolvedTerm,
};
use crate::catalog::PredicateId;
use crate::evaluation;
use crate::general;
use crate::graph;
use crate::graph::{Dependency, DependencyKind};
use crate::relational::{
    BindingId, ClauseView, PlanTerm, PlannedAtomView, ProgramPlanView, RelationId, RelationVersion,
    SccPlanView,
};
use crate::schedule;
use crate::schedule::ProgramSchedule;
use crate::statistics;

verus! {

/// Whether some atom has a variable.
pub open spec fn has_binding(atoms: Seq<PlannedAtomView>) -> bool {
    exists|c: int, y: int|
        0 <= c < atoms.len() && 0 <= y < atoms[c].terms.len() && (
        #[trigger] atoms[c].terms[y]) is Binding
}

/// Whether an atom has a variable in common with earlier atoms.
pub open spec fn is_linked(atom: PlannedAtomView, atoms: Seq<PlannedAtomView>) -> bool {
    exists|x: int, c: int, y: int|
        #![trigger atom.terms[x], atoms[c].terms[y]]
        0 <= x < atom.terms.len() && 0 <= c < atoms.len() && 0 <= y < atoms[c].terms.len()
            && atom.terms[x] is Binding && atom.terms[x] == atoms[c].terms[y]
}

/// Whether joining an atom next would not use what earlier atoms bound.
pub open spec fn is_detached(atom: PlannedAtomView, atoms: Seq<PlannedAtomView>) -> bool {
    has_binding(atoms) && !is_linked(atom, atoms)
}

/// Whether an atom may be joined before another one, after some: linked atoms come first, then those
/// with fewer expected rows, then those with the smaller relation, then those that stand first.
pub open spec fn may_precede(
    a: PlannedAtomView,
    b: PlannedAtomView,
    place_a: int,
    place_b: int,
    before: Seq<PlannedAtomView>,
    rows: Seq<usize>,
) -> bool {
    let x = statistics::atom_estimate(a, rows);
    let y = statistics::atom_estimate(b, rows);
    if is_detached(a, before) != is_detached(b, before) {
        is_detached(b, before)
    } else if x != y {
        x < y
    } else if a.relation.0 != b.relation.0 {
        a.relation.0 < b.relation.0
    } else {
        place_a < place_b
    }
}

/// The atoms at some places.
pub open spec fn at_places(atoms: Seq<PlannedAtomView>, places: Seq<int>) -> Seq<PlannedAtomView> {
    Seq::new(places.len(), |k: int| atoms[places[k]])
}

proof fn lemma_detached(atom: PlannedAtomView, atoms: Seq<PlannedAtomView>, rows: Seq<usize>)
    ensures
        statistics::join_rank(atom, atoms, rows).0 == is_detached(atom, atoms),
{
    assert(has_binding(atoms) <==> exists|b: u32| #[trigger] evaluation::bound_by(atoms, b)) by {
        if has_binding(atoms) {
            let (c, y) = choose|c: int, y: int|
                0 <= c < atoms.len() && 0 <= y < atoms[c].terms.len() && (
                #[trigger] atoms[c].terms[y]) is Binding;
            let b = atoms[c].terms[y]->Binding_0.0;
            assert(atoms[c].terms[y] == PlanTerm::Binding(BindingId(b)));
            assert(evaluation::uses(atoms[c].terms, b));
            assert(evaluation::bound_by(atoms, b));
        }
        if exists|b: u32| #[trigger] evaluation::bound_by(atoms, b) {
            let b = choose|b: u32| #[trigger] evaluation::bound_by(atoms, b);
            let c = choose|c: int|
                0 <= c < atoms.len() && evaluation::uses((#[trigger] atoms[c]).terms, b);
            let y = choose|y: int|
                0 <= y < atoms[c].terms.len() && atoms[c].terms[y] == PlanTerm::Binding(
                    BindingId(b),
                );
            assert(atoms[c].terms[y] is Binding);
        }
    }
    assert(is_linked(atom, atoms) <==> exists|b: u32| #[trigger]
        evaluation::uses(atom.terms, b) && evaluation::bound_by(atoms, b)) by {
        if is_linked(atom, atoms) {
            let (x, c, y) = choose|x: int, c: int, y: int|
                #![trigger atom.terms[x], atoms[c].terms[y]]
                0 <= x < atom.terms.len() && 0 <= c < atoms.len() && 0 <= y < atoms[c].terms.len()
                    && atom.terms[x] is Binding && atom.terms[x] == atoms[c].terms[y];
            let b = atom.terms[x]->Binding_0.0;
            assert(atom.terms[x] == PlanTerm::Binding(BindingId(b)));
            assert(evaluation::uses(atom.terms, b));
            assert(evaluation::uses(atoms[c].terms, b));
            assert(evaluation::bound_by(atoms, b));
        }
        if exists|b: u32| #[trigger]
            evaluation::uses(atom.terms, b) && evaluation::bound_by(atoms, b) {
            let b = choose|b: u32| #[trigger]
                evaluation::uses(atom.terms, b) && evaluation::bound_by(atoms, b);
            let x = choose|x: int|
                0 <= x < atom.terms.len() && atom.terms[x] == PlanTerm::Binding(BindingId(b));
            let c = choose|c: int|
                0 <= c < atoms.len() && evaluation::uses((#[trigger] atoms[c]).terms, b);
            let y = choose|y: int|
                0 <= y < atoms[c].terms.len() && atoms[c].terms[y] == PlanTerm::Binding(
                    BindingId(b),
                );
            assert(atom.terms[x] is Binding && atom.terms[x] == atoms[c].terms[y]);
        }
    }
}

proof fn lemma_best(
    atoms: Seq<PlannedAtomView>,
    chosen: Seq<PlannedAtomView>,
    rows: Seq<usize>,
    count: nat,
)
    requires
        0 < count <= atoms.len(),
    ensures
        ({
            let best = statistics::best_position(atoms, chosen, rows, count);
            &&& 0 <= best < count
            &&& forall|m: int|
                0 <= m < count && m != best ==> may_precede(
                    atoms[best],
                    #[trigger] atoms[m],
                    best,
                    m,
                    chosen,
                    rows,
                )
        }),
    decreases count,
{
    lemma_detached(atoms[count - 1], chosen, rows);
    if count > 1 {
        let earlier = statistics::best_position(atoms, chosen, rows, (count - 1) as nat);
        lemma_best(atoms, chosen, rows, (count - 1) as nat);
        lemma_detached(atoms[earlier], chosen, rows);
        let best = statistics::best_position(atoms, chosen, rows, count);
        assert forall|m: int| 0 <= m < count && m != best implies may_precede(
            atoms[best],
            #[trigger] atoms[m],
            best,
            m,
            chosen,
            rows,
        ) by {
            if m < count - 1 && m != earlier {
                assert(may_precede(atoms[earlier], atoms[m], earlier, m, chosen, rows));
            }
        }
    }
}

proof fn lemma_order(
    atoms: Seq<PlannedAtomView>,
    left: Seq<int>,
    done: Seq<int>,
    rows: Seq<usize>,
) -> (places: Seq<int>)
    requires
        forall|k: int| 0 <= k < left.len() ==> 0 <= #[trigger] left[k] < atoms.len(),
        forall|k: int| 0 <= k < done.len() ==> 0 <= #[trigger] done[k] < atoms.len(),
        forall|k: int, l: int|
            #![trigger left[k], left[l]]
            0 <= k < l < left.len() ==> left[k] < left[l],
    ensures
        statistics::join_order(at_places(atoms, left), at_places(atoms, done), rows) == at_places(
            atoms,
            places,
        ),
        places.len() == done.len() + left.len(),
        forall|k: int| 0 <= k < done.len() ==> #[trigger] places[k] == done[k],
        forall|k: int| done.len() <= k < places.len() ==> left.contains(#[trigger] places[k]),
        forall|i: int, j: int|
            #![trigger places[i], places[j]]
            done.len() <= i < j < places.len() ==> places[i] != places[j] && may_precede(
                atoms[places[i]],
                atoms[places[j]],
                places[i],
                places[j],
                at_places(atoms, places).take(i),
                rows,
            ),
    decreases left.len(),
{
    let remaining = at_places(atoms, left);
    let chosen = at_places(atoms, done);
    if left.len() == 0 {
        done
    } else {
        let best = statistics::best_position(remaining, chosen, rows, remaining.len());
        lemma_best(remaining, chosen, rows, remaining.len());
        let rest = left.remove(best);
        let more = done.push(left[best]);
        assert(at_places(atoms, rest) =~= remaining.remove(best));
        assert(at_places(atoms, more) =~= chosen.push(remaining[best]));
        let places = lemma_order(atoms, rest, more, rows);
        let n = done.len() as int;
        assert(places[n] == more[n]);
        assert forall|k: int| done.len() <= k < places.len() implies left.contains(
            #[trigger] places[k],
        ) by {
            if k > n {
                assert(rest.contains(places[k]));
                let m = choose|m: int| 0 <= m < rest.len() && rest[m] == places[k];
                let o = if m < best {
                    m
                } else {
                    m + 1
                };
                assert(left[o] == places[k]);
            }
        }
        assert(at_places(atoms, places).take(n) =~= chosen) by {
            assert forall|k: int| 0 <= k < n implies at_places(atoms, places).take(n)[k]
                == chosen[k] by {
                assert(places[k] == more[k]);
            }
        }
        assert forall|i: int, j: int|
            #![trigger places[i], places[j]]
            done.len() <= i < j < places.len() implies places[i] != places[j] && may_precede(
            atoms[places[i]],
            atoms[places[j]],
            places[i],
            places[j],
            at_places(atoms, places).take(i),
            rows,
        ) by {
            if i == n {
                assert(rest.contains(places[j]));
                let m = choose|m: int| 0 <= m < rest.len() && rest[m] == places[j];
                let o = if m < best {
                    m
                } else {
                    m + 1
                };
                assert(left[o] == places[j]);
                assert(o != best);
                assert(may_precede(remaining[best], remaining[o], best, o, chosen, rows));
                if o < best {
                    assert(left[o] < left[best]);
                } else {
                    assert(left[best] < left[o]);
                }
            }
        }
        assert forall|k: int| 0 <= k < done.len() implies #[trigger] places[k] == done[k] by {
            assert(places[k] == more[k]);
        }
        places
    }
}

/// The atoms of an optimized clause are those of the clause, each at a place of its own, and each is
/// one that may be joined before all that come after it.
pub proof fn law_join_order(before: ClauseView, after: ClauseView, rows: Seq<usize>) -> (places: Seq<
    int,
>)
    requires
        statistics::is_optimized(before, after, rows),
    ensures
        after.target == before.target,
        after.head == before.head,
        after.negative == before.negative,
        places.len() == before.positive.len(),
        after.positive.len() == places.len(),
        forall|k: int|
            0 <= k < places.len() ==> 0 <= (#[trigger] places[k]) < before.positive.len()
                && after.positive[k] == before.positive[places[k]],
        forall|i: int, j: int|
            #![trigger places[i], places[j]]
            0 <= i < j < places.len() ==> places[i] != places[j] && may_precede(
                after.positive[i],
                after.positive[j],
                places[i],
                places[j],
                after.positive.take(i),
                rows,
            ),
{
    let atoms = before.positive;
    let left = Seq::new(atoms.len(), |k: int| k);
    let none = Seq::<int>::empty();
    let places = lemma_order(atoms, left, none, rows);
    assert(at_places(atoms, left) =~= atoms);
    assert(at_places(atoms, none) =~= Seq::<PlannedAtomView>::empty());
    assert(after.positive == at_places(atoms, places));
    assert forall|k: int| 0 <= k < places.len() implies 0 <= (#[trigger] places[k])
        < before.positive.len() && after.positive[k] == before.positive[places[k]] by {
        assert(left.contains(places[k]));
    }
    places
}

/// After each atom, exactly those variables are kept, in ascending order, that an atom up to there
/// has and that the head, a negated atom or a later atom has too.
pub proof fn law_kept_variables(
    before: ClauseView,
    after: ClauseView,
    rows: Seq<usize>,
    i: int,
    variable: u32,
)
    requires
        statistics::is_optimized(before, after, rows),
        0 <= i < after.positive.len(),
    ensures
        after.live_after.len() == after.positive.len(),
        forall|k: int, l: int|
            0 <= k < l < after.live_after[i].len() ==> after.live_after[i][k].0
                < after.live_after[i][l].0,
        after.live_after[i].contains(BindingId(variable)) <==> {
            let term = PlanTerm::Binding(BindingId(variable));
            &&& exists|k: int|
                0 <= k <= i && (#[trigger] after.positive[k]).terms.contains(term)
            &&& (after.head.contains(term) || (exists|k: int|
                0 <= k < after.negative.len() && (#[trigger] after.negative[k]).terms.contains(
                    term,
                )) || (exists|k: int|
                i < k < after.positive.len() && (#[trigger] after.positive[k]).terms.contains(
                    term,
                )))
        },
{
    let term = PlanTerm::Binding(BindingId(variable));
    let first = after.positive.take(i + 1);
    let later = after.positive.skip(i + 1);
    assert(statistics::ascending_bindings(after.live_after[i]));
    assert(evaluation::bound_by(first, variable) <==> exists|k: int|
        0 <= k <= i && (#[trigger] after.positive[k]).terms.contains(term)) by {
        if exists|k: int| 0 <= k <= i && (#[trigger] after.positive[k]).terms.contains(term) {
            let k = choose|k: int|
                0 <= k <= i && (#[trigger] after.positive[k]).terms.contains(term);
            assert(evaluation::uses(first[k].terms, variable));
        }
        if evaluation::bound_by(first, variable) {
            let k = choose|k: int|
                0 <= k < first.len() && evaluation::uses((#[trigger] first[k]).terms, variable);
            assert(after.positive[k].terms.contains(term));
        }
    }
    assert(evaluation::bound_by(later, variable) <==> exists|k: int|
        i < k < after.positive.len() && (#[trigger] after.positive[k]).terms.contains(term)) by {
        if exists|k: int|
            i < k < after.positive.len() && (#[trigger] after.positive[k]).terms.contains(term) {
            let k = choose|k: int|
                i < k < after.positive.len() && (#[trigger] after.positive[k]).terms.contains(term);
            assert(later[k - i - 1] == after.positive[k]);
            assert(evaluation::uses(later[k - i - 1].terms, variable));
        }
        if evaluation::bound_by(later, variable) {
            let k = choose|k: int|
                0 <= k < later.len() && evaluation::uses((#[trigger] later[k]).terms, variable);
            assert(after.positive[k + i + 1].terms.contains(term));
        }
    }
    assert(evaluation::bound_by(after.negative, variable) <==> exists|k: int|
        0 <= k < after.negative.len() && (#[trigger] after.negative[k]).terms.contains(term)) by {
        if exists|k: int|
            0 <= k < after.negative.len() && (#[trigger] after.negative[k]).terms.contains(term) {
            let k = choose|k: int|
                0 <= k < after.negative.len() && (#[trigger] after.negative[k]).terms.contains(
                    term,
                );
            assert(evaluation::uses(after.negative[k].terms, variable));
        }
    }
}

/// The clause of a rule has the rule's head, and its literals in order: the positive ones and the
/// negated ones apart. At most one reads the newest tuples.
pub proof fn law_rule_clauses(
    rule: ResolvedRuleView,
    literal: ResolvedLiteralView,
    delta: Option<int>,
)
    ensures
        ({
            let clause = general::rule_clause(rule, delta);
            let terms = |atom: ResolvedAtomView|
                Seq::new(
                    atom.terms.len(),
                    |k: int|
                        match atom.terms[k] {
                            ResolvedTerm::Variable(variable) => PlanTerm::Binding(
                                BindingId(variable.0),
                            ),
                            ResolvedTerm::Value(value) => PlanTerm::Value(value.0),
                        },
                );
            let longer = general::rule_clause(
                ResolvedRuleView { body: rule.body.push(literal), ..rule },
                delta,
            );
            let added = PlannedAtomView {
                relation: RelationId(literal.atom.predicate.0),
                version: if delta == Some(rule.body.len() as int) {
                    RelationVersion::Delta
                } else {
                    RelationVersion::Full
                },
                terms: terms(literal.atom),
            };
            &&& clause.target == RelationId(rule.head.predicate.0)
            &&& clause.head == terms(rule.head)
            &&& rule.body.len() == 0 ==> clause.positive.len() == 0 && clause.negative.len() == 0
            &&& literal.negated ==> longer.positive == clause.positive && longer.negative
                == clause.negative.push(added)
            &&& !literal.negated ==> longer.positive == clause.positive.push(added)
                && longer.negative == clause.negative
        }),
{
    assert(rule.body.push(literal).drop_last() =~= rule.body);
    let terms = |atom: ResolvedAtomView|
        Seq::new(
            atom.terms.len(),
            |k: int|
                match atom.terms[k] {
                    ResolvedTerm::Variable(variable) => PlanTerm::Binding(BindingId(variable.0)),
                    ResolvedTerm::Value(value) => PlanTerm::Value(value.0),
                },
        );
    assert(terms(rule.head) =~= general::plan_terms_of(rule.head.terms));
    assert(terms(literal.atom) =~= general::plan_terms_of(literal.atom.terms));
}

/// The clauses of a component come from the rules for its predicates, in order. A rule none of whose
/// positive literals is about the component is a seed; another one has a variant for each of
/// its positive literals that is, in order, which reads the newest tuples there.
pub proof fn law_component_clauses(
    rules: Seq<ResolvedRuleView>,
    rule: ResolvedRuleView,
    group: Seq<PredicateId>,
) -> (positions: Seq<int>)
    ensures
        general::seed_clauses(Seq::empty(), group).len() == 0,
        general::variant_clauses(Seq::empty(), group).len() == 0,
        forall|k: int, l: int|
            #![trigger positions[k], positions[l]]
            0 <= k < l < positions.len() ==> positions[k] < positions[l],
        forall|p: int| #[trigger]
            positions.contains(p) <==> 0 <= p < rule.body.len() && !rule.body[p].negated
                && group.contains(rule.body[p].atom.predicate),
        ({
            let seeds = general::seed_clauses(rules, group);
            let variants = general::variant_clauses(rules, group);
            let derives = rule.body.len() > 0 && group.contains(rule.head.predicate);
            &&& general::seed_clauses(rules.push(rule), group) == if derives && positions.len()
                == 0 {
                seeds.push(general::rule_clause(rule, None))
            } else {
                seeds
            }
            &&& general::variant_clauses(rules.push(rule), group) == if derives {
                variants + Seq::new(
                    positions.len(),
                    |k: int| general::rule_clause(rule, Some(positions[k])),
                )
            } else {
                variants
            }
        }),
{
    let positions = general::recursive_positions(rule.body, group);
    assert(rules.push(rule).drop_last() =~= rules);
    lemma_positions_ascend(rule.body, group);
    assert forall|p: int| #[trigger] positions.contains(p) <==> 0 <= p < rule.body.len()
        && !rule.body[p].negated && group.contains(rule.body[p].atom.predicate) by {
        general::lemma_recursive_positions(rule.body, group, p);
    }
    positions
}

proof fn lemma_positions_ascend(body: Seq<ResolvedLiteralView>, group: Seq<PredicateId>)
    ensures
        ({
            let positions = general::recursive_positions(body, group);
            &&& forall|k: int, l: int|
                #![trigger positions[k], positions[l]]
                0 <= k < l < positions.len() ==> positions[k] < positions[l]
            &&& forall|k: int| 0 <= k < positions.len() ==> (#[trigger] positions[k]) < body.len()
        }),
    decreases body.len(),
{
    if body.len() > 0 {
        lemma_positions_ascend(body.drop_last(), group);
        let positions = general::recursive_positions(body, group);
        let earlier = general::recursive_positions(body.drop_last(), group);
        assert forall|k: int| 0 <= k < positions.len() implies (#[trigger] positions[k])
            < body.len() by {
            if k < earlier.len() {
                assert(positions[k] == earlier[k]);
            }
        }
        assert forall|k: int, l: int|
            #![trigger positions[k], positions[l]]
            0 <= k < l < positions.len() implies positions[k] < positions[l] by {
            assert(positions[k] == earlier[k]);
            if l < earlier.len() {
                assert(positions[l] == earlier[l]);
            }
        }
    }
}

/// A component is recursive if it has several predicates, or one that a rule derives from itself.
pub proof fn law_recursive_components(
    program: ResolvedProgramView,
    plan: ProgramPlanView,
    s: int,
    c: int,
)
    requires
        general::lowers(program, plan),
        0 <= s < plan.strata.len(),
        0 <= c < plan.strata[s].sccs.len(),
    ensures
        ({
            let scc = plan.strata[s].sccs[c];
            let own = scc.relations[0].0;
            &&& scc.relations.len() > 0
            &&& forall|k: int, l: int|
                #![trigger scc.relations[k], scc.relations[l]]
                0 <= k < l < scc.relations.len() ==> scc.relations[k].0 < scc.relations[l].0
            &&& scc.recursive <==> scc.relations.len() > 1 || exists|i: int, j: int|
                0 <= i < program.rules.len() && 0 <= j < program.rules[i].body.len() && !(
                #[trigger] program.rules[i].body[j]).negated
                    && program.rules[i].body[j].atom.predicate.0 == own
                    && program.rules[i].head.predicate.0 == own
        }),
{
    let plan_schedule = choose|plan_schedule: ProgramSchedule| #[trigger]
        schedule::schedules(program, plan_schedule) && general::strata_lowered(
            program,
            plan_schedule.strata@,
            plan.strata,
            statistics::fact_rows(plan.facts, plan.predicate_count),
        );
    let deps = schedule::program_dependencies(program);
    let order = choose|order: Seq<Seq<PredicateId>>| #[trigger]
        schedule::is_evaluation_order(program, order) && schedule::follows_order(
            deps,
            order,
            plan_schedule.strata@,
        );
    let scheduled = plan_schedule.strata@[s].sccs@[c];
    let group = scheduled.predicates@;
    assert(plan.strata[s].index == plan_schedule.strata@[s].index);
    assert(general::scc_lowered(
        program,
        scheduled,
        plan.strata[s].sccs[c],
        statistics::fact_rows(plan.facts, plan.predicate_count),
    ));
    let listed = schedule::groups_of(plan_schedule.strata@[s].sccs@);
    assert(listed[c] == group);
    lemma_at_level(deps, order, plan_schedule.strata@[s].index as nat, c);
    let k = choose|k: int| 0 <= k < order.len() && order[k] == group;
    assert(schedule::is_component(program, deps, order[k]));
    let itself = Dependency {
        head: group[0],
        body: group[0],
        kind: DependencyKind::Positive,
    };
    schedule::lemma_program_dependencies_contain(program, itself);
    let own = group[0].0;
    assert(plan.strata[s].sccs[c].relations[0].0 == own);
    assert(deps.contains(itself) <==> exists|i: int, j: int|
        0 <= i < program.rules.len() && 0 <= j < program.rules[i].body.len() && !(
        #[trigger] program.rules[i].body[j]).negated && program.rules[i].body[j].atom.predicate.0
            == own && program.rules[i].head.predicate.0 == own) by {
        if deps.contains(itself) {
            let (i, j) = choose|i: int, j: int|
                #![trigger program.rules[i].body[j]]
                0 <= i < program.rules.len() && 0 <= j < program.rules[i].body.len() && itself
                    == schedule::literal_dependency(
                    program.rules[i].head.predicate,
                    program.rules[i].body[j],
                );
            assert(!program.rules[i].body[j].negated);
        }
        if exists|i: int, j: int|
            0 <= i < program.rules.len() && 0 <= j < program.rules[i].body.len() && !(
            #[trigger] program.rules[i].body[j]).negated
                && program.rules[i].body[j].atom.predicate.0 == own
                && program.rules[i].head.predicate.0 == own {
            let (i, j) = choose|i: int, j: int|
                0 <= i < program.rules.len() && 0 <= j < program.rules[i].body.len() && !(
                #[trigger] program.rules[i].body[j]).negated
                    && program.rules[i].body[j].atom.predicate.0 == own
                    && program.rules[i].head.predicate.0 == own;
            assert(itself == schedule::literal_dependency(
                program.rules[i].head.predicate,
                program.rules[i].body[j],
            ));
        }
    }
}

proof fn lemma_at_level(
    deps: Seq<Dependency>,
    order: Seq<Seq<PredicateId>>,
    level: nat,
    c: int,
)
    requires
        0 <= c < schedule::at_level(deps, order, level).len(),
    ensures
        exists|k: int| 0 <= k < order.len() && order[k] == schedule::at_level(
            deps,
            order,
            level,
        )[c],
    decreases order.len(),
{
    let rest = order.drop_last();
    let earlier = schedule::at_level(deps, rest, level);
    let found = schedule::at_level(deps, order, level)[c];
    if c < earlier.len() {
        lemma_at_level(deps, rest, level, c);
        let k = choose|k: int| 0 <= k < rest.len() && rest[k] == earlier[c];
        assert(order[k] == found);
    } else {
        assert(order[order.len() - 1] == found);
    }
}

/// A predicate depends on another where a rule for it has a literal about the other, negatively
/// where the literal is negated.
pub proof fn law_dependencies(program: ResolvedProgramView, head: PredicateId, body: PredicateId)
    ensures
        ({
            let deps = schedule::program_dependencies(program);
            &&& deps.contains(Dependency { head, body, kind: DependencyKind::Positive })
                <==> exists|i: int, j: int|
                0 <= i < program.rules.len() && 0 <= j < program.rules[i].body.len() && !(
                #[trigger] program.rules[i].body[j]).negated
                    && program.rules[i].body[j].atom.predicate == body
                    && program.rules[i].head.predicate == head
            &&& deps.contains(Dependency { head, body, kind: DependencyKind::Negative })
                <==> exists|i: int, j: int|
                0 <= i < program.rules.len() && 0 <= j < program.rules[i].body.len() && (
                #[trigger] program.rules[i].body[j]).negated
                    && program.rules[i].body[j].atom.predicate == body
                    && program.rules[i].head.predicate == head
        }),
{
    lemma_dependency(program, head, body, false);
    lemma_dependency(program, head, body, true);
}

proof fn lemma_dependency(
    program: ResolvedProgramView,
    head: PredicateId,
    body: PredicateId,
    negated: bool,
)
    ensures
        schedule::program_dependencies(program).contains(
            Dependency {
                head,
                body,
                kind: if negated {
                    DependencyKind::Negative
                } else {
                    DependencyKind::Positive
                },
            },
        ) <==> exists|i: int, j: int|
            0 <= i < program.rules.len() && 0 <= j < program.rules[i].body.len() && (
            #[trigger] program.rules[i].body[j]).negated == negated
                && program.rules[i].body[j].atom.predicate == body
                && program.rules[i].head.predicate == head,
{
    let dep = Dependency {
        head,
        body,
        kind: if negated {
            DependencyKind::Negative
        } else {
            DependencyKind::Positive
        },
    };
    schedule::lemma_program_dependencies_contain(program, dep);
    if schedule::program_dependencies(program).contains(dep) {
        let (i, j) = choose|i: int, j: int|
            #![trigger program.rules[i].body[j]]
            0 <= i < program.rules.len() && 0 <= j < program.rules[i].body.len() && dep
                == schedule::literal_dependency(
                program.rules[i].head.predicate,
                program.rules[i].body[j],
            );
        assert(program.rules[i].body[j].negated == negated);
    }
    if exists|i: int, j: int|
        0 <= i < program.rules.len() && 0 <= j < program.rules[i].body.len() && (
        #[trigger] program.rules[i].body[j]).negated == negated
            && program.rules[i].body[j].atom.predicate == body && program.rules[i].head.predicate
            == head {
        let (i, j) = choose|i: int, j: int|
            0 <= i < program.rules.len() && 0 <= j < program.rules[i].body.len() && (
            #[trigger] program.rules[i].body[j]).negated == negated
                && program.rules[i].body[j].atom.predicate == body
                && program.rules[i].head.predicate == head;
        assert(dep == schedule::literal_dependency(
            program.rules[i].head.predicate,
            program.rules[i].body[j],
        ));
    }
}

/// A literal more gives at most one dependency more, at the end.
pub proof fn law_dependencies_in_order(
    rules: Seq<ResolvedRuleView>,
    rule: ResolvedRuleView,
    literal: ResolvedLiteralView,
)
    ensures
        ({
            let less = schedule::first_occurrences(
                schedule::rules_dependencies(rules.push(rule)),
            );
            let more = schedule::first_occurrences(
                schedule::rules_dependencies(
                    rules.push(ResolvedRuleView { body: rule.body.push(literal), ..rule }),
                ),
            );
            let dep = Dependency {
                head: rule.head.predicate,
                body: literal.atom.predicate,
                kind: if literal.negated {
                    DependencyKind::Negative
                } else {
                    DependencyKind::Positive
                },
            };
            &&& less.contains(dep) ==> more == less
            &&& !less.contains(dep) ==> more == less.push(dep)
            &&& rule.body.len() == 0 ==> less == schedule::first_occurrences(
                schedule::rules_dependencies(rules),
            )
        }),
        schedule::first_occurrences(schedule::rules_dependencies(Seq::empty())).len() == 0,
{
    let longer = ResolvedRuleView { body: rule.body.push(literal), ..rule };
    let a = schedule::rules_dependencies(rules.push(rule));
    let b = schedule::rules_dependencies(rules.push(longer));
    assert(rules.push(rule).drop_last() =~= rules);
    assert(rules.push(longer).drop_last() =~= rules);
    let dep = schedule::literal_dependency(rule.head.predicate, literal);
    assert(schedule::rule_dependencies(longer) =~= schedule::rule_dependencies(rule).push(dep));
    assert(b =~= a.push(dep));
    assert(b.drop_last() =~= a);
    if rule.body.len() == 0 {
        assert(schedule::rule_dependencies(rule) =~= Seq::empty());
        assert(a =~= schedule::rules_dependencies(rules));
    }
}

/// Whether a dependency starts where the one before it ends.
pub open spec fn continues(walk: Seq<Dependency>, i: int) -> bool {
    walk[i].head == walk[i - 1].body
}

/// Whether dependencies lead from one predicate to another, each starting where the one before it
/// ends.
pub open spec fn leads(
    deps: Seq<Dependency>,
    walk: Seq<Dependency>,
    from: PredicateId,
    to: PredicateId,
) -> bool {
    &&& forall|i: int| 0 <= i < walk.len() ==> deps.contains(#[trigger] walk[i])
    &&& forall|i: int| 0 < i < walk.len() ==> #[trigger] continues(walk, i)
    &&& walk.len() == 0 ==> from == to
    &&& walk.len() > 0 ==> walk[0].head == from && walk[walk.len() - 1].body == to
}

/// The negative dependencies among some.
pub open spec fn negative_count(walk: Seq<Dependency>) -> nat {
    walk.filter(|dep: Dependency| dep.kind == DependencyKind::Negative).len()
}

proof fn lemma_leads(
    deps: Seq<Dependency>,
    walk: Seq<Dependency>,
    from: PredicateId,
    to: PredicateId,
)
    ensures
        graph::is_walk(deps, walk, from, to) <==> leads(deps, walk, from, to),
    decreases walk.len(),
{
    if walk.len() > 0 {
        let rest = walk.drop_first();
        lemma_leads(deps, rest, walk[0].body, to);
        if leads(deps, walk, from, to) {
            assert forall|i: int| 0 <= i < rest.len() implies deps.contains(
                #[trigger] rest[i],
            ) by {
                assert(deps.contains(walk[i + 1]));
            }
            assert forall|i: int| 0 < i < rest.len() implies #[trigger] continues(rest, i) by {
                assert(continues(walk, i + 1));
            }
            if rest.len() > 0 {
                assert(continues(walk, 1));
                assert(rest[rest.len() - 1] == walk[walk.len() - 1]);
            }
            assert(deps.contains(walk[0]));
        }
        if graph::is_walk(deps, walk, from, to) {
            assert(leads(deps, rest, walk[0].body, to));
            assert forall|i: int| 0 <= i < walk.len() implies deps.contains(
                #[trigger] walk[i],
            ) by {
                if i > 0 {
                    assert(deps.contains(rest[i - 1]));
                }
            }
            assert forall|i: int| 0 < i < walk.len() implies #[trigger] continues(walk, i) by {
                if i > 1 {
                    assert(continues(rest, i - 1));
                } else {
                    assert(rest[0] == walk[1]);
                }
            }
        }
    }
}

proof fn lemma_negative_count(walk: Seq<Dependency>)
    ensures
        graph::negations(walk) == negative_count(walk),
    decreases walk.len(),
{
    let negative = |dep: Dependency| dep.kind == DependencyKind::Negative;
    reveal(Seq::filter);
    if walk.len() > 0 {
        let rest = walk.drop_first();
        lemma_negative_count(rest);
        let first = seq![walk[0]];
        assert(walk =~= first + rest);
        Seq::filter_distributes_over_add(first, rest, negative);
        assert(first.drop_last() =~= Seq::empty());
        assert(Seq::<Dependency>::empty().filter(negative).len() == 0);
        assert(first.last() == walk[0]);
        assert(first.filter(negative).len() == if negative(walk[0]) {
            1nat
        } else {
            0nat
        });
    }
}

/// A component has the number of the stratum that says how many negations a walk along dependencies
/// from it can meet at most.
pub proof fn law_stratum_numbers(program: ResolvedProgramView, plan: ProgramPlanView, s: int, c: int)
    requires
        general::lowers(program, plan),
        0 <= s < plan.strata.len(),
        0 <= c < plan.strata[s].sccs.len(),
    ensures
        ({
            let deps = schedule::program_dependencies(program);
            let own = PredicateId(plan.strata[s].sccs[c].relations[0].0);
            let level = plan.strata[s].index as nat;
            &&& exists|walk: Seq<Dependency>, to: PredicateId| #[trigger]
                leads(deps, walk, own, to) && negative_count(walk) == level
            &&& forall|walk: Seq<Dependency>, to: PredicateId| #[trigger]
                leads(deps, walk, own, to) ==> negative_count(walk) <= level
        }),
        forall|t: int|
            #![trigger plan.strata[t]]
            0 <= t < s ==> plan.strata[t].index < plan.strata[s].index,
{
    let found = choose|found: ProgramSchedule| #[trigger]
        schedule::schedules(program, found) && general::strata_lowered(
            program,
            found.strata@,
            plan.strata,
            statistics::fact_rows(plan.facts, plan.predicate_count),
        );
    let deps = schedule::program_dependencies(program);
    let order = choose|order: Seq<Seq<PredicateId>>| #[trigger]
        schedule::is_evaluation_order(program, order) && schedule::follows_order(
            deps,
            order,
            found.strata@,
        );
    let scheduled = found.strata@[s].sccs@[c];
    let group = scheduled.predicates@;
    let level = found.strata@[s].index as nat;
    assert(plan.strata[s].index == found.strata@[s].index);
    assert(general::scc_lowered(
        program,
        scheduled,
        plan.strata[s].sccs[c],
        statistics::fact_rows(plan.facts, plan.predicate_count),
    ));
    assert(schedule::groups_of(found.strata@[s].sccs@)[c] == group);
    lemma_at_level(deps, order, level, c);
    lemma_is_at_level(deps, order, level, c);
    let k = choose|k: int| 0 <= k < order.len() && order[k] == group;
    assert(schedule::is_component(program, deps, order[k]));
    let own = PredicateId(plan.strata[s].sccs[c].relations[0].0);
    assert(own == group[0]);
    assert(graph::is_level(deps, own, level));
    let (walk, to) = choose|walk: Seq<Dependency>, to: PredicateId| #[trigger]
        graph::is_walk(deps, walk, own, to) && graph::negations(walk) == level;
    lemma_leads(deps, walk, own, to);
    lemma_negative_count(walk);
    assert(leads(deps, walk, own, to) && negative_count(walk) == level);
    assert forall|walk: Seq<Dependency>, to: PredicateId| #[trigger]
        leads(deps, walk, own, to) implies negative_count(walk) <= level by {
        lemma_leads(deps, walk, own, to);
        lemma_negative_count(walk);
    }
    assert forall|t: int|
        #![trigger plan.strata[t]]
        0 <= t < s implies plan.strata[t].index < plan.strata[s].index by {
        assert(found.strata@[t].index < found.strata@[s].index);
    }
}

proof fn lemma_is_at_level(
    deps: Seq<Dependency>,
    order: Seq<Seq<PredicateId>>,
    level: nat,
    c: int,
)
    requires
        0 <= c < schedule::at_level(deps, order, level).len(),
    ensures
        graph::is_level(deps, schedule::at_level(deps, order, level)[c][0], level),
    decreases order.len(),
{
    let rest = order.drop_last();
    if c < schedule::at_level(deps, rest, level).len() {
        lemma_is_at_level(deps, rest, level, c);
    }
}

/// Whether the rules for some relations only have literals about these relations, or about those of
/// some components.
pub open spec fn reads_only(
    program: ResolvedProgramView,
    own: Seq<RelationId>,
    earlier: Seq<SccPlanView>,
) -> bool {
    forall|i: int, j: int|
        #![trigger program.rules[i].body[j]]
        0 <= i < program.rules.len() && 0 <= j < program.rules[i].body.len() && own.contains(
            RelationId(program.rules[i].head.predicate.0),
        ) ==> {
            let read = RelationId(program.rules[i].body[j].atom.predicate.0);
            own.contains(read) || exists|e: int|
                0 <= e < earlier.len() && (#[trigger] earlier[e]).relations.contains(read)
        }
}

/// A component comes behind another one of its stratum, though it could be evaluated before it, only
/// if its first relation has the larger number.
pub proof fn law_component_order(
    program: ResolvedProgramView,
    plan: ProgramPlanView,
    s: int,
    a: int,
    b: int,
)
    requires
        general::lowers(program, plan),
        0 <= s < plan.strata.len(),
        0 <= a < b < plan.strata[s].sccs.len(),
        reads_only(program, plan.strata[s].sccs[b].relations, plan.strata[s].sccs.take(a)),
    ensures
        plan.strata[s].sccs[a].relations[0].0 < plan.strata[s].sccs[b].relations[0].0,
{
    let found = choose|found: ProgramSchedule| #[trigger]
        schedule::schedules(program, found) && general::strata_lowered(
            program,
            found.strata@,
            plan.strata,
            statistics::fact_rows(plan.facts, plan.predicate_count),
        );
    let deps = schedule::program_dependencies(program);
    let order = choose|order: Seq<Seq<PredicateId>>| #[trigger]
        schedule::is_evaluation_order(program, order) && schedule::follows_order(
            deps,
            order,
            found.strata@,
        );
    let sccs = found.strata@[s].sccs@;
    let planned = plan.strata[s].sccs;
    let level = found.strata@[s].index as nat;
    let groups = schedule::groups_of(sccs);
    assert(plan.strata[s].index == found.strata@[s].index);
    assert forall|c: int| 0 <= c < planned.len() implies (#[trigger] planned[c]).relations
        == general::relations_of(groups[c]) by {
        assert(general::scc_lowered(
            program,
            sccs[c],
            plan.strata[s].sccs[c],
            statistics::fact_rows(plan.facts, plan.predicate_count),
        ));
    }
    let k = lemma_level_place(deps, order, level, a);
    let l = lemma_level_place(deps, order, level, b);
    lemma_level_order(deps, order, level, a, b, k, l);
    let group = order[l];
    assert(group == groups[b]);
    assert(schedule::is_component(program, deps, order[k]));
    assert(schedule::is_component(program, deps, order[l]));
    assert(schedule::is_ready(deps, group, order.take(k))) by {
        assert forall|i: int|
            0 <= i < deps.len() && group.contains((#[trigger] deps[i]).head) implies (
        group.contains(deps[i].body) || schedule::held(order.take(k), deps[i].body)) by {
            let dep = deps[i];
            assert(deps.contains(dep));
            schedule::lemma_program_dependencies_contain(program, dep);
            let (m, j) = choose|m: int, j: int|
                #![trigger program.rules[m].body[j]]
                0 <= m < program.rules.len() && 0 <= j < program.rules[m].body.len() && dep
                    == schedule::literal_dependency(
                    program.rules[m].head.predicate,
                    program.rules[m].body[j],
                );
            let own = planned[b].relations;
            lemma_relations(group, dep.head);
            lemma_relations(group, dep.body);
            let read = RelationId(program.rules[m].body[j].atom.predicate.0);
            if !own.contains(read) {
                let e = choose|e: int|
                    0 <= e < planned.take(a).len() && (
                    #[trigger] planned.take(a)[e]).relations.contains(read);
                assert(planned[e].relations.contains(read));
                lemma_relations(groups[e], dep.body);
                let p = lemma_level_place(deps, order, level, e);
                lemma_level_order(deps, order, level, e, a, p, k);
                assert(order.take(k)[p] == groups[e]);
                assert(schedule::held(order.take(k), dep.body));
            }
        }
    }
    assert(order[k][0].0 < order[l][0].0);
    assert(planned[a].relations[0].0 == groups[a][0].0);
    assert(planned[b].relations[0].0 == groups[b][0].0);
}

proof fn lemma_relations(group: Seq<PredicateId>, p: PredicateId)
    ensures
        general::relations_of(group).contains(RelationId(p.0)) <==> group.contains(p),
{
    let all = general::relations_of(group);
    if group.contains(p) {
        let k = choose|k: int| 0 <= k < group.len() && group[k] == p;
        assert(all[k] == RelationId(p.0));
    }
    if all.contains(RelationId(p.0)) {
        let k = choose|k: int| 0 <= k < all.len() && all[k] == RelationId(p.0);
        assert(group[k] == p);
    }
}

/// Where a component of a level stands among all: behind the earlier ones of its level.
spec fn level_places(
    deps: Seq<Dependency>,
    order: Seq<Seq<PredicateId>>,
    level: nat,
) -> Seq<int>
    decreases order.len(),
{
    if order.len() == 0 {
        Seq::empty()
    } else {
        let earlier = level_places(deps, order.drop_last(), level);
        if graph::is_level(deps, order.last()[0], level) {
            earlier.push(order.len() - 1)
        } else {
            earlier
        }
    }
}

proof fn lemma_level_places(deps: Seq<Dependency>, order: Seq<Seq<PredicateId>>, level: nat)
    ensures
        ({
            let places = level_places(deps, order, level);
            let found = schedule::at_level(deps, order, level);
            &&& places.len() == found.len()
            &&& forall|c: int|
                0 <= c < places.len() ==> 0 <= (#[trigger] places[c]) < order.len()
                    && order[places[c]] == found[c]
            &&& forall|c: int, d: int|
                #![trigger places[c], places[d]]
                0 <= c < d < places.len() ==> places[c] < places[d]
        }),
    decreases order.len(),
{
    if order.len() > 0 {
        let rest = order.drop_last();
        lemma_level_places(deps, rest, level);
        let places = level_places(deps, order, level);
        let earlier = level_places(deps, rest, level);
        let found = schedule::at_level(deps, order, level);
        let before = schedule::at_level(deps, rest, level);
        assert forall|c: int| 0 <= c < places.len() implies 0 <= (#[trigger] places[c])
            < order.len() && order[places[c]] == found[c] by {
            if c < earlier.len() {
                assert(places[c] == earlier[c]);
                assert(rest[earlier[c]] == before[c]);
            }
        }
        assert forall|c: int, d: int|
            #![trigger places[c], places[d]]
            0 <= c < d < places.len() implies places[c] < places[d] by {
            assert(places[c] == earlier[c]);
            if d < earlier.len() {
                assert(places[d] == earlier[d]);
            }
        }
    }
}

proof fn lemma_level_place(
    deps: Seq<Dependency>,
    order: Seq<Seq<PredicateId>>,
    level: nat,
    c: int,
) -> (k: int)
    requires
        0 <= c < schedule::at_level(deps, order, level).len(),
    ensures
        k == level_places(deps, order, level)[c],
        0 <= k < order.len(),
        order[k] == schedule::at_level(deps, order, level)[c],
{
    lemma_level_places(deps, order, level);
    level_places(deps, order, level)[c]
}

proof fn lemma_level_order(
    deps: Seq<Dependency>,
    order: Seq<Seq<PredicateId>>,
    level: nat,
    c: int,
    d: int,
    k: int,
    l: int,
)
    requires
        0 <= c < d < schedule::at_level(deps, order, level).len(),
        k == level_places(deps, order, level)[c],
        l == level_places(deps, order, level)[d],
    ensures
        k < l,
{
    lemma_level_places(deps, order, level);
}

/// The facts of a plan are the rules without a body, in order, as tuples of their values.
pub proof fn law_plan_facts(rules: Seq<ResolvedRuleView>, rule: ResolvedRuleView)
    ensures
        general::fact_tuples(Seq::empty()).len() == 0,
        rule.body.len() > 0 ==> general::fact_tuples(rules.push(rule)) == general::fact_tuples(
            rules,
        ),
        rule.body.len() == 0 ==> {
            let facts = general::fact_tuples(rules.push(rule));
            let terms = rule.head.terms;
            &&& facts.len() == general::fact_tuples(rules).len() + 1
            &&& facts.drop_last() == general::fact_tuples(rules)
            &&& facts.last().0 == RelationId(rule.head.predicate.0)
            &&& facts.last().1.len() == terms.len()
            &&& forall|k: int|
                0 <= k < terms.len() && (#[trigger] terms[k]) is Value ==> facts.last().1[k]
                    == terms[k]->Value_0.0
        },
{
    assert(rules.push(rule).drop_last() =~= rules);
    if rule.body.len() == 0 {
        assert(general::fact_tuples(rules.push(rule)).drop_last() =~= general::fact_tuples(rules));
    }
}

/// A plan has the facts and the outputs of its program in order, and room for every predicate of it
/// and for no more.
pub proof fn law_plan_lists(program: ResolvedProgramView, plan: ProgramPlanView)
    requires
        general::lowers(program, plan),
    ensures
        plan.facts == general::fact_tuples(program.rules),
        plan.outputs.len() == program.outputs.len(),
        forall|i: int|
            0 <= i < plan.outputs.len() ==> (#[trigger] plan.outputs[i]).0 == program.outputs[i].0,
        forall|i: int|
            0 <= i < program.rules.len() ==> (#[trigger] program.rules[i]).head.predicate.0
                < plan.predicate_count,
        forall|i: int, j: int|
            0 <= i < program.rules.len() && 0 <= j < program.rules[i].body.len() ==> (
            #[trigger] program.rules[i].body[j]).atom.predicate.0 < plan.predicate_count,
        forall|i: int|
            0 <= i < program.declarations.len() ==> (#[trigger] program.declarations[i]).0
                < plan.predicate_count,
        forall|i: int|
            0 <= i < program.outputs.len() ==> (#[trigger] program.outputs[i]).0
                < plan.predicate_count,
        plan.predicate_count > 0 ==> exists|p: PredicateId| #[trigger]
            general::occurs(program, p) && p.0 == plan.predicate_count - 1,
{
    assert forall|i: int| 0 <= i < program.rules.len() implies (
    #[trigger] program.rules[i]).head.predicate.0 < plan.predicate_count by {
        assert(schedule::mentions(program.rules[i], program.rules[i].head.predicate));
        assert(general::occurs(program, program.rules[i].head.predicate));
    }
    assert forall|i: int, j: int|
        0 <= i < program.rules.len() && 0 <= j < program.rules[i].body.len() implies (
    #[trigger] program.rules[i].body[j]).atom.predicate.0 < plan.predicate_count by {
        let p = program.rules[i].body[j].atom.predicate;
        assert(schedule::mentions(program.rules[i], p));
        assert(general::occurs(program, p));
    }
    assert forall|i: int| 0 <= i < program.declarations.len() implies (
    #[trigger] program.declarations[i]).0 < plan.predicate_count by {
        assert(program.declarations.contains(program.declarations[i]));
        assert(general::occurs(program, program.declarations[i]));
    }
    assert forall|i: int| 0 <= i < program.outputs.len() implies (#[trigger] program.outputs[i]).0
        < plan.predicate_count by {
        assert(program.outputs.contains(program.outputs[i]));
        assert(general::occurs(program, program.outputs[i]));
    }
}

/// A predicate depends on another one where dependencies lead from it to the other.
pub proof fn law_reaching(deps: Seq<Dependency>, from: PredicateId, to: PredicateId)
    ensures
        graph::reaches(deps, from, to) <==> exists|walk: Seq<Dependency>| #[trigger]
            leads(deps, walk, from, to),
{
    if graph::reaches(deps, from, to) {
        let walk = choose|walk: Seq<Dependency>| graph::is_walk(deps, walk, from, to);
        lemma_leads(deps, walk, from, to);
    }
    if exists|walk: Seq<Dependency>| #[trigger] leads(deps, walk, from, to) {
        let walk = choose|walk: Seq<Dependency>| #[trigger] leads(deps, walk, from, to);
        lemma_leads(deps, walk, from, to);
        assert(graph::is_walk(deps, walk, from, to));
    }
}

/// Two predicates stand in one component exactly if each depends on the other.
pub proof fn law_mutual_predicates(
    program: ResolvedProgramView,
    plan: ProgramPlanView,
    s: int,
    c: int,
    p: PredicateId,
    q: PredicateId,
)
    requires
        general::lowers(program, plan),
        0 <= s < plan.strata.len(),
        0 <= c < plan.strata[s].sccs.len(),
        plan.strata[s].sccs[c].relations.contains(RelationId(p.0)),
        schedule::is_active(program, q),
    ensures
        ({
            let deps = schedule::program_dependencies(program);
            plan.strata[s].sccs[c].relations.contains(RelationId(q.0)) <==> graph::reaches(
                deps,
                p,
                q,
            ) && graph::reaches(deps, q, p)
        }),
{
    let found = choose|found: ProgramSchedule| #[trigger]
        schedule::schedules(program, found) && general::strata_lowered(
            program,
            found.strata@,
            plan.strata,
            statistics::fact_rows(plan.facts, plan.predicate_count),
        );
    let deps = schedule::program_dependencies(program);
    let order = choose|order: Seq<Seq<PredicateId>>| #[trigger]
        schedule::is_evaluation_order(program, order) && schedule::follows_order(
            deps,
            order,
            found.strata@,
        );
    let group = found.strata@[s].sccs@[c].predicates@;
    assert(plan.strata[s].index == found.strata@[s].index);
    assert(general::scc_lowered(
        program,
        found.strata@[s].sccs@[c],
        plan.strata[s].sccs[c],
        statistics::fact_rows(plan.facts, plan.predicate_count),
    ));
    assert(schedule::groups_of(found.strata@[s].sccs@)[c] == group);
    lemma_at_level(deps, order, found.strata@[s].index as nat, c);
    let k = choose|k: int| 0 <= k < order.len() && order[k] == group;
    assert(schedule::is_component(program, deps, order[k]));
    lemma_relations(group, p);
    lemma_relations(group, q);
    assert(group.contains(p));
    assert(group.contains(q) <==> graph::mutual(deps, p, q));
}

/// Every predicate of a rule and every output stands in a component of the plan.
pub proof fn law_predicates_are_planned(
    program: ResolvedProgramView,
    plan: ProgramPlanView,
    p: PredicateId,
) -> (place: (int, int))
    requires
        general::lowers(program, plan),
        schedule::is_active(program, p),
    ensures
        0 <= place.0 < plan.strata.len(),
        0 <= place.1 < plan.strata[place.0].sccs.len(),
        plan.strata[place.0].sccs[place.1].relations.contains(RelationId(p.0)),
{
    let found = choose|found: ProgramSchedule| #[trigger]
        schedule::schedules(program, found) && general::strata_lowered(
            program,
            found.strata@,
            plan.strata,
            statistics::fact_rows(plan.facts, plan.predicate_count),
        );
    let deps = schedule::program_dependencies(program);
    let order = choose|order: Seq<Seq<PredicateId>>| #[trigger]
        schedule::is_evaluation_order(program, order) && schedule::follows_order(
            deps,
            order,
            found.strata@,
        );
    assert(schedule::held(order, p));
    let k = choose|k: int| 0 <= k < order.len() && (#[trigger] order[k]).contains(p);
    assert(schedule::has_stratum(deps, order[k], found.strata@));
    let s = choose|s: int|
        0 <= s < found.strata@.len() && graph::is_level(
            deps,
            order[k][0],
            (#[trigger] found.strata@[s]).index as nat,
        );
    let level = found.strata@[s].index as nat;
    let c = lemma_held_at_level(deps, order, level, k);
    let groups = schedule::groups_of(found.strata@[s].sccs@);
    assert(groups[c] == order[k]);
    assert(plan.strata[s].index == found.strata@[s].index);
    assert(general::scc_lowered(
        program,
        found.strata@[s].sccs@[c],
        plan.strata[s].sccs[c],
        statistics::fact_rows(plan.facts, plan.predicate_count),
    ));
    lemma_relations(order[k], p);
    (s, c)
}

proof fn lemma_held_at_level(
    deps: Seq<Dependency>,
    order: Seq<Seq<PredicateId>>,
    level: nat,
    k: int,
) -> (c: int)
    requires
        0 <= k < order.len(),
        graph::is_level(deps, order[k][0], level),
    ensures
        0 <= c < schedule::at_level(deps, order, level).len(),
        schedule::at_level(deps, order, level)[c] == order[k],
    decreases order.len(),
{
    let rest = order.drop_last();
    if k < rest.len() {
        assert(rest[k] == order[k]);
        lemma_held_at_level(deps, rest, level, k)
    } else {
        schedule::at_level(deps, rest, level).len() as int
    }
}

} // verus!
