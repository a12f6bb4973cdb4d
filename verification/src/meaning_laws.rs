//! What the tuples of a database are: exactly those that follow from its program and its facts.
use vstd::prelude::*;

use crate::ast::{ConstantView, ResolvedProgramView, ResolvedRuleView, ResolvedTerm, VariableId};
use crate::binary_laws;
use crate::catalog;
use crate::catalog::{CatalogErrorView, PredicateId};
use crate::database;
use crate::database::{DatabaseErrorView, DatabaseView};
use crate::evaluation;
use crate::evaluation::StoreView;
use crate::executor::SccSummary;
use crate::general;
use crate::ingest;
use crate::ingest::DelimitedOptions;
use crate::relational::{BindingId, PlanTerm, RelationId};
use crate::resolve;
use crate::resolve_laws;
use crate::schedule::ProgramSchedule;
use crate::semantics;
use crate::subset::BinaryProgramPlan;
use crate::tuples;

verus! {

/// The tuple that terms stand for, where variables have values.
pub open spec fn denoted(terms: Seq<ResolvedTerm>, v: spec_fn(u32) -> u32) -> Seq<u32> {
    Seq::new(
        terms.len(),
        |k: int|
            match terms[k] {
                ResolvedTerm::Variable(variable) => v(variable.0),
                ResolvedTerm::Value(value) => value.0,
            },
    )
}

/// Whether the body of a rule is satisfied: the tuples of its positive literals are there, and those
/// of its negated literals are not.
pub open spec fn satisfied(
    rule: ResolvedRuleView,
    there: Seq<Set<Seq<u32>>>,
    negation: Seq<Set<Seq<u32>>>,
    v: spec_fn(u32) -> u32,
) -> bool {
    forall|j: int|
        0 <= j < rule.body.len() ==> {
            let literal = #[trigger] rule.body[j];
            let tuple = denoted(literal.atom.terms, v);
            if literal.negated {
                !negation[literal.atom.predicate.0 as int].contains(tuple)
            } else {
                there[literal.atom.predicate.0 as int].contains(tuple)
            }
        }
}

/// Whether relations hold the heads of all rules, facts among them, wherever their bodies are
/// satisfied, and all further facts.
pub open spec fn is_model(
    program: ResolvedProgramView,
    facts: Seq<(RelationId, Seq<u32>)>,
    there: Seq<Set<Seq<u32>>>,
    negation: Seq<Set<Seq<u32>>>,
) -> bool {
    &&& forall|i: int, v: spec_fn(u32) -> u32|
        0 <= i < program.rules.len() && #[trigger] satisfied(program.rules[i], there, negation, v)
            ==> there[program.rules[i].head.predicate.0 as int].contains(
            denoted(program.rules[i].head.terms, v),
        )
    &&& forall|m: int|
        0 <= m < facts.len() ==> there[(#[trigger] facts[m]).0.0 as int].contains(facts[m].1)
}

proof fn lemma_denoted(terms: Seq<ResolvedTerm>, v: spec_fn(u32) -> u32)
    ensures
        denoted(terms, v) == evaluation::instance(general::plan_terms_of(terms), v),
{
    assert(denoted(terms, v) =~= evaluation::instance(general::plan_terms_of(terms), v));
}

/// In a rule whose variables are bound, a negated literal matches only the tuple that it stands for.
proof fn lemma_negated(rule: ResolvedRuleView, j: int, store: StoreView, v: spec_fn(u32) -> u32)
    requires
        resolve_laws::variables_bound(rule),
        0 <= j < rule.body.len(),
        rule.body[j].negated,
    ensures
        semantics::literal_matches(rule, j, store, v)
            <==> store.full[rule.body[j].atom.predicate.0 as int].contains(
            denoted(rule.body[j].atom.terms, v),
        ),
{
    let terms = rule.body[j].atom.terms;
    let plan = general::plan_terms_of(terms);
    lemma_denoted(terms, v);
    assert(semantics::agree_in(rule, v, v));
    assert forall|w: spec_fn(u32) -> u32| #[trigger]
        semantics::agree_in(rule, v, w) implies evaluation::instance(plan, v)
        == evaluation::instance(plan, w) by {
        assert forall|b: u32| #[trigger] evaluation::uses(plan, b) implies v(b) == w(b) by {
            let k = choose|k: int|
                0 <= k < plan.len() && plan[k] == PlanTerm::Binding(BindingId(b));
            assert(rule.body[j].atom.terms[k] == ResolvedTerm::Variable(VariableId(b)));
            assert(resolve::binds(rule.body, VariableId(b)));
            let p = choose|p: int|
                0 <= p < rule.body.len() && !(#[trigger] rule.body[p]).negated
                    && rule.body[p].atom.terms.contains(ResolvedTerm::Variable(VariableId(b)));
            let others = rule.body[p].atom.terms;
            let l = choose|l: int|
                0 <= l < others.len() && others[l] == ResolvedTerm::Variable(VariableId(b));
            assert(general::plan_terms_of(others)[l] == PlanTerm::Binding(BindingId(b)));
            assert(semantics::bound_in(rule, b));
        }
        evaluation::lemma_instance_depends(plan, v, w);
    }
}

proof fn lemma_satisfied(
    rule: ResolvedRuleView,
    there: StoreView,
    negation: StoreView,
    v: spec_fn(u32) -> u32,
)
    requires
        resolve_laws::variables_bound(rule),
    ensures
        satisfied(rule, there.full, negation.full, v) <==> semantics::positives_hold(
            rule,
            None,
            there,
            v,
        ) && semantics::negatives_hold(rule, negation, v),
{
    assert forall|j: int| 0 <= j < rule.body.len() && (#[trigger] rule.body[j]).negated implies (
    semantics::literal_matches(rule, j, negation, v)
        <==> negation.full[rule.body[j].atom.predicate.0 as int].contains(
        denoted(rule.body[j].atom.terms, v),
    )) by {
        lemma_negated(rule, j, negation, v);
    }
    assert forall|j: int| 0 <= j < rule.body.len() implies denoted(
        (#[trigger] rule.body[j]).atom.terms,
        v,
    ) == semantics::literal_tuple(rule, j, v) by {
        lemma_denoted(rule.body[j].atom.terms, v);
    }
}

/// The tuple of a fact without variables.
proof fn lemma_fact(rules: Seq<ResolvedRuleView>, i: int, v: spec_fn(u32) -> u32) -> (m: int)
    requires
        0 <= i < rules.len(),
        rules[i].body.len() == 0,
        resolve_laws::variables_bound(rules[i]),
    ensures
        0 <= m < general::fact_tuples(rules).len(),
        general::fact_tuples(rules)[m] == (
            RelationId(rules[i].head.predicate.0),
            denoted(rules[i].head.terms, v),
        ),
    decreases rules.len(),
{
    if i < rules.len() - 1 {
        assert(rules.drop_last()[i] == rules[i]);
        let m = lemma_fact(rules.drop_last(), i, v);
        m
    } else {
        let terms = rules[i].head.terms;
        assert forall|k: int| 0 <= k < terms.len() implies (#[trigger] terms[k]) is Value by {
            assert(rules[i].head.terms[k] == terms[k]);
        }
        assert(Seq::new(terms.len(), |k: int| general::value_of(terms[k])) =~= denoted(terms, v));
        general::fact_tuples(rules.drop_last()).len() as int
    }
}

/// The rule that a fact comes from.
proof fn lemma_fact_source(
    rules: Seq<ResolvedRuleView>,
    m: int,
    v: spec_fn(u32) -> u32,
) -> (i: int)
    requires
        0 <= m < general::fact_tuples(rules).len(),
        forall|i: int|
            0 <= i < rules.len() ==> resolve_laws::variables_bound(#[trigger] rules[i]),
    ensures
        0 <= i < rules.len(),
        rules[i].body.len() == 0,
        general::fact_tuples(rules)[m] == (
            RelationId(rules[i].head.predicate.0),
            denoted(rules[i].head.terms, v),
        ),
    decreases rules.len(),
{
    let rest = rules.drop_last();
    if m < general::fact_tuples(rest).len() {
        assert forall|i: int| 0 <= i < rest.len() implies resolve_laws::variables_bound(
            #[trigger] rest[i],
        ) by {
            assert(resolve_laws::variables_bound(rules[i]));
        }
        lemma_fact_source(rest, m, v)
    } else {
        let i = rules.len() - 1;
        assert(resolve_laws::variables_bound(rules[i]));
        let terms = rules[i].head.terms;
        assert forall|k: int| 0 <= k < terms.len() implies (#[trigger] terms[k]) is Value by {
            assert(rules[i].head.terms[k] == terms[k]);
        }
        assert(Seq::new(terms.len(), |k: int| general::value_of(terms[k])) =~= denoted(terms, v));
        i
    }
}

/// After a run, the relations of a database hold what its rules and the facts added to it demand,
/// and no tuple without which they would not.
pub proof fn law_result_is_the_meaning(database: DatabaseView)
    requires
        database::is_reachable(database),
        database.result is Some,
    ensures
        database.program is Some,
        ({
            let (program, _) = database.program->0;
            let full = database.result->0.full;
            &&& is_model(program, database.inserted, full, full)
            &&& forall|other: Seq<Set<Seq<u32>>>|
                other.len() == full.len() && #[trigger] is_model(
                    program,
                    database.inserted,
                    other,
                    full,
                ) ==> forall|r: int, tuple: Seq<u32>|
                    0 <= r < full.len() && #[trigger] full[r].contains(tuple) ==> other[r].contains(
                        tuple,
                    )
        }),
{
    let (program, plan) = database.program->0;
    let store = database.result->0;
    let facts = general::fact_tuples(program.rules);
    let all = facts + database.inserted;
    semantics::law_result_is_model(program, plan, database.inserted, database::ROUND_LIMIT, store);
    assert forall|i: int, v: spec_fn(u32) -> u32|
        0 <= i < program.rules.len() && #[trigger] satisfied(
            program.rules[i],
            store.full,
            store.full,
            v,
        ) implies store.full[program.rules[i].head.predicate.0 as int].contains(
        denoted(program.rules[i].head.terms, v),
    ) by {
        let rule = program.rules[i];
        assert(resolve_laws::variables_bound(program.rules[i]));
        if rule.body.len() == 0 {
            let m = lemma_fact(program.rules, i, v);
            assert(all[m] == facts[m]);
        } else {
            lemma_satisfied(rule, store, store, v);
            lemma_denoted(rule.head.terms, v);
            assert(semantics::positives_hold(program.rules[i], None, store, v));
            assert(semantics::head_holds(program.rules[i], store, v));
        }
    }
    assert forall|m: int| 0 <= m < database.inserted.len() implies store.full[(
    #[trigger] database.inserted[m]).0.0 as int].contains(database.inserted[m].1) by {
        assert(all[facts.len() + m] == database.inserted[m]);
    }
    assert forall|other: Seq<Set<Seq<u32>>>|
        other.len() == store.full.len() && #[trigger] is_model(
            program,
            database.inserted,
            other,
            store.full,
        ) implies forall|r: int, tuple: Seq<u32>|
        0 <= r < store.full.len() && #[trigger] store.full[r].contains(tuple) ==> other[r].contains(
            tuple,
        ) by {
        let held = StoreView { full: other, delta: store.delta };
        let v = |x: u32| 0u32;
        assert forall|m: int| 0 <= m < all.len() implies held.full[(
        #[trigger] all[m]).0.0 as int].contains(all[m].1) by {
            if m < facts.len() {
                let i = lemma_fact_source(program.rules, m, v);
                assert(satisfied(program.rules[i], other, store.full, v));
            } else {
                assert(all[m] == database.inserted[m - facts.len()]);
            }
        }
        assert forall|i: int, w: spec_fn(u32) -> u32|
            0 <= i < program.rules.len() && program.rules[i].body.len() > 0 && #[trigger]
            semantics::positives_hold(program.rules[i], None, held, w) && semantics::negatives_hold(
                program.rules[i],
                store,
                w,
            ) implies semantics::head_holds(program.rules[i], held, w) by {
            assert(resolve_laws::variables_bound(program.rules[i]));
            lemma_satisfied(program.rules[i], held, store, w);
            lemma_denoted(program.rules[i].head.terms, w);
            assert(satisfied(program.rules[i], other, store.full, w));
        }
        semantics::law_result_is_least(
            program,
            plan,
            database.inserted,
            database::ROUND_LIMIT,
            store,
            held,
        );
    }
}

/// What the binary operators leave is what the rules of the program demand, and no tuple without
/// which they would not.
pub proof fn law_pipeline_result_is_the_meaning(
    program: ResolvedProgramView,
    scheduled: ProgramSchedule,
    plan: BinaryProgramPlan,
    summaries: Seq<SccSummary>,
)
    requires
        binary_laws::pipeline_ran(program, scheduled, plan, summaries),
        forall|i: int|
            0 <= i < program.rules.len() ==> resolve_laws::variables_bound(
                #[trigger] program.rules[i],
            ),
    ensures
        ({
            let full = binary_laws::store_of(
                binary_laws::pipeline_result(plan, summaries),
                plan.predicate_count as nat,
            ).full;
            &&& is_model(program, Seq::empty(), full, full)
            &&& forall|other: Seq<Set<Seq<u32>>>|
                other.len() == full.len() && #[trigger] is_model(
                    program,
                    Seq::empty(),
                    other,
                    full,
                ) ==> forall|r: int, tuple: Seq<u32>|
                    0 <= r < full.len() && #[trigger] full[r].contains(tuple) ==> other[r].contains(
                        tuple,
                    )
        }),
{
    let store = binary_laws::store_of(
        binary_laws::pipeline_result(plan, summaries),
        plan.predicate_count as nat,
    );
    let facts = general::fact_tuples(program.rules);
    binary_laws::law_pipeline_result_is_model(program, scheduled, plan, summaries, store);
    assert forall|i: int, v: spec_fn(u32) -> u32|
        0 <= i < program.rules.len() && #[trigger] satisfied(
            program.rules[i],
            store.full,
            store.full,
            v,
        ) implies store.full[program.rules[i].head.predicate.0 as int].contains(
        denoted(program.rules[i].head.terms, v),
    ) by {
        let rule = program.rules[i];
        assert(resolve_laws::variables_bound(program.rules[i]));
        if rule.body.len() == 0 {
            let m = lemma_fact(program.rules, i, v);
            assert(store.full[facts[m].0.0 as int].contains(facts[m].1));
        } else {
            lemma_satisfied(rule, store, store, v);
            lemma_denoted(rule.head.terms, v);
            assert(semantics::positives_hold(program.rules[i], None, store, v));
            assert(semantics::head_holds(program.rules[i], store, v));
        }
    }
    assert forall|other: Seq<Set<Seq<u32>>>|
        other.len() == store.full.len() && #[trigger] is_model(
            program,
            Seq::empty(),
            other,
            store.full,
        ) implies forall|r: int, tuple: Seq<u32>|
        0 <= r < store.full.len() && #[trigger] store.full[r].contains(tuple) ==> other[r].contains(
            tuple,
        ) by {
        let held = StoreView { full: other, delta: store.delta };
        let v = |x: u32| 0u32;
        assert forall|m: int| 0 <= m < facts.len() implies held.full[(
        #[trigger] facts[m]).0.0 as int].contains(facts[m].1) by {
            let i = lemma_fact_source(program.rules, m, v);
            assert(satisfied(program.rules[i], other, store.full, v));
        }
        assert forall|i: int, w: spec_fn(u32) -> u32|
            0 <= i < program.rules.len() && program.rules[i].body.len() > 0 && #[trigger]
            semantics::positives_hold(program.rules[i], None, held, w) && semantics::negatives_hold(
                program.rules[i],
                store,
                w,
            ) implies semantics::head_holds(program.rules[i], held, w) by {
            assert(resolve_laws::variables_bound(program.rules[i]));
            lemma_satisfied(program.rules[i], held, store, w);
            lemma_denoted(program.rules[i].head.terms, w);
            assert(satisfied(program.rules[i], other, store.full, w));
        }
        binary_laws::law_pipeline_result_is_least(
            program,
            scheduled,
            plan,
            summaries,
            held,
            store,
        );
    }
}

/// Whether two tuples are the same up to a place where the first one ends or is smaller.
pub open spec fn decides(a: Seq<u32>, b: Seq<u32>, k: int) -> bool {
    &&& 0 <= k <= a.len()
    &&& k < b.len()
    &&& forall|l: int| 0 <= l < k ==> a[l] == b[l]
    &&& k == a.len() || a[k] < b[k]
}

/// Whether a tuple comes before another one in lexicographic order.
pub open spec fn comes_before(a: Seq<u32>, b: Seq<u32>) -> bool {
    exists|k: int| decides(a, b, k)
}

/// The rows of an answer are the tuples of the relation, each once, as the values that they stand
/// for, in lexicographic order of the identifiers of the values.
pub proof fn law_answer_rows(
    rows: Seq<Seq<ConstantView>>,
    values: Seq<ConstantView>,
    set: Set<Seq<u32>>,
) -> (list: Seq<Seq<u32>>)
    requires
        database::answers(rows, values, set),
    ensures
        list.len() == rows.len(),
        forall|tuple: Seq<u32>| #[trigger] set.contains(tuple) <==> list.contains(tuple),
        forall|i: int|
            0 <= i < rows.len() ==> (#[trigger] rows[i]).len() == list[i].len(),
        forall|i: int, k: int|
            0 <= i < rows.len() && 0 <= k < rows[i].len() ==> (#[trigger] rows[i][k])
                == values[list[i][k] as int],
        forall|i: int, j: int|
            #![trigger list[i], list[j]]
            0 <= i < j < list.len() ==> comes_before(list[i], list[j]),
{
    let list = choose|list: Seq<Seq<u32>>| #[trigger]
        tuples::ascending_tuples(list) && list.to_set() == set && rows == Seq::new(
            list.len(),
            |i: int| database::decoded(values, list[i]),
        );
    assert forall|tuple: Seq<u32>| #[trigger] set.contains(tuple) <==> list.contains(tuple) by {
        assert(list.to_set().contains(tuple) <==> list.contains(tuple));
    }
    assert forall|i: int, j: int|
        #![trigger list[i], list[j]]
        0 <= i < j < list.len() implies comes_before(list[i], list[j]) by {
        assert(tuples::tuple_less(list[i], list[j]));
        let k = choose|k: int| tuples::less_at(list[i], list[j], k);
        assert(decides(list[i], list[j], k));
    }
    list
}

/// A predicate can be used where the loaded program mentions or declares it, under the first
/// identifier of its name, and nowhere else.
pub proof fn law_defined_predicates(database: DatabaseView, name: Seq<char>, i: int)
    requires
        database.catalog.predicates.len() <= u32::MAX + 1,
    ensures
        database::defined_id(database, name) == Some(i) <==> {
            &&& 0 <= i < database.catalog.predicates.len()
            &&& database.catalog.predicates[i].0 == name
            &&& forall|j: int| 0 <= j < i ==> (#[trigger] database.catalog.predicates[j]).0 != name
            &&& database.program is Some
            &&& ({
                let (program, _) = database.program->0;
                ||| program.declarations.contains(PredicateId(i as u32))
                ||| exists|r: int|
                    0 <= r < program.rules.len() && (
                    #[trigger] program.rules[r]).head.predicate.0 == i
                ||| exists|r: int, l: int|
                    0 <= r < program.rules.len() && 0 <= l < program.rules[r].body.len() && (
                    #[trigger] program.rules[r].body[l]).atom.predicate.0 == i
            })
        },
{
    catalog::lemma_find_name(database.catalog.predicates, name);
    if database.program is Some && 0 <= i <= u32::MAX {
        let (program, _) = database.program->0;
        let p = PredicateId(i as u32);
        if exists|r: int|
            0 <= r < program.rules.len() && (#[trigger] program.rules[r]).head.predicate.0 == i {
            let r = choose|r: int|
                0 <= r < program.rules.len() && (#[trigger] program.rules[r]).head.predicate.0 == i;
            assert(crate::schedule::mentions(program.rules[r], p));
        }
        if exists|r: int, l: int|
            0 <= r < program.rules.len() && 0 <= l < program.rules[r].body.len() && (
            #[trigger] program.rules[r].body[l]).atom.predicate.0 == i {
            let (r, l) = choose|r: int, l: int|
                0 <= r < program.rules.len() && 0 <= l < program.rules[r].body.len() && (
                #[trigger] program.rules[r].body[l]).atom.predicate.0 == i;
            assert(crate::schedule::mentions(program.rules[r], p));
        }
        if exists|r: int|
            0 <= r < program.rules.len() && crate::schedule::mentions(
                #[trigger] program.rules[r],
                p,
            ) {
            let r = choose|r: int|
                0 <= r < program.rules.len() && crate::schedule::mentions(
                    #[trigger] program.rules[r],
                    p,
                );
            if program.rules[r].head.predicate != p {
                let l = choose|l: int|
                    0 <= l < program.rules[r].body.len() && (
                    #[trigger] program.rules[r].body[l]).atom.predicate == p;
                assert(program.rules[r].body[l].atom.predicate.0 == i);
            }
        }
    }
}

/// A fact is refused where its predicate cannot be used, or where it has another number of values,
/// with the database as it was. Otherwise its tuple comes last among the facts that were added, and
/// what was run before no longer counts.
pub proof fn law_added_facts(
    database: DatabaseView,
    predicate: Seq<char>,
    values: Seq<ConstantView>,
)
    requires
        database::is_reachable(database),
    ensures
        ({
            let (after, error) = database::with_fact(database, predicate, values);
            match database::defined_id(database, predicate) {
                None => {
                    &&& after == database
                    &&& error == Some(DatabaseErrorView::UnknownPredicate(predicate))
                },
                Some(i) => {
                    let arity = database.catalog.predicates[i].1->0;
                    if values.len() != arity {
                        &&& after == database
                        &&& error == Some(
                            DatabaseErrorView::Arity {
                                predicate,
                                expected: arity,
                                actual: values.len(),
                            },
                        )
                    } else {
                        &&& after.catalog.predicates == database.catalog.predicates
                        &&& after.program == database.program
                        &&& database.catalog.values.len() <= after.catalog.values.len()
                        &&& forall|k: int|
                            0 <= k < database.catalog.values.len() ==> (
                            #[trigger] after.catalog.values[k]) == database.catalog.values[k]
                        &&& error matches Some(problem) ==> {
                            &&& problem == DatabaseErrorView::Catalog(
                                CatalogErrorView::IdSpaceExhausted { kind: "value"@ },
                            )
                            &&& after.catalog.values.len() == u32::MAX + 1
                            &&& after.inserted == database.inserted
                            &&& after.result == database.result
                        }
                        &&& error is None ==> {
                            let tuple = after.inserted[database.inserted.len() as int].1;
                            &&& after.inserted.len() == database.inserted.len() + 1
                            &&& after.inserted.drop_last() == database.inserted
                            &&& after.inserted.last().0 == RelationId(i as u32)
                            &&& tuple.len() == values.len()
                            &&& forall|k: int|
                                0 <= k < values.len() ==> after.catalog.values[(
                                #[trigger] tuple[k]) as int] == values[k]
                            &&& after.result is None
                        }
                    }
                },
            }
        }),
{
    if let Some(i) = database::defined_id(database, predicate) {
        let count = values.len() as int;
        if values.len() == database.catalog.predicates[i].1->0 {
            database::lemma_interned(database.catalog.values, values, count);
            lemma_interned_values(database.catalog.values, values, count);
            let (after, error) = database::with_fact(database, predicate, values);
            if error is None {
                assert(after.inserted.drop_last() =~= database.inserted);
            }
        }
    }
}

proof fn lemma_interned_values(values: Seq<ConstantView>, added: Seq<ConstantView>, count: int)
    requires
        values.len() <= u32::MAX + 1,
        0 <= count <= added.len(),
    ensures
        ({
            let (all, ids) = database::interned(values, added, count);
            &&& ids matches Ok(tuple) ==> forall|k: int|
                0 <= k < count ==> all[(#[trigger] tuple[k]) as int] == added[k]
            &&& ids matches Err(error) ==> error == (CatalogErrorView::IdSpaceExhausted {
                kind: "value"@,
            }) && all.len() == u32::MAX + 1
        }),
    decreases count,
{
    if count > 0 {
        lemma_interned_values(values, added, count - 1);
        database::lemma_interned(values, added, count - 1);
        database::lemma_interned(values, added, count);
        let (all, ids) = database::interned(values, added, count - 1);
        catalog::lemma_find_value(all, added[count - 1]);
        if ids is Ok {
            if let Ok((more, place)) = catalog::with_value(all, added[count - 1]) {
                let tuple = ids->Ok_0;
                let longer = tuple.push(place as u32);
                assert forall|k: int| 0 <= k < count implies more[(
                #[trigger] longer[k]) as int] == added[k] by {
                    if k < count - 1 {
                        assert(longer[k] == tuple[k]);
                        assert(all[tuple[k] as int] == added[k]);
                        assert(tuple[k] < all.len());
                    }
                }
            }
        }
    }
}

/// Facts are added one after the other, up to the first that is refused.
pub proof fn law_added_rows(
    database: DatabaseView,
    predicate: Seq<char>,
    rows: Seq<Seq<ConstantView>>,
    row: Seq<ConstantView>,
)
    ensures
        database::with_rows(database, predicate, rows, 0) == (
            database,
            None::<DatabaseErrorView>,
        ),
        ({
            let (before, refused) = database::with_rows(
                database,
                predicate,
                rows,
                rows.len() as int,
            );
            let more = rows.push(row);
            let found = database::with_rows(database, predicate, more, more.len() as int);
            &&& refused is Some ==> found == (before, refused)
            &&& refused is None ==> found == database::with_fact(before, predicate, row)
        }),
{
    lemma_rows_before(database, predicate, rows, row, rows.len() as int);
}

proof fn lemma_rows_before(
    database: DatabaseView,
    predicate: Seq<char>,
    rows: Seq<Seq<ConstantView>>,
    row: Seq<ConstantView>,
    count: int,
)
    requires
        0 <= count <= rows.len(),
    ensures
        database::with_rows(database, predicate, rows.push(row), count) == database::with_rows(
            database,
            predicate,
            rows,
            count,
        ),
    decreases count,
{
    if count > 0 {
        lemma_rows_before(database, predicate, rows, row, count - 1);
    }
}

/// A delimited text that cannot be read adds nothing; another one adds its rows.
pub proof fn law_added_texts(
    database: DatabaseView,
    predicate: Seq<char>,
    source: Seq<char>,
    options: DelimitedOptions,
)
    ensures
        ({
            let found = database::with_delimited(database, predicate, source, options);
            match ingest::delimited(source, options) {
                Err(error) => found == (database, Some(DatabaseErrorView::Delimited(error))),
                Ok(rows) => found == database::with_rows(
                    database,
                    predicate,
                    rows,
                    rows.len() as int,
                ),
            }
        }),
{
}

} // verus!
