//! What the operations of a database and its catalog do.
use vstd::prelude::*;

use crate::ast::{ConstantView, ResolvedProgramView, Span};
use crate::catalog;
use crate::catalog::{CatalogErrorView, PredicateView};
use crate::database;
use crate::database::{DatabaseErrorView, DatabaseView, QueryResult};
use crate::execution_general::{GeneralExecutionError, GeneralSccSummary};
use crate::general;
use crate::graph;
use crate::graph::{Dependency, DependencyKind};
use crate::ingest;
use crate::meaning_laws;
use crate::parser;
use crate::plan_laws;
use crate::resolve;
use crate::schedule;
use crate::semantics;
use crate::text;

verus! {

/// A name has the first place at which it stands, and else a new one at the end, as long as there
/// are identifiers.
pub proof fn law_known_names(predicates: Seq<PredicateView>, name: Seq<char>, i: int)
    ensures
        ({
            let found = catalog::with_name(predicates, name);
            let known = exists|k: int|
                0 <= k < predicates.len() && (#[trigger] predicates[k]).0 == name;
            &&& 0 <= i < predicates.len() && predicates[i].0 == name && (forall|k: int|
                0 <= k < i ==> (#[trigger] predicates[k]).0 != name) ==> found == Ok::<
                (Seq<PredicateView>, int),
                CatalogErrorView,
            >((predicates, i))
            &&& !known && predicates.len() <= u32::MAX ==> found == Ok::<
                (Seq<PredicateView>, int),
                CatalogErrorView,
            >((predicates.push((name, None)), predicates.len() as int))
            &&& !known && predicates.len() > u32::MAX ==> found == Err::<
                (Seq<PredicateView>, int),
                CatalogErrorView,
            >(CatalogErrorView::IdSpaceExhausted { kind: "predicate"@ })
        }),
{
    catalog::lemma_find_name(predicates, name);
}

/// A value has the first place at which it stands, and else a new one at the end, as long as there
/// are identifiers.
pub proof fn law_known_values(values: Seq<ConstantView>, value: ConstantView, i: int)
    ensures
        ({
            let found = catalog::with_value(values, value);
            &&& 0 <= i < values.len() && values[i] == value && (forall|k: int|
                0 <= k < i ==> (#[trigger] values[k]) != value) ==> found == Ok::<
                (Seq<ConstantView>, int),
                CatalogErrorView,
            >((values, i))
            &&& !values.contains(value) && values.len() <= u32::MAX ==> found == Ok::<
                (Seq<ConstantView>, int),
                CatalogErrorView,
            >((values.push(value), values.len() as int))
            &&& !values.contains(value) && values.len() > u32::MAX ==> found == Err::<
                (Seq<ConstantView>, int),
                CatalogErrorView,
            >(CatalogErrorView::IdSpaceExhausted { kind: "value"@ })
        }),
{
    catalog::lemma_find_value(values, value);
}

/// A variable has the first place at which its name stands, and else a new one at the end. The
/// wildcard has a new one each time.
pub proof fn law_known_variables(names: Seq<Seq<char>>, name: Seq<char>, i: int)
    ensures
        ({
            let found = resolve::with_variable(names, name);
            let fresh = name == seq!['_'] || !names.contains(name);
            &&& 0 <= i < names.len() && names[i] == name && name != seq!['_'] && (forall|k: int|
                0 <= k < i ==> (#[trigger] names[k]) != name) ==> found == Ok::<
                (Seq<Seq<char>>, int),
                CatalogErrorView,
            >((names, i))
            &&& fresh && names.len() <= u32::MAX ==> found == Ok::<
                (Seq<Seq<char>>, int),
                CatalogErrorView,
            >((names.push(name), names.len() as int))
            &&& fresh && names.len() > u32::MAX ==> found == Err::<
                (Seq<Seq<char>>, int),
                CatalogErrorView,
            >(CatalogErrorView::IdSpaceExhausted { kind: "variable"@ })
        }),
{
    reveal_strlit("_");
    assert("_"@ =~= seq!['_']);
    lemma_find_variable(names, name);
}

proof fn lemma_find_variable(names: Seq<Seq<char>>, name: Seq<char>)
    ensures
        match resolve::find_variable(names, name) {
            Some(i) => 0 <= i < names.len() && names[i] == name && forall|k: int|
                0 <= k < i ==> (#[trigger] names[k]) != name,
            None => !names.contains(name),
        },
    decreases names.len(),
{
    if names.len() > 0 {
        let rest = names.drop_last();
        lemma_find_variable(rest, name);
        assert forall|k: int| 0 <= k < rest.len() implies #[trigger] names[k] == rest[k] by {}
        if resolve::find_variable(names, name) is None && names.contains(name) {
            let k = choose|k: int| 0 <= k < names.len() && names[k] == name;
            assert(rest[k] == name);
        }
    }
}

/// A program has negation on a cycle where a rule has a negated literal about a predicate that
/// depends on the predicate of its head.
pub proof fn law_negation_on_a_cycle(program: ResolvedProgramView)
    ensures
        database::has_negative_cycle(program) <==> exists|i: int, j: int|
            0 <= i < program.rules.len() && 0 <= j < program.rules[i].body.len() && (
            #[trigger] program.rules[i].body[j]).negated && graph::reaches(
                schedule::program_dependencies(program),
                program.rules[i].body[j].atom.predicate,
                program.rules[i].head.predicate,
            ),
{
    let deps = schedule::program_dependencies(program);
    if database::has_negative_cycle(program) {
        let d = choose|d: int| 0 <= d < deps.len() && graph::closes_negative_cycle(deps, d);
        let dep = deps[d];
        assert(deps.contains(dep));
        plan_laws::law_dependencies(program, dep.head, dep.body);
        assert(dep == Dependency {
            head: dep.head,
            body: dep.body,
            kind: DependencyKind::Negative,
        });
        let (i, j) = choose|i: int, j: int|
            0 <= i < program.rules.len() && 0 <= j < program.rules[i].body.len() && (
            #[trigger] program.rules[i].body[j]).negated
                && program.rules[i].body[j].atom.predicate == dep.body
                && program.rules[i].head.predicate == dep.head;
        assert(program.rules[i].body[j].negated);
    }
    if exists|i: int, j: int|
        0 <= i < program.rules.len() && 0 <= j < program.rules[i].body.len() && (
        #[trigger] program.rules[i].body[j]).negated && graph::reaches(
            deps,
            program.rules[i].body[j].atom.predicate,
            program.rules[i].head.predicate,
        ) {
        let (i, j) = choose|i: int, j: int|
            0 <= i < program.rules.len() && 0 <= j < program.rules[i].body.len() && (
            #[trigger] program.rules[i].body[j]).negated && graph::reaches(
                deps,
                program.rules[i].body[j].atom.predicate,
                program.rules[i].head.predicate,
            );
        let head = program.rules[i].head.predicate;
        let body = program.rules[i].body[j].atom.predicate;
        plan_laws::law_dependencies(program, head, body);
        let dep = Dependency { head, body, kind: DependencyKind::Negative };
        assert(deps.contains(dep));
        let d = choose|d: int| 0 <= d < deps.len() && deps[d] == dep;
        graph::lemma_walk_single(deps, dep);
        assert(graph::closes_negative_cycle(deps, d));
    }
}

/// Loading a text: one that does not parse changes nothing, one that does not resolve or has
/// negation on a cycle changes only what is known of names and values, and another one takes the
/// place of the program and of the facts that were added to it.
pub proof fn law_loading(
    before: DatabaseView,
    source: Seq<char>,
    after: DatabaseView,
    error: Option<DatabaseErrorView>,
)
    requires
        database::is_load(before, source, after, error),
    ensures
        ({
            let parsed = parser::parsed(source);
            let (output, catalog) = resolve::resolved(before.catalog, parsed.program);
            let deps = schedule::program_dependencies(output.program);
            if parsed.diagnostics.len() > 0 {
                &&& error == Some(DatabaseErrorView::Parse(parsed.diagnostics))
                &&& after == before
            } else if output.diagnostics.len() > 0 {
                &&& error == Some(DatabaseErrorView::Resolve(output.diagnostics))
                &&& after.catalog == catalog
                &&& after.program == before.program
                &&& after.inserted == before.inserted
                &&& after.result == before.result
            } else if database::has_negative_cycle(output.program) {
                &&& after.catalog == catalog
                &&& after.program == before.program
                &&& after.inserted == before.inserted
                &&& after.result == before.result
                &&& exists|d: int| #[trigger]
                    schedule::is_first_negative_cycle(deps, d) && error == Some(
                        DatabaseErrorView::Lowering(
                            "negative dependency "@ + text::decimal(deps[d].head.0 as nat)
                                + " -> "@ + text::decimal(deps[d].body.0 as nat)
                                + " occurs inside a recursive SCC"@,
                            Span { start: 0, end: 0 },
                        ),
                    )
            } else {
                &&& error is None
                &&& after.catalog == catalog
                &&& after.program is Some
                &&& ({
                    let (program, plan) = after.program->0;
                    program == output.program && general::lowers(program, plan)
                })
                &&& after.inserted.len() == 0
                &&& after.result is None
            }
        }),
{
}

/// Running: without a program there is nothing to run; a program that takes more than ten thousand
/// rounds for a component fails; another one leaves what it gives, with everything else as it was.
pub proof fn law_running(
    before: DatabaseView,
    after: DatabaseView,
    outcome: Result<Seq<GeneralSccSummary>, DatabaseErrorView>,
)
    requires
        database::is_run(before, after, outcome),
    ensures
        before.program is None ==> outcome == Err::<Seq<GeneralSccSummary>, DatabaseErrorView>(
            DatabaseErrorView::NoProgram,
        ),
        outcome is Err ==> after == before,
        outcome is Err && before.program is Some ==> outcome == Err::<
            Seq<GeneralSccSummary>,
            DatabaseErrorView,
        >(
            DatabaseErrorView::Execution(GeneralExecutionError::IterationLimit { limit: 10_000 }),
        ),
        outcome is Ok ==> {
            &&& before.program is Some
            &&& after.catalog == before.catalog
            &&& after.program == before.program
            &&& after.inserted == before.inserted
            &&& after.result is Some
            &&& ({
                let (program, plan) = before.program->0;
                semantics::results_in(program, plan, before.inserted, 10_000, after.result->0)
            })
        },
{
}

/// A predicate can be queried where it can be used and the program was run since the last change.
pub proof fn law_queries(database: DatabaseView, name: Seq<char>)
    ensures
        database::query_error(database, name) == if database::defined_id(database, name) is None {
            Some(DatabaseErrorView::UnknownPredicate(name))
        } else if database.result is None {
            Some(DatabaseErrorView::NotRun)
        } else {
            None
        },
{
}

/// A new database knows nothing.
pub proof fn law_new_database()
    ensures
        database::empty_database().catalog.predicates.len() == 0,
        database::empty_database().catalog.values.len() == 0,
        database::empty_database().program is None,
        database::empty_database().inserted.len() == 0,
        database::empty_database().result is None,
{
}

/// The outputs of a program are known by their names, in order.
pub proof fn law_output_names(database: DatabaseView, index: int)
    requires
        database.program is Some,
    ensures
        ({
            let (program, _) = database.program->0;
            database::output_name(database, index)
                == database.catalog.predicates[program.outputs[index].0 as int].0
        }),
{
}

/// A name gets an arity with its first use, and keeps it.
pub proof fn law_known_arities(
    predicates: Seq<PredicateView>,
    name: Seq<char>,
    arity: usize,
    i: int,
)
    ensures
        ({
            let found = catalog::with_arity(predicates, name, arity);
            let known = exists|k: int|
                0 <= k < predicates.len() && (#[trigger] predicates[k]).0 == name;
            let first = 0 <= i < predicates.len() && predicates[i].0 == name && (forall|k: int|
                0 <= k < i ==> (#[trigger] predicates[k]).0 != name);
            &&& first && predicates[i].1 == Some(arity) ==> found == Ok::<
                (Seq<PredicateView>, int),
                CatalogErrorView,
            >((predicates, i))
            &&& first && predicates[i].1 is None ==> found == Ok::<
                (Seq<PredicateView>, int),
                CatalogErrorView,
            >((predicates.update(i, (name, Some(arity))), i))
            &&& first && predicates[i].1 is Some && predicates[i].1 != Some(arity) ==> found == Err::<
                (Seq<PredicateView>, int),
                CatalogErrorView,
            >(
                CatalogErrorView::ArityConflict {
                    predicate: name,
                    existing: predicates[i].1->0,
                    declared: arity,
                },
            )
            &&& !known && predicates.len() <= u32::MAX ==> found == Ok::<
                (Seq<PredicateView>, int),
                CatalogErrorView,
            >((predicates.push((name, Some(arity))), predicates.len() as int))
            &&& !known && predicates.len() > u32::MAX ==> found == Err::<
                (Seq<PredicateView>, int),
                CatalogErrorView,
            >(CatalogErrorView::IdSpaceExhausted { kind: "predicate"@ })
        }),
{
    law_known_names(predicates, name, i);
    if !(exists|k: int| 0 <= k < predicates.len() && (#[trigger] predicates[k]).0 == name) {
        let n = predicates.len() as int;
        assert(predicates.push((name, None::<usize>)).update(n, (name, Some(arity)))
            =~= predicates.push((name, Some(arity))));
    }
}

/// The answer to a query has the name of the predicate, and the tuples of its relation, each once,
/// as the values that they stand for.
pub proof fn law_answers(result: QueryResult, database: DatabaseView, name: Seq<char>) -> (list: Seq<
    Seq<u32>,
>)
    requires
        database::is_answer(result, database, name),
    ensures
        result.predicate@ == name,
        database::defined_id(database, name) matches Some(id) && forall|tuple: Seq<u32>|
            #[trigger] database.result->0.full[id].contains(tuple) <==> list.contains(tuple),
        list.len() == result.rows@.len(),
        forall|i: int|
            0 <= i < list.len() ==> (#[trigger] result.rows@[i])@.len() == list[i].len(),
        forall|i: int, k: int|
            0 <= i < list.len() && 0 <= k < list[i].len() ==> (#[trigger] result.rows@[i]@[k])@
                == database.catalog.values[list[i][k] as int],
        forall|i: int, j: int|
            #![trigger list[i], list[j]]
            0 <= i < j < list.len() ==> meaning_laws::comes_before(list[i], list[j]),
{
    let id = database::defined_id(database, name)->0;
    let rows = ingest::row_views(result.rows@);
    let list = meaning_laws::law_answer_rows(
        rows,
        database.catalog.values,
        database.result->0.full[id],
    );
    assert forall|i: int| 0 <= i < list.len() implies (#[trigger] result.rows@[i])@.len()
        == list[i].len() by {
        assert(rows[i].len() == list[i].len());
    }
    assert forall|i: int, k: int| 0 <= i < list.len() && 0 <= k < list[i].len() implies (
    #[trigger] result.rows@[i]@[k])@ == database.catalog.values[list[i][k] as int] by {
        assert(rows[i].len() == list[i].len());
        assert(rows[i][k] == result.rows@[i]@[k]@);
    }
    list
}

} // verus!
