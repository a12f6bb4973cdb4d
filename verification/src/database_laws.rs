//! What keeps the answers of a database.
use vstd::prelude::*;

use crate::ast::{ConstantView, ResolvedProgramView};
use crate::catalog;
use crate::catalog::{CatalogView, PredicateId};
use crate::database;
use crate::database::{DatabaseErrorView, DatabaseView, QueryResult};
use crate::evaluation::StoreView;
use crate::execution_general::GeneralSccSummary;
use crate::general;
use crate::ingest;
use crate::limit_laws;
use crate::parser;
use crate::relational::{ProgramPlanView, RelationId};
use crate::resolve_laws;
use crate::schedule;
use crate::schedule::ProgramSchedule;
use crate::schedule_laws;
use crate::semantics;
use crate::tuples;

verus! {

/// Whether every component that evaluates a relation comes before a place.
spec fn is_below(program: ResolvedProgramView, schedule: ProgramSchedule, r: int, k: int) -> bool {
    forall|a: int|
        0 <= a < schedule_laws::flat_groups(schedule.strata@).len() && (
        #[trigger] schedule_laws::flat_groups(schedule.strata@)[a]).contains(PredicateId(r as u32))
            ==> a < k
}

/// A store up to a place, and every tuple beyond it.
spec fn open_beyond(
    program: ResolvedProgramView,
    schedule: ProgramSchedule,
    store: StoreView,
    k: int,
) -> StoreView {
    StoreView {
        full: Seq::new(
            store.full.len(),
            |r: int|
                if is_below(program, schedule, r, k) {
                    store.full[r]
                } else {
                    Set::full()
                },
        ),
        delta: store.delta,
    }
}

/// Where the predicates of a rule stand: those of its body not behind its head, negated ones before
/// it.
proof fn lemma_rule_places(
    program: ResolvedProgramView,
    schedule: ProgramSchedule,
    i: int,
    j: int,
    a: int,
    b: int,
)
    requires
        schedule::schedules(program, schedule),
        0 <= i < program.rules.len(),
        0 <= j < program.rules[i].body.len(),
        0 <= a < schedule_laws::flat_groups(schedule.strata@).len(),
        0 <= b < schedule_laws::flat_groups(schedule.strata@).len(),
        schedule_laws::flat_groups(schedule.strata@)[a].contains(program.rules[i].head.predicate),
        schedule_laws::flat_groups(schedule.strata@)[b].contains(
            program.rules[i].body[j].atom.predicate,
        ),
    ensures
        b <= a,
        program.rules[i].body[j].negated ==> b < a,
{
    let item = schedule::literal_dependency(
        program.rules[i].head.predicate,
        program.rules[i].body[j],
    );
    let deps = schedule::program_dependencies(program);
    schedule::lemma_program_dependencies_contain(program, item);
    assert(deps.contains(item));
    let d = choose|d: int| 0 <= d < deps.len() && deps[d] == item;
    schedule_laws::law_producers_before_consumers(program, schedule, d, a, b);
}

/// One result is part of another model up to a place, where both agree before it.
proof fn lemma_half(
    program: ResolvedProgramView,
    schedule: ProgramSchedule,
    plan: ProgramPlanView,
    extra: Seq<(RelationId, Seq<u32>)>,
    limit: usize,
    store: StoreView,
    model: StoreView,
    k: int,
)
    requires
        schedule::schedules(program, schedule),
        semantics::results_in(program, plan, extra, limit, store),
        model.full.len() == store.full.len(),
        store.full.len() <= u32::MAX + 1,
        semantics::holds_facts(general::fact_tuples(program.rules) + extra, model),
        semantics::closed_under(program, model, model),
        forall|p: PredicateId| #[trigger] general::occurs(program, p) ==> p.0 < store.full.len(),
        semantics::facts_fit(
            general::fact_tuples(program.rules) + extra,
            store.full.len() as int,
        ),
        0 <= k,
        forall|r: int|
            0 <= r < store.full.len() && k > 0 && is_below(program, schedule, r, k - 1)
                ==> #[trigger] store.full[r] == model.full[r],
    ensures
        forall|r: int, t: Seq<u32>|
            0 <= r < store.full.len() && is_below(program, schedule, r, k)
                && #[trigger] store.full[r].contains(t) ==> model.full[r].contains(t),
{
    let flat = schedule_laws::flat_groups(schedule.strata@);
    let other = open_beyond(program, schedule, model, k);
    let facts = general::fact_tuples(program.rules) + extra;
    assert forall|m: int| 0 <= m < facts.len() implies other.full[(
    #[trigger] facts[m]).0.0 as int].contains(facts[m].1) by {
        assert(model.full[facts[m].0.0 as int].contains(facts[m].1));
    }
    assert forall|i: int, v: spec_fn(u32) -> u32|
        0 <= i < program.rules.len() && program.rules[i].body.len() > 0 && #[trigger]
        semantics::positives_hold(program.rules[i], None, other, v) && semantics::negatives_hold(
            program.rules[i],
            store,
            v,
        ) implies semantics::head_holds(program.rules[i], other, v) by {
        let rule = program.rules[i];
        let head = rule.head.predicate;
        assert(schedule::mentions(program.rules[i], head));
        assert(general::occurs(program, head));
        assert(PredicateId((head.0 as int) as u32) == head);
        if is_below(program, schedule, head.0 as int, k) {
            schedule_laws::law_components_partition(program, schedule, head);
            assert(schedule::is_active(program, head));
            let a = choose|a: int| 0 <= a < flat.len() && (#[trigger] flat[a]).contains(head);
            assert(a < k);
            assert forall|j: int|
                0 <= j < rule.body.len() implies {
                let p = (#[trigger] rule.body[j]).atom.predicate;
                &&& p.0 < store.full.len()
                &&& is_below(program, schedule, p.0 as int, k)
                &&& rule.body[j].negated ==> is_below(program, schedule, p.0 as int, k - 1)
            } by {
                let p = rule.body[j].atom.predicate;
                assert(schedule::mentions(program.rules[i], p));
                assert(general::occurs(program, p));
                assert(PredicateId((p.0 as int) as u32) == p);
                assert forall|b: int| 0 <= b < flat.len() && (#[trigger] flat[b]).contains(
                    p,
                ) implies b <= a && (rule.body[j].negated ==> b < a) by {
                    lemma_rule_places(program, schedule, i, j, a, b);
                }
            }
            assert(semantics::positives_hold(rule, None, model, v)) by {
                assert forall|j: int|
                    0 <= j < rule.body.len() && !(#[trigger] rule.body[j]).negated implies model.full[rule.body[j].atom.predicate.0 as int].contains(
                    semantics::literal_tuple(rule, j, v),
                ) by {
                    let p = rule.body[j].atom.predicate;
                    assert(is_below(program, schedule, p.0 as int, k));
                    assert(other.full[p.0 as int] == model.full[p.0 as int]);
                }
            }
            assert forall|j: int|
                0 <= j < rule.body.len() && (#[trigger] rule.body[j]).negated implies store.full[rule.body[j].atom.predicate.0 as int]
                == model.full[rule.body[j].atom.predicate.0 as int] by {
                let p = rule.body[j].atom.predicate;
                assert(is_below(program, schedule, p.0 as int, k - 1));
            }
            semantics::lemma_negatives_depend(rule, store, model, v);
            assert(semantics::positives_hold(program.rules[i], None, model, v));
            assert(semantics::head_holds(program.rules[i], model, v));
        }
    }
    semantics::law_result_is_least(program, plan, extra, limit, store, other);
    assert forall|r: int, t: Seq<u32>|
        0 <= r < store.full.len() && is_below(program, schedule, r, k)
            && #[trigger] store.full[r].contains(t) implies model.full[r].contains(t) by {
        assert(other.full[r].contains(t));
    }
}

proof fn lemma_agree(
    program: ResolvedProgramView,
    schedule: ProgramSchedule,
    plan: ProgramPlanView,
    first: Seq<(RelationId, Seq<u32>)>,
    second: Seq<(RelationId, Seq<u32>)>,
    low: usize,
    high: usize,
    a: StoreView,
    b: StoreView,
    k: int,
)
    requires
        schedule::schedules(program, schedule),
        semantics::results_in(program, plan, first, low, a),
        semantics::results_in(program, plan, second, high, b),
        a.full.len() == b.full.len(),
        a.full.len() <= u32::MAX + 1,
        semantics::holds_facts(general::fact_tuples(program.rules) + first, b),
        semantics::holds_facts(general::fact_tuples(program.rules) + second, a),
        semantics::closed_under(program, a, a),
        semantics::closed_under(program, b, b),
        forall|p: PredicateId| #[trigger] general::occurs(program, p) ==> p.0 < a.full.len(),
        semantics::facts_fit(general::fact_tuples(program.rules) + first, a.full.len() as int),
        semantics::facts_fit(general::fact_tuples(program.rules) + second, a.full.len() as int),
        0 <= k,
    ensures
        forall|r: int|
            0 <= r < a.full.len() && is_below(program, schedule, r, k) ==> #[trigger] a.full[r]
                == b.full[r],
    decreases k,
{
    if k > 0 {
        lemma_agree(program, schedule, plan, first, second, low, high, a, b, k - 1);
    }
    assert forall|r: int|
        0 <= r < b.full.len() && k > 0 && is_below(program, schedule, r, k - 1) implies
        #[trigger] b.full[r] == a.full[r] by {
        assert(a.full[r] == b.full[r]);
    }
    lemma_half(program, schedule, plan, first, low, a, b, k);
    lemma_half(program, schedule, plan, second, high, b, a, k);
    assert forall|r: int|
        0 <= r < a.full.len() && is_below(program, schedule, r, k) implies #[trigger] a.full[r]
        == b.full[r] by {
        assert forall|t: Seq<u32>| a.full[r].contains(t) <==> b.full[r].contains(t) by {}
        assert(a.full[r] =~= b.full[r]);
    }
}

/// The result of a program is fixed by the facts: two evaluations, each of which ends with the facts
/// of the other, end with the same tuples.
pub proof fn law_result_is_unique(
    program: ResolvedProgramView,
    plan: ProgramPlanView,
    first: Seq<(RelationId, Seq<u32>)>,
    second: Seq<(RelationId, Seq<u32>)>,
    low: usize,
    high: usize,
    a: StoreView,
    b: StoreView,
)
    requires
        semantics::results_in(program, plan, first, low, a),
        semantics::results_in(program, plan, second, high, b),
        semantics::holds_facts(first, b),
        semantics::holds_facts(second, a),
    ensures
        a.full == b.full,
{
    let own = general::fact_tuples(program.rules);
    semantics::law_result_is_model(program, plan, first, low, a);
    semantics::law_result_is_model(program, plan, second, high, b);
    semantics::lemma_result_size(program, plan, first, low, a);
    semantics::lemma_result_size(program, plan, second, high, b);
    let schedule = choose|schedule: ProgramSchedule| #[trigger]
        schedule::schedules(program, schedule) && general::strata_lowered(
            program,
            schedule.strata@,
            plan.strata,
            crate::statistics::fact_rows(plan.facts, plan.predicate_count),
        );
    let flat = schedule_laws::flat_groups(schedule.strata@);
    assert forall|m: int| 0 <= m < (own + first).len() implies b.full[(#[trigger] (own
        + first)[m]).0.0 as int].contains((own + first)[m].1) by {
        if m < own.len() {
            assert((own + first)[m] == (own + second)[m]);
        } else {
            assert((own + first)[m] == first[m - own.len()]);
        }
    }
    assert forall|m: int| 0 <= m < (own + second).len() implies a.full[(#[trigger] (own
        + second)[m]).0.0 as int].contains((own + second)[m].1) by {
        if m < own.len() {
            assert((own + second)[m] == (own + first)[m]);
        } else {
            assert((own + second)[m] == second[m - own.len()]);
        }
    }
    general::lemma_facts_counted(program, program.rules.len() as int);
    assert(program.rules.take(program.rules.len() as int) =~= program.rules);
    lemma_facts_fit(program, plan, first);
    lemma_facts_fit(program, plan, second);
    let count = plan.predicate_count as int;
    if count > 0 {
        let p = choose|p: PredicateId| #[trigger] general::occurs(program, p) && p.0 == count - 1;
        assert(p.0 <= u32::MAX);
    }
    lemma_agree(program, schedule, plan, first, second, low, high, a, b, flat.len() as int);
    assert forall|r: int| 0 <= r < a.full.len() implies #[trigger] a.full[r] == b.full[r] by {
        assert(is_below(program, schedule, r, flat.len() as int));
    }
    assert(a.full =~= b.full);
}

proof fn lemma_facts_fit(
    program: ResolvedProgramView,
    plan: ProgramPlanView,
    extra: Seq<(RelationId, Seq<u32>)>,
)
    requires
        general::lowers(program, plan),
        semantics::facts_fit(extra, plan.predicate_count as int),
    ensures
        semantics::facts_fit(
            general::fact_tuples(program.rules) + extra,
            plan.predicate_count as int,
        ),
{
    let own = general::fact_tuples(program.rules);
    general::lemma_facts_counted(program, program.rules.len() as int);
    assert(program.rules.take(program.rules.len() as int) =~= program.rules);
    let all = own + extra;
    assert forall|m: int| 0 <= m < all.len() implies (#[trigger] all[m]).0.0
        < plan.predicate_count by {
        if m < own.len() {
            assert(all[m] == own[m]);
            assert(general::occurs(program, PredicateId(own[m].0.0)));
        } else {
            assert(all[m] == extra[m - own.len()]);
        }
    }
}

/// Adding a fact that follows already changes no answer: the next run ends with the same tuples.
pub proof fn law_known_fact_changes_nothing(
    before: DatabaseView,
    predicate: Seq<char>,
    values: Seq<ConstantView>,
    store: StoreView,
)
    requires
        database::is_reachable(before),
        before.result is Some,
        database::with_fact(before, predicate, values).1 is None,
        ({
            let after = database::with_fact(before, predicate, values).0;
            let (id, tuple) = after.inserted.last();
            let (program, plan) = after.program->0;
            &&& before.result->0.full[id.0 as int].contains(tuple)
            &&& semantics::results_in(program, plan, after.inserted, database::ROUND_LIMIT, store)
        }),
    ensures
        store.full == before.result->0.full,
        same_answers(
            before,
            DatabaseView {
                result: Some(store),
                ..database::with_fact(before, predicate, values).0
            },
        ),
{
    let after = database::with_fact(before, predicate, values).0;
    let (program, plan) = after.program->0;
    let known = before.result->0;
    let own = general::fact_tuples(program.rules);
    semantics::law_result_is_model(program, plan, before.inserted, database::ROUND_LIMIT, known);
    semantics::law_result_is_model(program, plan, after.inserted, database::ROUND_LIMIT, store);
    assert forall|m: int| 0 <= m < before.inserted.len() implies store.full[(
    #[trigger] before.inserted[m]).0.0 as int].contains(before.inserted[m].1) by {
        assert((own + after.inserted)[own.len() + m] == before.inserted[m]);
    }
    assert forall|m: int| 0 <= m < after.inserted.len() implies known.full[(
    #[trigger] after.inserted[m]).0.0 as int].contains(after.inserted[m].1) by {
        if m < before.inserted.len() {
            assert((own + before.inserted)[own.len() + m] == after.inserted[m]);
        } else {
            assert(after.inserted[m] == after.inserted.last());
        }
    }
    law_result_is_unique(
        program,
        plan,
        after.inserted,
        before.inserted,
        database::ROUND_LIMIT,
        database::ROUND_LIMIT,
        store,
        known,
    );
    database::lemma_interned(before.catalog.values, values, values.len() as int);
    lemma_same_answers(before, DatabaseView { result: Some(store), ..after });
}

/// Whether two databases answer every query in the same way.
pub open spec fn same_answers(a: DatabaseView, b: DatabaseView) -> bool {
    &&& forall|name: Seq<char>| #[trigger]
        database::query_error(b, name) == database::query_error(a, name)
    &&& forall|name: Seq<char>, result: QueryResult|
        database::query_error(a, name) is None ==> (#[trigger] database::is_answer(result, b, name)
            <==> database::is_answer(result, a, name))
    &&& a.program is Some ==> forall|i: int|
        0 <= i < (a.program->0).0.outputs.len() ==> #[trigger] database::output_name(b, i)
            == database::output_name(a, i)
}

/// A defined predicate keeps its identifier when the catalog grows.
proof fn lemma_same_id(a: DatabaseView, b: DatabaseView, name: Seq<char>)
    requires
        database::is_reachable(a),
        a.program == b.program,
        resolve_laws::grows_into(a.catalog, b.catalog),
        resolve_laws::catalog_fits(b.catalog),
    ensures
        database::defined_id(b, name) == database::defined_id(a, name),
{
    catalog::lemma_find_name(a.catalog.predicates, name);
    catalog::lemma_find_name(b.catalog.predicates, name);
    if let Some((program, plan)) = a.program {
        let old = catalog::find_name(a.catalog.predicates, name);
        let new = catalog::find_name(b.catalog.predicates, name);
        if let Some(i) = old {
            assert(b.catalog.predicates[i].0 == a.catalog.predicates[i].0);
            if let Some(j) = new {
                if j < i {
                    assert(b.catalog.predicates[j].0 == a.catalog.predicates[j].0);
                }
            }
        } else if let Some(j) = new {
            if j < a.catalog.predicates.len() {
                assert(b.catalog.predicates[j].0 == a.catalog.predicates[j].0);
            }
            if database::is_defined(program, PredicateId(j as u32)) {
                database::lemma_defined_is_known(program, a.catalog, PredicateId(j as u32));
            }
        }
    }
}

/// Tuples of known values stand for the same when the catalog grows.
proof fn lemma_same_decoded(
    a: Seq<ConstantView>,
    b: Seq<ConstantView>,
    set: Set<Seq<u32>>,
    rows: Seq<Seq<ConstantView>>,
)
    requires
        a.len() <= b.len(),
        forall|i: int| 0 <= i < a.len() ==> #[trigger] b[i] == a[i],
        forall|t: Seq<u32>| #[trigger] set.contains(t) ==> database::tuple_known(t, a.len() as int),
    ensures
        database::answers(rows, b, set) <==> database::answers(rows, a, set),
{
    assert forall|list: Seq<Seq<u32>>| #[trigger]
        tuples::ascending_tuples(list) && list.to_set() == set implies Seq::new(
        list.len(),
        |i: int| database::decoded(a, list[i]),
    ) == Seq::new(list.len(), |i: int| database::decoded(b, list[i])) by {
        assert forall|i: int| 0 <= i < list.len() implies database::decoded(a, list[i])
            == #[trigger] database::decoded(b, list[i]) by {
            assert(list.to_set().contains(list[i]));
            assert(database::tuple_known(list[i], a.len() as int));
            assert(database::decoded(a, list[i]) =~= database::decoded(b, list[i]));
        }
        assert(Seq::new(list.len(), |i: int| database::decoded(a, list[i])) =~= Seq::new(
            list.len(),
            |i: int| database::decoded(b, list[i]),
        ));
    }
}

proof fn lemma_same_answers(a: DatabaseView, b: DatabaseView)
    requires
        database::is_reachable(a),
        resolve_laws::grows_into(a.catalog, b.catalog),
        resolve_laws::catalog_fits(b.catalog),
        a.program == b.program,
        a.result is Some <==> b.result is Some,
        a.result is Some ==> b.result->0.full == a.result->0.full,
    ensures
        same_answers(a, b),
{
    assert forall|name: Seq<char>| #[trigger]
        database::query_error(b, name) == database::query_error(a, name) by {
        lemma_same_id(a, b, name);
    }
    assert forall|name: Seq<char>, result: QueryResult|
        database::query_error(a, name) is None implies (#[trigger] database::is_answer(
        result,
        b,
        name,
    ) <==> database::is_answer(result, a, name)) by {
        lemma_same_id(a, b, name);
        let (program, plan) = a.program->0;
        let store = a.result->0;
        let id = database::defined_id(a, name)->0;
        database::lemma_result_known(a.catalog, program, plan, a.inserted, store);
        semantics::lemma_result_size(
            program,
            plan,
            a.inserted,
            database::ROUND_LIMIT,
            store,
        );
        catalog::lemma_find_name(a.catalog.predicates, name);
        database::lemma_inserted_fit(a.catalog, program, plan, a.inserted);
        assert(database::is_defined(program, PredicateId(id as u32)));
        assert forall|t: Seq<u32>| #[trigger]
            store.full[id].contains(t) implies database::tuple_known(
            t,
            a.catalog.values.len() as int,
        ) by {
            assert(database::tuple_fits(a.catalog, id, t));
        }
        lemma_same_decoded(
            a.catalog.values,
            b.catalog.values,
            store.full[id],
            ingest::row_views(result.rows@),
        );
    }
    if let Some((program, plan)) = a.program {
        assert forall|i: int| 0 <= i < program.outputs.len() implies #[trigger]
            database::output_name(b, i) == database::output_name(a, i) by {
            assert(resolve_laws::knows(a.catalog, program.outputs[i]));
            let p = program.outputs[i].0 as int;
            assert(b.catalog.predicates[p].0 == a.catalog.predicates[p].0);
        }
    }
}

/// A text that is refused changes no later answer: the program, the facts added to it and what
/// follows stay, every query and every output is answered as before, and so is a run.
pub proof fn law_refused_text_changes_no_answer(
    before: DatabaseView,
    source: Seq<char>,
    after: DatabaseView,
    error: DatabaseErrorView,
    ran: DatabaseView,
    outcome: Result<Seq<GeneralSccSummary>, DatabaseErrorView>,
)
    requires
        database::is_reachable(before),
        database::is_load(before, source, after, Some(error)),
        database::is_run(before, ran, outcome),
    ensures
        after.program == before.program,
        after.inserted == before.inserted,
        after.result == before.result,
        same_answers(before, after),
        database::is_run(after, DatabaseView { result: ran.result, ..after }, outcome),
{
    let parsed = parser::parsed(source);
    resolve_laws::law_resolved_program_is_safe(before.catalog, parsed.program);
    lemma_grows_self(before.catalog);
    lemma_same_answers(before, after);
}

proof fn lemma_grows_self(catalog: CatalogView)
    ensures
        resolve_laws::grows_into(catalog, catalog),
{
}

/// Running again without a change in between ends in the same state and reports the same.
pub proof fn law_second_run_gives_the_same(
    before: DatabaseView,
    after: DatabaseView,
    again: DatabaseView,
    first: Result<Seq<GeneralSccSummary>, DatabaseErrorView>,
    second: Result<Seq<GeneralSccSummary>, DatabaseErrorView>,
)
    requires
        database::is_run(before, after, first),
        database::is_run(after, again, second),
    ensures
        again == after,
        first is Ok <==> second is Ok,
        first is Err ==> second == first,
        first is Ok ==> {
            let a = first->Ok_0;
            let b = second->Ok_0;
            &&& a.len() == b.len()
            &&& forall|j: int|
                0 <= j < a.len() ==> {
                    &&& (#[trigger] a[j]).relations@ == b[j].relations@
                    &&& a[j].iterations == b[j].iterations
                    &&& a[j].new_rows == b[j].new_rows
                }
        },
{
    if let Some((program, plan)) = before.program {
        let extended = semantics::with_facts(plan, before.inserted);
        if first is Ok {
            limit_laws::law_summaries_are_determined(
                extended,
                database::ROUND_LIMIT,
                first->Ok_0,
                second->Ok_0,
            );
        }
    }
}

} // verus!
