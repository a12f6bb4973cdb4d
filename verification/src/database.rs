//! A program, facts added to it, and what follows from them.
use vstd::prelude::*;

use crate::ast;
use crate::ast::{
    ConstantView, ResolvedProgram, ResolvedProgramView, ResolvedRuleView, ResolvedTerm, Span,
};
use crate::catalog;
use crate::catalog::{
    CatalogError, CatalogErrorView, CatalogView, InternedValue, PredicateId, ProgramCatalog,
    ValueCatalog, ValueId,
};
use crate::evaluation::{StoreView, TupleStore};
use crate::execution_general;
use crate::execution_general::{execute_general, GeneralExecutionError, GeneralSccSummary};
use crate::explain;
use crate::explain::explain_general;
use crate::general;
use crate::general::{lower_general, LoweringError};
use crate::graph;
use crate::ingest;
use crate::ingest::{
    parse_delimited_parallel, DelimitedError, DelimitedErrorView, DelimitedOptions,
};
use crate::lexer::{Diagnostic, DiagnosticView};
use crate::parser;
use crate::parser::parse_program;
use crate::relational;
use crate::relational::{GeneralProgramPlan, ProgramPlanView, RelationId};
use crate::resolve;
use crate::resolve::resolve_program;
use crate::resolve_laws;
use crate::schedule;
use crate::schedule::{ProgramSchedule, StratificationError};
use crate::semantics;
use crate::sorted;
use crate::sorted::{insert_ascending, position_of};
use crate::subset;
use crate::subset::lower_binary;
use crate::text;
use crate::text::decimal_text;
use crate::tuples;
use crate::tuples::copy_tuple;

verus! {

/// The rounds that a component may take.
pub const ROUND_LIMIT: usize = 10_000;

/// What a database holds.
#[verifier::ext_equal]
pub struct DatabaseView {
    pub catalog: CatalogView,
    /// The loaded program and its plan.
    pub program: Option<(ResolvedProgramView, ProgramPlanView)>,
    /// The facts added to the program, in order.
    pub inserted: Seq<(RelationId, Seq<u32>)>,
    /// What follows, if the program was run since the last fact was added.
    pub result: Option<StoreView>,
}

/// What a database error says.
pub enum DatabaseErrorView {
    Parse(Seq<DiagnosticView>),
    Resolve(Seq<DiagnosticView>),
    Lowering(Seq<char>, Span),
    Execution(GeneralExecutionError),
    Catalog(CatalogErrorView),
    Delimited(DelimitedErrorView),
    NoProgram,
    NotRun,
    UnknownPredicate(Seq<char>),
    Arity { predicate: Seq<char>, expected: usize, actual: nat },
}

#[derive(Debug)]
pub enum DatabaseError {
    Parse(Vec<Diagnostic>),
    Resolve(Vec<Diagnostic>),
    Lowering(LoweringError),
    Execution(GeneralExecutionError),
    Catalog(CatalogError),
    Delimited(DelimitedError),
    NoProgram,
    NotRun,
    UnknownPredicate(String),
    Arity { predicate: String, expected: usize, actual: usize },
}

impl View for DatabaseError {
    type V = DatabaseErrorView;

    open spec fn view(&self) -> DatabaseErrorView {
        match *self {
            DatabaseError::Parse(diagnostics) => DatabaseErrorView::Parse(
                ast::views(diagnostics@),
            ),
            DatabaseError::Resolve(diagnostics) => DatabaseErrorView::Resolve(
                ast::views(diagnostics@),
            ),
            DatabaseError::Lowering(error) => DatabaseErrorView::Lowering(
                error.message@,
                error.span,
            ),
            DatabaseError::Execution(error) => DatabaseErrorView::Execution(error),
            DatabaseError::Catalog(error) => DatabaseErrorView::Catalog(error@),
            DatabaseError::Delimited(error) => DatabaseErrorView::Delimited(error@),
            DatabaseError::NoProgram => DatabaseErrorView::NoProgram,
            DatabaseError::NotRun => DatabaseErrorView::NotRun,
            DatabaseError::UnknownPredicate(name) => DatabaseErrorView::UnknownPredicate(name@),
            DatabaseError::Arity { predicate, expected, actual } => DatabaseErrorView::Arity {
                predicate: predicate@,
                expected,
                actual: actual as nat,
            },
        }
    }
}

/// The message of the first of some diagnostics.
pub open spec fn first_message(diagnostics: Seq<DiagnosticView>) -> Seq<char> {
    if diagnostics.len() == 0 {
        "unknown error"@
    } else {
        diagnostics[0].message
    }
}

/// The text of a database error.
pub open spec fn database_error_text(error: DatabaseErrorView) -> Seq<char> {
    match error {
        DatabaseErrorView::Parse(diagnostics) => "Datalog parse failed: "@ + first_message(
            diagnostics,
        ),
        DatabaseErrorView::Resolve(diagnostics) => "Datalog validation failed: "@ + first_message(
            diagnostics,
        ),
        DatabaseErrorView::Lowering(message, _) => message,
        DatabaseErrorView::Execution(error) => error.text(),
        DatabaseErrorView::Catalog(error) => catalog::catalog_error_text(error),
        DatabaseErrorView::Delimited(error) => ingest::delimited_error_text(error),
        DatabaseErrorView::NoProgram => "no Datalog program is loaded"@,
        DatabaseErrorView::NotRun => "the Datalog program has not been run"@,
        DatabaseErrorView::UnknownPredicate(name) => "predicate "@ + name
            + " is not defined by this program"@,
        DatabaseErrorView::Arity { predicate, expected, actual } => "predicate "@ + predicate
            + " expects "@ + text::decimal(expected as nat) + " values, not "@ + text::decimal(
            actual,
        ),
    }
}

fn with_first(prefix: &str, diagnostics: &Vec<Diagnostic>) -> (message: String)
    ensures
        message@ == prefix@ + first_message(ast::views(diagnostics@)),
{
    let mut message = prefix.to_owned();
    if diagnostics.len() == 0 {
        message.append("unknown error");
    } else {
        assert(ast::views(diagnostics@)[0] == diagnostics@[0]@);
        message.append(diagnostics[0].message.as_str());
    }
    message
}

impl DatabaseError {
    pub fn message(&self) -> (message: String)
        ensures
            message@ == database_error_text(self@),
    {
        match self {
            DatabaseError::Parse(diagnostics) => with_first("Datalog parse failed: ", diagnostics),
            DatabaseError::Resolve(diagnostics) => with_first(
                "Datalog validation failed: ",
                diagnostics,
            ),
            DatabaseError::Lowering(error) => error.message(),
            DatabaseError::Execution(error) => error.message(),
            DatabaseError::Catalog(error) => error.message(),
            DatabaseError::Delimited(error) => error.message(),
            DatabaseError::NoProgram => "no Datalog program is loaded".to_owned(),
            DatabaseError::NotRun => "the Datalog program has not been run".to_owned(),
            DatabaseError::UnknownPredicate(name) => {
                let mut message = "predicate ".to_owned();
                message.append(name.as_str());
                message.append(" is not defined by this program");
                message
            },
            DatabaseError::Arity { predicate, expected, actual } => {
                let mut message = "predicate ".to_owned();
                message.append(predicate.as_str());
                message.append(" expects ");
                let expected = decimal_text(*expected);
                message.append(expected.as_str());
                message.append(" values, not ");
                let actual = decimal_text(*actual);
                message.append(actual.as_str());
                message
            },
        }
    }
}

/// Which operators evaluate a program: those for binary recursive rules, or the general ones.
#[derive(Debug, Clone, Copy, PartialEq, Eq, Structural)]
pub enum ExecutionBackend {
    BinaryHybrid,
    GeneralCpu,
}

/// The tuples of a predicate.
#[derive(Debug, Clone, PartialEq, Eq)]
pub struct QueryResult {
    pub predicate: String,
    pub rows: Vec<Vec<InternedValue>>,
}

/// What running a program did.
#[derive(Debug, Clone, PartialEq, Eq)]
pub struct RunSummary {
    pub backend: ExecutionBackend,
    pub sccs: Vec<GeneralSccSummary>,
}

/// Whether a backend is the one that suits a program: the binary pipeline where the program can be
/// lowered to it.
pub open spec fn is_preferred(program: ResolvedProgramView, backend: ExecutionBackend) -> bool {
    let deps = schedule::program_dependencies(program);
    if exists|i: int| 0 <= i < deps.len() && graph::closes_negative_cycle(deps, i) {
        backend == ExecutionBackend::GeneralCpu
    } else {
        exists|schedule: ProgramSchedule| #[trigger]
            schedule::schedules(program, schedule) && (backend == ExecutionBackend::BinaryHybrid
                <==> subset::refusal_of(
                program,
                subset::recursive_groups(schedule.strata@),
            ) is None)
    }
}

pub open spec fn backend_name(backend: ExecutionBackend) -> Seq<char> {
    match backend {
        ExecutionBackend::BinaryHybrid => "BinaryHybrid"@,
        ExecutionBackend::GeneralCpu => "GeneralCpu"@,
    }
}

/// Whether a rule or a declaration of a program mentions a predicate.
pub open spec fn is_defined(program: ResolvedProgramView, predicate: PredicateId) -> bool {
    ||| exists|i: int|
        0 <= i < program.rules.len() && schedule::mentions(#[trigger] program.rules[i], predicate)
    ||| program.declarations.contains(predicate)
}

/// The identifier of a predicate of the loaded program.
pub open spec fn defined_id(database: DatabaseView, name: Seq<char>) -> Option<int> {
    match (catalog::find_name(database.catalog.predicates, name), database.program) {
        (Some(i), Some((program, _))) => if is_defined(program, PredicateId(i as u32)) {
            Some(i)
        } else {
            None
        },
        _ => None,
    }
}

/// A catalog's values after the first `count` of some values were looked up or added, and their
/// identifiers. An exhausted identifier space ends the walk.
pub open spec fn interned(
    values: Seq<ConstantView>,
    added: Seq<ConstantView>,
    count: int,
) -> (Seq<ConstantView>, Result<Seq<u32>, CatalogErrorView>)
    decreases count,
{
    if count <= 0 {
        (values, Ok(Seq::empty()))
    } else {
        match interned(values, added, count - 1) {
            (all, Err(error)) => (all, Err(error)),
            (all, Ok(ids)) => match catalog::with_value(all, added[count - 1]) {
                Err(error) => (all, Err(error)),
                Ok((more, i)) => (more, Ok(ids.push(i as u32))),
            },
        }
    }
}

/// A database after a fact was added, and the error if it was not.
pub open spec fn with_fact(
    database: DatabaseView,
    predicate: Seq<char>,
    values: Seq<ConstantView>,
) -> (DatabaseView, Option<DatabaseErrorView>) {
    match defined_id(database, predicate) {
        None => (database, Some(DatabaseErrorView::UnknownPredicate(predicate))),
        Some(i) => {
            let expected = database.catalog.predicates[i].1->0;
            if values.len() != expected {
                (
                    database,
                    Some(
                        DatabaseErrorView::Arity { predicate, expected, actual: values.len() },
                    ),
                )
            } else {
                let (all, ids) = interned(database.catalog.values, values, values.len() as int);
                let catalog = CatalogView {
                    predicates: database.catalog.predicates,
                    values: all,
                };
                match ids {
                    Err(error) => (
                        DatabaseView { catalog, ..database },
                        Some(DatabaseErrorView::Catalog(error)),
                    ),
                    Ok(tuple) => (
                        DatabaseView {
                            catalog,
                            program: database.program,
                            inserted: database.inserted.push((RelationId(i as u32), tuple)),
                            result: None,
                        },
                        None,
                    ),
                }
            }
        },
    }
}

/// A database after the first `count` of some facts were added, up to the first that could not be.
pub open spec fn with_rows(
    database: DatabaseView,
    predicate: Seq<char>,
    rows: Seq<Seq<ConstantView>>,
    count: int,
) -> (DatabaseView, Option<DatabaseErrorView>)
    decreases count,
{
    if count <= 0 {
        (database, None)
    } else {
        match with_rows(database, predicate, rows, count - 1) {
            (found, Some(error)) => (found, Some(error)),
            (found, None) => with_fact(found, predicate, rows[count - 1]),
        }
    }
}

/// A database after the facts of a delimited text were added.
pub open spec fn with_delimited(
    database: DatabaseView,
    predicate: Seq<char>,
    source: Seq<char>,
    options: DelimitedOptions,
) -> (DatabaseView, Option<DatabaseErrorView>) {
    match ingest::delimited(source, options) {
        Err(error) => (database, Some(DatabaseErrorView::Delimited(error))),
        Ok(rows) => with_rows(database, predicate, rows, rows.len() as int),
    }
}

/// The values that a tuple of identifiers stands for.
pub open spec fn decoded(values: Seq<ConstantView>, tuple: Seq<u32>) -> Seq<ConstantView> {
    Seq::new(tuple.len(), |i: int| values[tuple[i] as int])
}

/// Whether rows are the tuples of a set, in ascending order of their identifiers, as values.
pub open spec fn answers(
    rows: Seq<Seq<ConstantView>>,
    values: Seq<ConstantView>,
    set: Set<Seq<u32>>,
) -> bool {
    exists|list: Seq<Seq<u32>>| #[trigger]
        tuples::ascending_tuples(list) && list.to_set() == set && rows == Seq::new(
            list.len(),
            |i: int| decoded(values, list[i]),
        )
}

/// Whether a query result holds what a database knows of a predicate.
pub open spec fn is_answer(result: QueryResult, database: DatabaseView, name: Seq<char>) -> bool {
    &&& result.predicate@ == name
    &&& defined_id(database, name) is Some
    &&& answers(
        ingest::row_views(result.rows@),
        database.catalog.values,
        database.result->0.full[defined_id(database, name)->0],
    )
}

/// Whether identifiers of values are those of a catalog.
pub open spec fn tuple_known(tuple: Seq<u32>, count: int) -> bool {
    forall|i: int| 0 <= i < tuple.len() ==> (#[trigger] tuple[i]) < count
}

/// Whether a fact is about a defined predicate, with known values, as many as its arity.
pub open spec fn fact_known(
    catalog: CatalogView,
    program: ResolvedProgramView,
    fact: (RelationId, Seq<u32>),
) -> bool {
    &&& is_defined(program, PredicateId(fact.0.0))
    &&& catalog.predicates[fact.0.0 as int].1 == Some(fact.1.len() as usize)
    &&& tuple_known(fact.1, catalog.values.len() as int)
}

/// Whether a program with a plan is ready to be run.
pub open spec fn is_loaded(
    catalog: CatalogView,
    program: ResolvedProgramView,
    plan: ProgramPlanView,
    inserted: Seq<(RelationId, Seq<u32>)>,
) -> bool {
    &&& resolve_laws::program_known(program, catalog)
    &&& forall|i: int|
        0 <= i < program.rules.len() ==> resolve_laws::variables_bound(#[trigger] program.rules[i])
    &&& general::lowers(program, plan)
    &&& execution_general::plan_valid(plan)
    &&& forall|m: int|
        0 <= m < inserted.len() ==> fact_known(catalog, program, #[trigger] inserted[m])
}

/// Whether a database is in a state that it can be brought to.
pub open spec fn is_reachable(database: DatabaseView) -> bool {
    &&& resolve_laws::catalog_fits(database.catalog)
    &&& match database.program {
        None => database.inserted.len() == 0 && database.result is None,
        Some((program, plan)) => {
            &&& is_loaded(database.catalog, program, plan, database.inserted)
            &&& database.result matches Some(store) ==> semantics::results_in(
                program,
                plan,
                database.inserted,
                ROUND_LIMIT,
                store,
            )
        },
    }
}

pub proof fn lemma_defined_is_known(
    program: ResolvedProgramView,
    catalog: CatalogView,
    predicate: PredicateId,
)
    requires
        resolve_laws::program_known(program, catalog),
        is_defined(program, predicate),
    ensures
        resolve_laws::knows(catalog, predicate),
{
    if exists|i: int|
        0 <= i < program.rules.len() && schedule::mentions(#[trigger] program.rules[i], predicate) {
        let i = choose|i: int|
            0 <= i < program.rules.len() && schedule::mentions(
                #[trigger] program.rules[i],
                predicate,
            );
        assert(resolve_laws::rule_known(program.rules[i], catalog));
    } else {
        let i = choose|i: int|
            0 <= i < program.declarations.len() && program.declarations[i] == predicate;
        assert(resolve_laws::knows(catalog, program.declarations[i]));
    }
}

/// A loaded program stays loaded when its catalog grows.
proof fn lemma_growth_keeps_loaded(
    a: CatalogView,
    b: CatalogView,
    program: ResolvedProgramView,
    plan: ProgramPlanView,
    inserted: Seq<(RelationId, Seq<u32>)>,
)
    requires
        is_loaded(a, program, plan, inserted),
        resolve_laws::grows_into(a, b),
    ensures
        is_loaded(b, program, plan, inserted),
{
    resolve_laws::lemma_program_stays_known(program, a, b);
    assert forall|m: int| 0 <= m < inserted.len() implies fact_known(
        b,
        program,
        #[trigger] inserted[m],
    ) by {
        assert(fact_known(a, program, inserted[m]));
        lemma_defined_is_known(program, a, PredicateId(inserted[m].0.0));
        assert(b.predicates[inserted[m].0.0 as int].0 == a.predicates[inserted[m].0.0 as int].0);
    }
}

/// Interning keeps the values that were there, and gives identifiers of known values.
pub proof fn lemma_interned(values: Seq<ConstantView>, added: Seq<ConstantView>, count: int)
    requires
        values.len() <= u32::MAX + 1,
        0 <= count <= added.len(),
    ensures
        values.len() <= interned(values, added, count).0.len() <= u32::MAX + 1,
        forall|i: int|
            0 <= i < values.len() ==> #[trigger] interned(values, added, count).0[i] == values[i],
        interned(values, added, count).1 matches Ok(ids) ==> ids.len() == count && tuple_known(
            ids,
            interned(values, added, count).0.len() as int,
        ),
    decreases count,
{
    if count > 0 {
        lemma_interned(values, added, count - 1);
        let (all, ids) = interned(values, added, count - 1);
        catalog::lemma_find_value(all, added[count - 1]);
        if ids is Ok {
            if let Ok((more, place)) = catalog::with_value(all, added[count - 1]) {
                let longer = ids->Ok_0.push(place as u32);
                assert(tuple_known(longer, more.len() as int)) by {
                    assert forall|i: int| 0 <= i < longer.len() implies (#[trigger] longer[i])
                        < more.len() by {
                        if i < ids->Ok_0.len() {
                            assert(ids->Ok_0[i] < all.len());
                        }
                    }
                }
            }
        }
    }
}

proof fn lemma_interned_error_stays(
    values: Seq<ConstantView>,
    added: Seq<ConstantView>,
    low: int,
    high: int,
)
    requires
        0 <= low <= high,
        interned(values, added, low).1 is Err,
    ensures
        interned(values, added, high) == interned(values, added, low),
    decreases high - low,
{
    if low < high {
        lemma_interned_error_stays(values, added, low, high - 1);
    }
}

/// The facts added to a loaded program are about relations of its plan.
pub proof fn lemma_inserted_fit(
    catalog: CatalogView,
    program: ResolvedProgramView,
    plan: ProgramPlanView,
    inserted: Seq<(RelationId, Seq<u32>)>,
)
    requires
        is_loaded(catalog, program, plan, inserted),
    ensures
        semantics::facts_fit(inserted, plan.predicate_count as int),
        execution_general::plan_valid(semantics::with_facts(plan, inserted)),
        forall|p: PredicateId| #[trigger] is_defined(program, p) ==> p.0 < plan.predicate_count,
{
    assert forall|p: PredicateId| #[trigger] is_defined(program, p) implies p.0
        < plan.predicate_count by {
        assert(general::occurs(program, p));
    }
    assert forall|m: int| 0 <= m < inserted.len() implies (#[trigger] inserted[m]).0.0
        < plan.predicate_count by {
        assert(fact_known(catalog, program, inserted[m]));
        assert(is_defined(program, PredicateId(inserted[m].0.0)));
    }
    let extended = semantics::with_facts(plan, inserted);
    assert forall|m: int| 0 <= m < extended.facts.len() implies (#[trigger] extended.facts[m]).0.0
        < extended.predicate_count by {
        if m < plan.facts.len() {
            assert(extended.facts[m] == plan.facts[m]);
        } else {
            assert(extended.facts[m] == inserted[m - plan.facts.len()]);
        }
    }
}

/// Whether a tuple of a relation has known values, as many as the relation's arity.
pub open spec fn tuple_fits(catalog: CatalogView, relation: int, tuple: Seq<u32>) -> bool {
    &&& 0 <= relation < catalog.predicates.len()
    &&& catalog.predicates[relation].1 == Some(tuple.len() as usize)
    &&& tuple_known(tuple, catalog.values.len() as int)
}

/// The facts of a program are made of known values, as many as the arities say.
proof fn lemma_facts_known(program: ResolvedProgramView, catalog: CatalogView, count: int)
    requires
        resolve_laws::program_known(program, catalog),
        forall|i: int|
            0 <= i < program.rules.len() ==> resolve_laws::variables_bound(
                #[trigger] program.rules[i],
            ),
        0 <= count <= program.rules.len(),
    ensures
        forall|m: int|
            0 <= m < general::fact_tuples(program.rules.take(count)).len() ==> tuple_fits(
                catalog,
                (#[trigger] general::fact_tuples(program.rules.take(count))[m]).0.0 as int,
                general::fact_tuples(program.rules.take(count))[m].1,
            ),
    decreases count,
{
    if count > 0 {
        lemma_facts_known(program, catalog, count - 1);
        let rules = program.rules.take(count);
        assert(rules.drop_last() =~= program.rules.take(count - 1));
        let rule = program.rules[count - 1];
        assert(rules.last() == rule);
        assert(resolve_laws::rule_known(program.rules[count - 1], catalog));
        assert(resolve_laws::variables_bound(program.rules[count - 1]));
        let facts = general::fact_tuples(rules);
        assert forall|m: int| 0 <= m < facts.len() implies tuple_fits(
            catalog,
            (#[trigger] facts[m]).0.0 as int,
            facts[m].1,
        ) by {
            let earlier = general::fact_tuples(program.rules.take(count - 1));
            if m < earlier.len() {
                assert(facts[m] == earlier[m]);
            } else {
                assert forall|i: int| 0 <= i < facts[m].1.len() implies (#[trigger] facts[m].1[i])
                    < catalog.values.len() by {
                    let term = rule.head.terms[i];
                    assert(facts[m].1[i] == general::value_of(term));
                    if let ResolvedTerm::Variable(v) = term {
                        assert(resolve::binds(rule.body, v));
                    }
                }
            }
        }
    }
}

/// Every tuple that follows is made of known values, as many as the arity of its relation says.
pub proof fn lemma_result_known(
    catalog: CatalogView,
    program: ResolvedProgramView,
    plan: ProgramPlanView,
    inserted: Seq<(RelationId, Seq<u32>)>,
    store: StoreView,
)
    requires
        is_loaded(catalog, program, plan, inserted),
        semantics::results_in(program, plan, inserted, ROUND_LIMIT, store),
    ensures
        forall|r: int, t: Seq<u32>|
            0 <= r < store.full.len() && #[trigger] store.full[r].contains(t) ==> tuple_fits(
                catalog,
                r,
                t,
            ),
{
    let known = |r: int| Set::new(|t: Seq<u32>| tuple_fits(catalog, r, t));
    let other = StoreView {
        full: Seq::new(store.full.len(), known),
        delta: Seq::new(store.full.len(), known),
    };
    lemma_inserted_fit(catalog, program, plan, inserted);
    semantics::lemma_result_size(program, plan, inserted, ROUND_LIMIT, store);
    let facts = general::fact_tuples(program.rules);
    lemma_facts_known(program, catalog, program.rules.len() as int);
    assert(program.rules.take(program.rules.len() as int) =~= program.rules);
    let all = facts + inserted;
    assert forall|m: int| 0 <= m < all.len() implies other.full[(#[trigger] all[m]).0.0 as int].contains(
        all[m].1,
    ) by {
        if m < facts.len() {
            assert(all[m] == facts[m]);
            assert(all[m] == plan.facts[m]);
        } else {
            assert(all[m] == inserted[m - facts.len()]);
            assert(fact_known(catalog, program, inserted[m - facts.len()]));
        }
    }
    assert forall|i: int, v: spec_fn(u32) -> u32|
        0 <= i < program.rules.len() && program.rules[i].body.len() > 0 && #[trigger]
        semantics::positives_hold(program.rules[i], None, other, v) && semantics::negatives_hold(
            program.rules[i],
            store,
            v,
        ) implies semantics::head_holds(program.rules[i], other, v) by {
        assert forall|j: int| 0 <= j < program.rules[i].body.len() implies (
        #[trigger] program.rules[i].body[j]).atom.predicate.0 < other.full.len() by {
            let p = program.rules[i].body[j].atom.predicate;
            assert(schedule::mentions(program.rules[i], p));
            assert(general::occurs(program, p));
        }
        lemma_head_known(program, catalog, other, i, v);
        assert(resolve_laws::rule_known(program.rules[i], catalog));
        assert(general::occurs(program, program.rules[i].head.predicate)) by {
            assert(schedule::mentions(program.rules[i], program.rules[i].head.predicate));
        }
    }
    semantics::law_result_is_least(program, plan, inserted, ROUND_LIMIT, store, other);
    assert forall|r: int, t: Seq<u32>|
        0 <= r < store.full.len() && #[trigger] store.full[r].contains(t) implies tuple_fits(
        catalog,
        r,
        t,
    ) by {
        assert(other.full[r].contains(t));
    }
}

proof fn lemma_head_known(
    program: ResolvedProgramView,
    catalog: CatalogView,
    other: StoreView,
    i: int,
    v: spec_fn(u32) -> u32,
)
    requires
        resolve_laws::program_known(program, catalog),
        0 <= i < program.rules.len(),
        resolve_laws::variables_bound(program.rules[i]),
        semantics::positives_hold(program.rules[i], None, other, v),
        forall|j: int|
            0 <= j < program.rules[i].body.len() ==> (
            #[trigger] program.rules[i].body[j]).atom.predicate.0 < other.full.len(),
        forall|r: int, t: Seq<u32>|
            0 <= r < other.full.len() && #[trigger] other.full[r].contains(t) ==> tuple_known(
                t,
                catalog.values.len() as int,
            ),
    ensures
        tuple_known(semantics::head_tuple(program.rules[i], v), catalog.values.len() as int),
{
    let rule = program.rules[i];
    let n = catalog.values.len() as int;
    let head = semantics::head_tuple(rule, v);
    assert(resolve_laws::rule_known(program.rules[i], catalog));
    assert forall|k: int| 0 <= k < head.len() implies (#[trigger] head[k]) < n by {
        let term = rule.head.terms[k];
        match term {
            ResolvedTerm::Value(value) => {
                assert(rule.head.terms[k] is Value);
            },
            ResolvedTerm::Variable(variable) => {
                assert(resolve::binds(rule.body, variable));
                let j = choose|j: int|
                    0 <= j < rule.body.len() && !(#[trigger] rule.body[j]).negated
                        && rule.body[j].atom.terms.contains(ResolvedTerm::Variable(variable));
                let m = choose|m: int|
                    0 <= m < rule.body[j].atom.terms.len() && rule.body[j].atom.terms[m]
                        == ResolvedTerm::Variable(variable);
                let tuple = semantics::literal_tuple(rule, j, v);
                assert(other.full[rule.body[j].atom.predicate.0 as int].contains(tuple));
                assert(tuple[m] == v(variable.0));
                assert(head[k] == v(variable.0));
            },
        }
    }
}

/// Whether some dependency of a program is negative and lies on a cycle.
pub open spec fn has_negative_cycle(program: ResolvedProgramView) -> bool {
    let deps = schedule::program_dependencies(program);
    exists|i: int| 0 <= i < deps.len() && graph::closes_negative_cycle(deps, i)
}

/// What the first negative dependency on a cycle is reported as.
pub open spec fn is_cycle_error(program: ResolvedProgramView, error: DatabaseErrorView) -> bool {
    let deps = schedule::program_dependencies(program);
    exists|i: int| #[trigger]
        schedule::is_first_negative_cycle(deps, i) && error == DatabaseErrorView::Lowering(
            (StratificationError::NegativeCycle { head: deps[i].head, body: deps[i].body }).text(),
            Span { start: 0, end: 0 },
        )
}

/// Whether loading a source text leads from one state to another, with an error or without.
///
/// A text that does not parse changes nothing. One that does not resolve, or that cannot be
/// stratified, leaves the program that was loaded before, but its names and values stay known.
/// Otherwise its program takes the place of the former one and of the facts added to that.
pub open spec fn is_load(
    before: DatabaseView,
    source: Seq<char>,
    after: DatabaseView,
    error: Option<DatabaseErrorView>,
) -> bool {
    let parsed = parser::parsed(source);
    let (output, catalog) = resolve::resolved(before.catalog, parsed.program);
    let grown = DatabaseView { catalog, ..before };
    if parsed.diagnostics.len() > 0 {
        after == before && error == Some(DatabaseErrorView::Parse(parsed.diagnostics))
    } else if output.diagnostics.len() > 0 {
        after == grown && error == Some(DatabaseErrorView::Resolve(output.diagnostics))
    } else if has_negative_cycle(output.program) {
        after == grown && error is Some && is_cycle_error(output.program, error->0)
    } else {
        &&& error is None
        &&& after.catalog == catalog
        &&& after.program is Some
        &&& ({
            let (program, plan) = after.program->0;
            program == output.program && general::lowers(program, plan)
        })
        &&& after.inserted.len() == 0
        &&& after.result is None
    }
}

/// Whether running a database leads from one state to another, with a report or an error.
pub open spec fn is_run(
    before: DatabaseView,
    after: DatabaseView,
    outcome: Result<Seq<GeneralSccSummary>, DatabaseErrorView>,
) -> bool {
    match before.program {
        None => {
            &&& outcome == Err::<Seq<GeneralSccSummary>, DatabaseErrorView>(
                DatabaseErrorView::NoProgram,
            )
            &&& after == before
        },
        Some((program, plan)) => {
            let extended = semantics::with_facts(plan, before.inserted);
            match execution_general::run_program(extended, ROUND_LIMIT) {
                None => {
                    &&& outcome == Err::<Seq<GeneralSccSummary>, DatabaseErrorView>(
                        DatabaseErrorView::Execution(
                            GeneralExecutionError::IterationLimit { limit: ROUND_LIMIT },
                        ),
                    )
                    &&& after == before
                },
                Some(store) => {
                    &&& outcome is Ok
                    &&& execution_general::summarized(extended, ROUND_LIMIT, outcome->Ok_0)
                    &&& after == (DatabaseView { result: Some(store), ..before })
                    &&& semantics::results_in(program, plan, before.inserted, ROUND_LIMIT, store)
                },
            }
        },
    }
}

/// Why a query of a predicate fails, if it does.
pub open spec fn query_error(database: DatabaseView, name: Seq<char>) -> Option<DatabaseErrorView> {
    if defined_id(database, name) is None {
        Some(DatabaseErrorView::UnknownPredicate(name))
    } else if database.result is None {
        Some(DatabaseErrorView::NotRun)
    } else {
        None
    }
}

/// The name of an output of the loaded program.
pub open spec fn output_name(database: DatabaseView, index: int) -> Seq<char> {
    let (program, plan) = database.program->0;
    database.catalog.predicates[program.outputs[index].0 as int].0
}

/// Whether output `index` is the first one that cannot be queried.
pub open spec fn is_first_failure(database: DatabaseView, index: int) -> bool {
    let (program, plan) = database.program->0;
    &&& 0 <= index < program.outputs.len()
    &&& query_error(database, output_name(database, index)) is Some
    &&& forall|i: int|
        0 <= i < index ==> query_error(database, #[trigger] output_name(database, i)) is None
}

/// Looks up or adds values in a catalog.
fn intern_values(values: &mut ValueCatalog, added: Vec<InternedValue>) -> (result: Result<
    Vec<u32>,
    CatalogError,
>)
    requires
        old(values).wf(),
    ensures
        final(values).wf(),
        final(values)@ == interned(old(values)@, ast::views(added@), added@.len() as int).0,
        match (result, interned(old(values)@, ast::views(added@), added@.len() as int).1) {
            (Ok(ids), Ok(expected)) => ids@ == expected,
            (Err(error), Err(expected)) => error@ == expected,
            _ => false,
        },
{
    let ghost start = values@;
    let ghost all = ast::views(added@);
    let mut ids: Vec<u32> = Vec::new();
    for value in iter: added
        invariant
            values.wf(),
            start == old(values)@,
            all == ast::views(added@),
            iter.seq() == added@,
            values@ == interned(start, all, iter.index() as int).0,
            interned(start, all, iter.index() as int).1 is Ok,
            interned(start, all, iter.index() as int).1->Ok_0 == ids@,
    {
        assert(all[iter.index() as int] == value@);
        match values.intern(value) {
            Ok(id) => {
                ids.push(id.0);
            },
            Err(error) => {
                proof {
                    lemma_interned_error_stays(
                        start,
                        all,
                        iter.index() as int + 1,
                        all.len() as int,
                    );
                }
                return Err(error);
            },
        }
    }
    Ok(ids)
}

/// A Datalog program with the facts added to it and, once it was run, what follows from them.
pub struct Database {
    catalog: ProgramCatalog,
    program: Option<ResolvedProgram>,
    plan: Option<GeneralProgramPlan>,
    active: Vec<u32>,
    inserted: Vec<(RelationId, Vec<u32>)>,
    result: Option<TupleStore>,
}

impl View for Database {
    type V = DatabaseView;

    closed spec fn view(&self) -> DatabaseView {
        DatabaseView {
            catalog: self.catalog@,
            program: match (self.program, self.plan) {
                (Some(program), Some(plan)) => Some((program@, plan@)),
                _ => None,
            },
            inserted: relational::fact_views(self.inserted@),
            result: match self.result {
                Some(store) => Some(store@),
                None => None,
            },
        }
    }
}

impl Default for Database {
    fn default() -> (database: Self)
        ensures
            database.wf(),
            database@ == empty_database(),
    {
        Database::new()
    }
}

/// A database with nothing in it.
pub open spec fn empty_database() -> DatabaseView {
    DatabaseView {
        catalog: CatalogView { predicates: Seq::empty(), values: Seq::empty() },
        program: None,
        inserted: Seq::empty(),
        result: None,
    }
}

impl Database {
    /// Whether the parts of the database belong together.
    pub closed spec fn wf(&self) -> bool {
        &&& self.catalog.wf()
        &&& self.program is Some <==> self.plan is Some
        &&& sorted::ascending(self.active@)
        &&& forall|p: u32| #[trigger]
            self.active@.contains(p) <==> (self.program is Some && is_defined(
                self.program->0@,
                PredicateId(p),
            ))
        &&& self.result matches Some(store) ==> store.wf()
        &&& is_reachable(self@)
    }

    /// The state of a well-formed database is one that it can be brought to.
    pub proof fn lemma_reachable(&self)
        requires
            self.wf(),
        ensures
            is_reachable(self@),
    {
    }

    pub fn new() -> (database: Self)
        ensures
            database.wf(),
            database@ == empty_database(),
    {
        let database = Database {
            catalog: ProgramCatalog::new(),
            program: None,
            plan: None,
            active: Vec::new(),
            inserted: Vec::new(),
            result: None,
        };
        assert(database@ =~= empty_database());
        database
    }

    pub fn catalog(&self) -> (catalog: &ProgramCatalog)
        requires
            self.wf(),
        ensures
            catalog@ == self@.catalog,
            catalog.wf(),
    {
        &self.catalog
    }

    /// The identifier of a predicate of the loaded program.
    fn defined(&self, name: &str) -> (id: Option<PredicateId>)
        requires
            self.wf(),
        ensures
            match defined_id(self@, name@) {
                Some(i) => {
                    &&& id == Some(PredicateId(i as u32))
                    &&& 0 <= i < self@.catalog.predicates.len()
                    &&& i <= u32::MAX
                },
                None => id is None,
            },
    {
        match self.catalog.predicates.id(name) {
            None => None,
            Some(id) => match position_of(&self.active, id.0) {
                Some(position) => {
                    assert(self.active@.contains(id.0));
                    Some(id)
                },
                None => None,
            },
        }
    }

    /// Adds a fact, by the name of its predicate.
    ///
    /// Fails if the program does not define the predicate, if the number of values is not its
    /// arity, or if a value cannot be added to the catalog. What followed is forgotten.
    pub fn insert(&mut self, predicate: &str, values: Vec<InternedValue>) -> (result: Result<
        (),
        DatabaseError,
    >)
        requires
            old(self).wf(),
        ensures
            final(self).wf(),
            final(self)@ == with_fact(old(self)@, predicate@, ast::views(values@)).0,
            match (result, with_fact(old(self)@, predicate@, ast::views(values@)).1) {
                (Ok(_), None) => true,
                (Err(error), Some(expected)) => error@ == expected,
                _ => false,
            },
    {
        let ghost before = self@;
        let ghost added = ast::views(values@);
        let id = match self.defined(predicate) {
            Some(id) => id,
            None => {
                return Err(DatabaseError::UnknownPredicate(predicate.to_owned()));
            },
        };
        proof {
            let (program, plan) = before.program->0;
            lemma_defined_is_known(program, before.catalog, id);
        }
        let expected: usize = match self.catalog.predicates.get(id) {
            Some(metadata) => match metadata.arity {
                Some(arity) => arity,
                None => 0,
            },
            None => 0,
        };
        if values.len() != expected {
            return Err(
                DatabaseError::Arity {
                    predicate: predicate.to_owned(),
                    expected,
                    actual: values.len(),
                },
            );
        }
        let ghost arity = values.len();
        let interned_values = intern_values(&mut self.catalog.values, values);
        proof {
            lemma_interned(before.catalog.values, added, added.len() as int);
            let (program, plan) = before.program->0;
            assert(resolve_laws::grows_into(before.catalog, self.catalog@));
            lemma_growth_keeps_loaded(
                before.catalog,
                self.catalog@,
                program,
                plan,
                before.inserted,
            );
        }
        match interned_values {
            Err(error) => {
                assert(self@ =~= with_fact(before, predicate@, added).0);
                Err(DatabaseError::Catalog(error))
            },
            Ok(tuple) => {
                let ghost fact = (RelationId(id.0), tuple@);
                let ghost facts = self.inserted@;
                self.inserted.push((RelationId(id.0), tuple));
                self.result = None;
                proof {
                    assert(relational::fact_views(self.inserted@)
                        =~= relational::fact_views(facts).push(fact));
                    assert(self@ =~= with_fact(before, predicate@, added).0);
                    let (program, plan) = before.program->0;
                    assert(fact_known(self@.catalog, program, fact)) by {
                        assert(arity == fact.1.len());
                    }
                    assert forall|m: int| 0 <= m < self@.inserted.len() implies fact_known(
                        self@.catalog,
                        program,
                        #[trigger] self@.inserted[m],
                    ) by {
                        if m < before.inserted.len() {
                            assert(self@.inserted[m] == before.inserted[m]);
                        }
                    }
                }
                Ok(())
            },
        }
    }

    /// Adds the facts of a delimited text, in the order of its lines, up to the first that cannot
    /// be added.
    pub fn load_delimited(
        &mut self,
        predicate: &str,
        source: &str,
        options: DelimitedOptions,
    ) -> (result: Result<(), DatabaseError>)
        requires
            old(self).wf(),
            ingest::fits(source@),
        ensures
            final(self).wf(),
            final(self)@ == with_delimited(old(self)@, predicate@, source@, options).0,
            match (result, with_delimited(old(self)@, predicate@, source@, options).1) {
                (Ok(_), None) => true,
                (Err(error), Some(expected)) => error@ == expected,
                _ => false,
            },
    {
        let rows = match parse_delimited_parallel(source, options) {
            Ok(rows) => rows,
            Err(error) => {
                return Err(DatabaseError::Delimited(error));
            },
        };
        let ghost before = self@;
        let ghost all = ingest::row_views(rows@);
        for row in iter: rows
            invariant
                self.wf(),
                all == ingest::row_views(rows@),
                iter.seq() == rows@,
                with_rows(before, predicate@, all, iter.index() as int).0 == self@,
                with_rows(before, predicate@, all, iter.index() as int).1 is None,
                ingest::delimited(source@, options) is Ok,
                ingest::delimited(source@, options)->Ok_0 == all,
                before == old(self)@,
        {
            assert(all[iter.index() as int] == ast::views(row@));
            match self.insert(predicate, row) {
                Ok(_) => {},
                Err(error) => {
                    proof {
                        lemma_rows_error_stays(
                            before,
                            predicate@,
                            all,
                            iter.index() as int + 1,
                            all.len() as int,
                        );
                    }
                    return Err(error);
                },
            }
        }
        Ok(())
    }

    /// Loads a program in place of the one that was loaded before.
    pub fn load_program(&mut self, source: &str) -> (result: Result<(), DatabaseError>)
        requires
            old(self).wf(),
        ensures
            final(self).wf(),
            is_load(
                old(self)@,
                source@,
                final(self)@,
                match result {
                    Ok(_) => None,
                    Err(error) => Some(error@),
                },
            ),
    {
        let ghost before = self@;
        let parsed = parse_program(source);
        if !parsed.is_success() {
            return Err(DatabaseError::Parse(parsed.diagnostics));
        }
        proof {
            resolve_laws::law_resolved_program_is_safe(before.catalog, parsed@.program);
        }
        let resolved = resolve_program(&parsed.program, &mut self.catalog);
        let ghost output = resolved@;
        proof {
            if let Some((program, plan)) = before.program {
                lemma_growth_keeps_loaded(
                    before.catalog,
                    self.catalog@,
                    program,
                    plan,
                    before.inserted,
                );
            }
            assert(self@ =~= (DatabaseView { catalog: self.catalog@, ..before }));
        }
        if !resolved.is_success() {
            return Err(DatabaseError::Resolve(resolved.diagnostics));
        }
        proof {
            lemma_resolved_is_lowerable(&resolved.program, self.catalog@);
        }
        let plan = match lower_general(&resolved.program) {
            Ok(plan) => plan,
            Err(error) => {
                proof {
                    let deps = schedule::program_dependencies(output.program);
                    assert(has_negative_cycle(output.program));
                    let i = choose|i: int| #[trigger]
                        schedule::is_first_negative_cycle(deps, i) && error.message@ == (
                        StratificationError::NegativeCycle {
                            head: deps[i].head,
                            body: deps[i].body,
                        }).text();
                    assert(schedule::is_first_negative_cycle(deps, i));
                }
                return Err(DatabaseError::Lowering(error));
            },
        };
        self.active = defined_predicates(&resolved.program);
        self.program = Some(resolved.program);
        self.plan = Some(plan);
        self.inserted = Vec::new();
        self.result = None;
        assert(relational::fact_views(self.inserted@).len() == 0);
        Ok(())
    }

    /// Runs the loaded program on its facts and those added to it.
    pub fn run(&mut self) -> (result: Result<RunSummary, DatabaseError>)
        requires
            old(self).wf(),
        ensures
            final(self).wf(),
            is_run(
                old(self)@,
                final(self)@,
                match result {
                    Ok(summary) => Ok(summary.sccs@),
                    Err(error) => Err(error@),
                },
            ),
            result matches Ok(summary) ==> summary.backend == ExecutionBackend::GeneralCpu,
    {
        let ghost before = self@;
        let mut plan = match self.plan.take() {
            Some(plan) => plan,
            None => {
                return Err(DatabaseError::NoProgram);
            },
        };
        let ghost initial = plan@;
        let ghost own = plan.facts@;
        let count: usize = plan.facts.len();
        let mut i: usize = 0;
        assert(plan@ =~= semantics::with_facts(initial, before.inserted.take(0)));
        while i < self.inserted.len()
            invariant
                i <= self.inserted@.len(),
                before.inserted == relational::fact_views(self.inserted@),
                count == own.len(),
                initial.facts == relational::fact_views(own),
                plan.facts@.len() == count + i,
                plan.facts@.take(count as int) == own,
                plan@ == semantics::with_facts(initial, before.inserted.take(i as int)),
            decreases self.inserted@.len() - i,
        {
            let relation = self.inserted[i].0;
            let tuple = copy_tuple(&self.inserted[i].1);
            let ghost fact = (relation, tuple@);
            let ghost facts = plan.facts@;
            plan.facts.push((relation, tuple));
            proof {
                assert(before.inserted[i as int] == fact);
                assert(before.inserted.take(i + 1) =~= before.inserted.take(i as int).push(fact));
                assert(plan@.facts =~= relational::fact_views(facts).push(fact));
                assert(plan@ =~= semantics::with_facts(initial, before.inserted.take(i + 1)));
                assert(plan.facts@.take(count as int) =~= facts.take(count as int));
            }
            i += 1;
        }
        assert(before.inserted.take(i as int) =~= before.inserted);
        proof {
            let program = self.program->0@;
            lemma_inserted_fit(before.catalog, program, initial, before.inserted);
        }
        let outcome = execute_general(&plan, ROUND_LIMIT);
        plan.facts.truncate(count);
        assert(plan.facts@ =~= own);
        assert(plan@ =~= initial);
        self.plan = Some(plan);
        assert(self@ =~= before);
        match outcome {
            Err(error) => Err(DatabaseError::Execution(error)),
            Ok(execution) => {
                let summary = RunSummary {
                    backend: ExecutionBackend::GeneralCpu,
                    sccs: execution.summaries,
                };
                self.result = Some(execution.store);
                assert(self@ =~= (DatabaseView { result: Some(execution.store@), ..before }));
                Ok(summary)
            },
        }
    }

    /// The values that a tuple of identifiers stands for.
    fn decode(&self, tuple: &Vec<u32>) -> (values: Vec<InternedValue>)
        requires
            tuple_known(tuple@, self.catalog@.values.len() as int),
        ensures
            ast::views(values@) == decoded(self.catalog@.values, tuple@),
    {
        let mut values: Vec<InternedValue> = Vec::new();
        let mut i: usize = 0;
        while i < tuple.len()
            invariant
                i <= tuple@.len(),
                tuple_known(tuple@, self.catalog@.values.len() as int),
                ast::views(values@) == decoded(self.catalog@.values, tuple@).take(i as int),
            decreases tuple@.len() - i,
        {
            assert(tuple@[i as int] < self.catalog@.values.len());
            if let Some(value) = self.catalog.values.get(ValueId(tuple[i])) {
                let copy = value.copied();
                proof {
                    ast::lemma_views_push(values@, copy);
                    assert(decoded(self.catalog@.values, tuple@).take(i + 1) =~= decoded(
                        self.catalog@.values,
                        tuple@,
                    ).take(i as int).push(copy@));
                }
                values.push(copy);
            }
            i += 1;
        }
        assert(ast::views(values@) =~= decoded(self.catalog@.values, tuple@));
        values
    }

    /// The tuples of a predicate, in ascending order of their identifiers.
    ///
    /// Fails if the program does not define the predicate, or was not run since it changed.
    pub fn query(&self, predicate: &str) -> (result: Result<QueryResult, DatabaseError>)
        requires
            self.wf(),
        ensures
            match query_error(self@, predicate@) {
                Some(expected) => result is Err && result->Err_0@ == expected,
                None => {
                    &&& result is Ok
                    &&& is_answer(result->Ok_0, self@, predicate@)
                    &&& forall|i: int|
                        0 <= i < result->Ok_0.rows@.len() ==> self@.catalog.predicates[defined_id(
                            self@,
                            predicate@,
                        )->0].1 == Some((#[trigger] result->Ok_0.rows@[i]).len())
                },
            },
    {
        let id = match self.defined(predicate) {
            Some(id) => id,
            None => {
                return Err(DatabaseError::UnknownPredicate(predicate.to_owned()));
            },
        };
        let store = match &self.result {
            Some(store) => store,
            None => {
                return Err(DatabaseError::NotRun);
            },
        };
        let ghost values = self@.catalog.values;
        let ghost set = store@.full[id.0 as int];
        let mut rows: Vec<Vec<InternedValue>> = Vec::new();
        proof {
            let (program, plan) = self@.program->0;
            lemma_inserted_fit(self@.catalog, program, plan, self@.inserted);
            lemma_result_known(self@.catalog, program, plan, self@.inserted, store@);
            semantics::lemma_result_size(program, plan, self@.inserted, ROUND_LIMIT, store@);
            assert(is_defined(program, id));
        }
        if let Some(found) = store.rows(RelationId(id.0)) {
            proof {
                found.lemma_listed();
            }
            let ghost list = found.listed();
            let ghost all = Seq::new(list.len(), |k: int| decoded(values, list[k]));
            let count: usize = found.len();
            let mut i: usize = 0;
            assert(ingest::row_views(rows@) =~= all.take(0));
            while i < count
                invariant
                    i <= count,
                    count == list.len(),
                    list == found.listed(),
                    values == self.catalog@.values,
                    found@ == set,
                    list.to_set() == set,
                    values == self@.catalog.values,
                    forall|t: Seq<u32>| #[trigger]
                        set.contains(t) ==> tuple_fits(self@.catalog, id.0 as int, t),
                    rows@.len() == i,
                    forall|k: int|
                        0 <= k < i ==> self@.catalog.predicates[id.0 as int].1 == Some(
                            (#[trigger] rows@[k]).len(),
                        ),
                    all == Seq::new(list.len(), |k: int| decoded(values, list[k])),
                    ingest::row_views(rows@) == all.take(i as int),
                decreases count - i,
            {
                if let Some(tuple) = found.get(i) {
                    assert(list.to_set().contains(list[i as int]));
                    let row = self.decode(tuple);
                    proof {
                        assert(ast::views(row@).len() == list[i as int].len());
                        assert(row.len() == row@.len());
                        assert(tuple_fits(self@.catalog, id.0 as int, list[i as int]));
                        assert(ingest::row_views(rows@.push(row)) =~= ingest::row_views(
                            rows@,
                        ).push(ast::views(row@)));
                        assert(all.take(i + 1) =~= all.take(i as int).push(all[i as int]));
                    }
                    rows.push(row);
                }
                i += 1;
            }
            proof {
                assert(ingest::row_views(rows@) =~= all);
                assert(tuples::ascending_tuples(list));
                assert(answers(ingest::row_views(rows@), values, set));
            }
        }
        Ok(QueryResult { predicate: predicate.to_owned(), rows })
    }

    /// The backend that suits the loaded program, and its plan.
    pub fn explain(&self) -> (result: Result<String, DatabaseError>)
        requires
            self.wf(),
        ensures
            self@.program is None ==> result is Err && result->Err_0@
                == DatabaseErrorView::NoProgram,
            self@.program matches Some((program, plan)) ==> {
                &&& result is Ok
                &&& exists|backend: ExecutionBackend| #[trigger]
                    is_preferred(program, backend) && result->Ok_0@ == "backend: "@
                        + backend_name(backend) + "\n"@ + explain::plan_text(
                        self@.catalog,
                        plan,
                    )
            },
    {
        let (program, plan) = match (&self.program, &self.plan) {
            (Some(program), Some(plan)) => (program, plan),
            _ => {
                return Err(DatabaseError::NoProgram);
            },
        };
        proof {
            lemma_inserted_fit(self@.catalog, program@, plan@, self@.inserted);
            assert forall|p: PredicateId| #[trigger] general::occurs(program@, p) implies p.0
                < usize::MAX by {
                assert(general::is_predicate_count(program@, plan.predicate_count as int));
            }
            let extended = semantics::with_facts(plan@, self@.inserted);
            assert forall|i: int| 0 <= i < plan@.facts.len() implies (#[trigger] plan@.facts[i]).0.0
                < plan.predicate_count by {
                assert(extended.facts[i] == plan@.facts[i]);
            }
        }
        let backend = match lower_binary(program) {
            Ok(_) => ExecutionBackend::BinaryHybrid,
            Err(_) => ExecutionBackend::GeneralCpu,
        };
        assert(is_preferred(program@, backend));
        let mut text = "backend: ".to_owned();
        match backend {
            ExecutionBackend::BinaryHybrid => text.append("BinaryHybrid"),
            ExecutionBackend::GeneralCpu => text.append("GeneralCpu"),
        }
        text.append("\n");
        let lowered = explain_general(plan, &self.catalog);
        text.append(lowered.as_str());
        Ok(text)
    }

    /// The tuples of every output predicate, in the order of the program.
    pub fn outputs(&self) -> (result: Result<Vec<QueryResult>, DatabaseError>)
        requires
            self.wf(),
        ensures
            self@.program is None ==> result is Err && result->Err_0@
                == DatabaseErrorView::NoProgram,
            self@.program matches Some((program, plan)) ==> {
                &&& result is Err <==> exists|i: int| #[trigger] is_first_failure(self@, i)
                &&& result matches Err(error) ==> exists|i: int| #[trigger]
                    is_first_failure(self@, i) && query_error(self@, output_name(self@, i)) == Some(
                        error@,
                    )
                &&& result matches Ok(results) ==> {
                    &&& results@.len() == program.outputs.len()
                    &&& forall|i: int|
                        0 <= i < results@.len() ==> is_answer(
                            #[trigger] results@[i],
                            self@,
                            output_name(self@, i),
                        )
                }
            },
    {
        let program = match &self.program {
            Some(program) => program,
            None => {
                return Err(DatabaseError::NoProgram);
            },
        };
        let ghost outputs = program@.outputs;
        let mut results: Vec<QueryResult> = Vec::new();
        let mut i: usize = 0;
        while i < program.outputs.len()
            invariant
                i <= program.outputs@.len(),
                self.wf(),
                self.program == Some(*program),
                outputs == program@.outputs,
                results@.len() == i,
                forall|k: int|
                    0 <= k < i ==> query_error(self@, #[trigger] output_name(self@, k)) is None,
                forall|k: int|
                    0 <= k < i ==> is_answer(
                        #[trigger] results@[k],
                        self@,
                        output_name(self@, k),
                    ),
            decreases program.outputs@.len() - i,
        {
            let id = program.outputs[i];
            assert(resolve_laws::knows(self@.catalog, outputs[i as int]));
            if let Some(metadata) = self.catalog.predicates.get(id) {
                assert(metadata.name@ == output_name(self@, i as int));
                match self.query(metadata.name.as_str()) {
                    Ok(found) => {
                        results.push(found);
                    },
                    Err(error) => {
                        assert(is_first_failure(self@, i as int));
                        return Err(error);
                    },
                }
            }
            i += 1;
        }
        Ok(results)
    }
}

/// The predicates that rules and declarations mention.
fn defined_predicates(program: &ResolvedProgram) -> (predicates: Vec<u32>)
    ensures
        sorted::ascending(predicates@),
        forall|p: u32| #[trigger]
            predicates@.contains(p) <==> is_defined(program@, PredicateId(p)),
{
    let mut predicates: Vec<u32> = Vec::new();
    let mut i: usize = 0;
    while i < program.rules.len()
        invariant
            i <= program.rules@.len(),
            sorted::ascending(predicates@),
            forall|p: u32| #[trigger]
                predicates@.contains(p) <==> mentioned_before(program@, i as int, p),
        decreases program.rules@.len() - i,
    {
        let rule = &program.rules[i];
        let ghost view = program@.rules[i as int];
        assert(view == rule@);
        insert_ascending(&mut predicates, rule.head.predicate.0);
        let mut j: usize = 0;
        while j < rule.body.len()
            invariant
                j <= rule.body@.len(),
                view == rule@,
                sorted::ascending(predicates@),
                forall|p: u32| #[trigger]
                    predicates@.contains(p) <==> (mentioned_before(program@, i as int, p)
                        || view.head.predicate.0 == p || body_mentions(view, j as int, p)),
            decreases rule.body@.len() - j,
        {
            assert(view.body[j as int] == rule.body@[j as int]@);
            let ghost earlier = predicates@;
            insert_ascending(&mut predicates, rule.body[j].atom.predicate.0);
            proof {
                assert forall|p: u32| #[trigger]
                    predicates@.contains(p) <==> (mentioned_before(program@, i as int, p)
                        || view.head.predicate.0 == p || body_mentions(view, j + 1, p)) by {
                    assert(earlier.contains(p) <==> (mentioned_before(program@, i as int, p)
                        || view.head.predicate.0 == p || body_mentions(view, j as int, p)));
                    if body_mentions(view, j + 1, p) {
                        let k = choose|k: int|
                            0 <= k < j + 1 && (#[trigger] view.body[k]).atom.predicate.0 == p;
                        if k < j {
                            assert(body_mentions(view, j as int, p));
                        }
                    }
                    if body_mentions(view, j as int, p) {
                        assert(body_mentions(view, j + 1, p));
                    }
                    if view.body[j as int].atom.predicate.0 == p {
                        assert(body_mentions(view, j + 1, p));
                    }
                }
            }
            j += 1;
        }
        proof {
            assert forall|p: u32| #[trigger]
                predicates@.contains(p) <==> mentioned_before(program@, i + 1, p) by {
                assert(schedule::mentions(view, PredicateId(p)) <==> (view.head.predicate.0 == p
                    || body_mentions(view, view.body.len() as int, p))) by {
                    if body_mentions(view, view.body.len() as int, p) {
                        let k = choose|k: int|
                            0 <= k < view.body.len() && (#[trigger] view.body[k]).atom.predicate.0
                                == p;
                        assert(view.body[k].atom.predicate == PredicateId(p));
                    }
                }
                if mentioned_before(program@, i + 1, p) {
                    let k = choose|k: int|
                        0 <= k < i + 1 && schedule::mentions(
                            #[trigger] program@.rules[k],
                            PredicateId(p),
                        );
                    if k < i {
                        assert(mentioned_before(program@, i as int, p));
                    }
                }
                if mentioned_before(program@, i as int, p) {
                    assert(mentioned_before(program@, i + 1, p));
                }
                if schedule::mentions(program@.rules[i as int], PredicateId(p)) {
                    assert(mentioned_before(program@, i + 1, p));
                }
            }
        }
        i += 1;
    }
    let mut d: usize = 0;
    while d < program.declarations.len()
        invariant
            d <= program.declarations@.len(),
            sorted::ascending(predicates@),
            forall|p: u32| #[trigger]
                predicates@.contains(p) <==> (mentioned_before(
                    program@,
                    program@.rules.len() as int,
                    p,
                ) || program@.declarations.take(d as int).contains(PredicateId(p))),
        decreases program.declarations@.len() - d,
    {
        let id = program.declarations[d];
        let ghost earlier = predicates@;
        insert_ascending(&mut predicates, id.0);
        proof {
            let longer = program@.declarations.take(d + 1);
            assert(longer =~= program@.declarations.take(d as int).push(id));
            assert forall|p: u32| #[trigger]
                predicates@.contains(p) <==> (mentioned_before(
                    program@,
                    program@.rules.len() as int,
                    p,
                ) || longer.contains(PredicateId(p))) by {
                assert(earlier.contains(p) <==> (mentioned_before(
                    program@,
                    program@.rules.len() as int,
                    p,
                ) || program@.declarations.take(d as int).contains(PredicateId(p))));
                vstd::seq_lib::lemma_seq_contains_after_push(
                    program@.declarations.take(d as int),
                    id,
                    PredicateId(p),
                );
            }
        }
        d += 1;
    }
    assert(program@.declarations.take(d as int) =~= program@.declarations);
    assert forall|p: u32| #[trigger] predicates@.contains(p) <==> is_defined(
        program@,
        PredicateId(p),
    ) by {
        assert(mentioned_before(program@, program@.rules.len() as int, p) <==> exists|k: int|
            0 <= k < program@.rules.len() && schedule::mentions(
                #[trigger] program@.rules[k],
                PredicateId(p),
            ));
    }
    predicates
}

/// Whether one of the first rules mentions a predicate.
spec fn mentioned_before(program: ResolvedProgramView, count: int, predicate: u32) -> bool {
    exists|k: int|
        0 <= k < count && schedule::mentions(#[trigger] program.rules[k], PredicateId(predicate))
}

/// Whether one of the first body literals mentions a predicate.
spec fn body_mentions(rule: ResolvedRuleView, count: int, predicate: u32) -> bool {
    exists|k: int| 0 <= k < count && (#[trigger] rule.body[k]).atom.predicate.0 == predicate
}

/// A resolved program can be lowered, and what it is lowered to can be evaluated.
proof fn lemma_resolved_is_lowerable(program: &ResolvedProgram, catalog: CatalogView)
    requires
        resolve_laws::program_known(program@, catalog),
        catalog.predicates.len() <= usize::MAX,
        forall|i: int|
            0 <= i < program@.rules.len() ==> {
                &&& resolve_laws::variables_bound(#[trigger] program@.rules[i])
                &&& resolve_laws::rule_named(program@.rules[i])
            },
    ensures
        general::predicates_fit(program@),
        general::program_safe(program@),
        forall|i: int|
            0 <= i < program@.rules.len() ==> !general::is_open_fact(#[trigger] program@.rules[i]),
{
    assert forall|p: PredicateId| #[trigger] general::occurs(program@, p) implies p.0
        < usize::MAX by {
        if program@.outputs.contains(p) {
            let k = choose|k: int| 0 <= k < program@.outputs.len() && program@.outputs[k] == p;
            assert(resolve_laws::knows(catalog, program@.outputs[k]));
        } else {
            assert(is_defined(program@, p));
            lemma_defined_is_known(program@, catalog, p);
        }
    }
    assert forall|i: int| 0 <= i < program@.rules.len() && (#[trigger] program@.rules[i]).body.len() > 0 implies general::rule_safe(
        program@.rules[i],
    ) by {
        assert(program.rules@[i].variable_names.len() == program@.rules[i].variable_names.len());
        resolve_laws::lemma_bound_rule_is_safe(program@.rules[i]);
    }
    assert forall|i: int| 0 <= i < program@.rules.len() implies !general::is_open_fact(
        #[trigger] program@.rules[i],
    ) by {
        let rule = program@.rules[i];
        assert(resolve_laws::variables_bound(program@.rules[i]));
        if rule.body.len() == 0 {
            assert forall|k: int| 0 <= k < rule.head.terms.len() implies (
            #[trigger] rule.head.terms[k]) is Value by {
                if let ResolvedTerm::Variable(v) = rule.head.terms[k] {
                    assert(resolve::binds(rule.body, v));
                }
            }
        }
    }
}

proof fn lemma_rows_error_stays(
    database: DatabaseView,
    predicate: Seq<char>,
    rows: Seq<Seq<ConstantView>>,
    low: int,
    high: int,
)
    requires
        0 <= low <= high,
        with_rows(database, predicate, rows, low).1 is Some,
    ensures
        with_rows(database, predicate, rows, high) == with_rows(database, predicate, rows, low),
    decreases high - low,
{
    if low < high {
        lemma_rows_error_stays(database, predicate, rows, low, high - 1);
    }
}

/// What a database knows of a predicate fixes the rows of a query, and their order.
pub proof fn law_answer_is_determined(
    a: Seq<Seq<ConstantView>>,
    b: Seq<Seq<ConstantView>>,
    values: Seq<ConstantView>,
    set: Set<Seq<u32>>,
)
    requires
        answers(a, values, set),
        answers(b, values, set),
    ensures
        a == b,
{
    let first = choose|list: Seq<Seq<u32>>| #[trigger]
        tuples::ascending_tuples(list) && list.to_set() == set && a == Seq::new(
            list.len(),
            |i: int| decoded(values, list[i]),
        );
    let second = choose|list: Seq<Seq<u32>>| #[trigger]
        tuples::ascending_tuples(list) && list.to_set() == set && b == Seq::new(
            list.len(),
            |i: int| decoded(values, list[i]),
        );
    tuples::lemma_ascending_tuples_unique(first, second);
}

/// A fact that was added is there after the next run, and what followed before is forgotten until
/// then.
pub proof fn law_added_fact_follows(
    before: DatabaseView,
    predicate: Seq<char>,
    values: Seq<ConstantView>,
    store: StoreView,
)
    requires
        is_reachable(before),
        with_fact(before, predicate, values).1 is None,
        ({
            let after = with_fact(before, predicate, values).0;
            let (program, plan) = after.program->0;
            semantics::results_in(program, plan, after.inserted, ROUND_LIMIT, store)
        }),
    ensures
        with_fact(before, predicate, values).0.result is None,
        ({
            let after = with_fact(before, predicate, values).0;
            let (id, tuple) = after.inserted.last();
            &&& defined_id(after, predicate) == Some(id.0 as int)
            &&& store.full[id.0 as int].contains(tuple)
            &&& decoded(after.catalog.values, tuple) == values
        }),
{
    let after = with_fact(before, predicate, values).0;
    let (program, plan) = after.program->0;
    let (id, tuple) = after.inserted.last();
    let place = after.inserted.len() - 1;
    catalog::lemma_find_name(before.catalog.predicates, predicate);
    semantics::law_result_is_model(program, plan, after.inserted, ROUND_LIMIT, store);
    let facts = general::fact_tuples(program.rules);
    assert((facts + after.inserted)[facts.len() + place] == after.inserted[place]);
    lemma_interned_decodes(before.catalog.values, values, values.len() as int);
    assert(decoded(after.catalog.values, tuple) =~= values);
}

/// Identifiers stand for the values that they were given for.
proof fn lemma_interned_decodes(values: Seq<ConstantView>, added: Seq<ConstantView>, count: int)
    requires
        values.len() <= u32::MAX + 1,
        0 <= count <= added.len(),
        interned(values, added, count).1 is Ok,
    ensures
        interned(values, added, count).1->Ok_0.len() == count,
        forall|i: int|
            #![trigger interned(values, added, count).1->Ok_0[i]]
            0 <= i < count ==> {
                let (all, ids) = interned(values, added, count);
                ids->Ok_0[i] < all.len() && all[ids->Ok_0[i] as int] == added[i]
            },
    decreases count,
{
    if count > 0 {
        lemma_interned_decodes(values, added, count - 1);
        lemma_interned(values, added, count - 1);
        let (all, ids) = interned(values, added, count - 1);
        catalog::lemma_find_value(all, added[count - 1]);
        let (more, longer) = interned(values, added, count);
        assert forall|i: int| 0 <= i < count implies (#[trigger] longer->Ok_0[i]) < more.len()
            && more[longer->Ok_0[i] as int] == added[i] by {
            if i < count - 1 {
                assert(longer->Ok_0[i] == ids->Ok_0[i]);
            }
        }
    }
}

} // verus!
