//! Plans and their evaluation.
use sparkalog::catalog::{PredicateId, ProgramCatalog};
use sparkalog::execution_binary::execute_binary;
use sparkalog::execution_general::{execute_general, GeneralExecution};
use sparkalog::explain::explain_general;
use sparkalog::general::lower_general;
use sparkalog::parser::parse_program;
use sparkalog::recursion::IterationPolicies;
use sparkalog::relational::{BindingId, GeneralProgramPlan, RelationId, RelationVersion};
use sparkalog::resolve::resolve_program;
use sparkalog::subset::lower_binary;

fn relation_id(predicate: PredicateId) -> RelationId {
    RelationId(predicate.0)
}

fn execute(source: &str) -> (GeneralExecution, ProgramCatalog, GeneralProgramPlan) {
    let parsed = parse_program(source);
    assert_eq!(parsed.diagnostics, []);
    let mut catalog = ProgramCatalog::new();
    let resolved = resolve_program(&parsed.program, &mut catalog);
    assert_eq!(resolved.diagnostics, []);
    let plan = lower_general(&resolved.program).unwrap();
    let execution = execute_general(&plan, 32).unwrap();
    (execution, catalog, plan)
}

#[test]
fn executes_general_nonrecursive_join_chains_and_constants() {
    let (execution, catalog, _) = execute(
        "
        parent('a, 'b). parent('b, 'c). tag('c, 'wanted).
        answer(x, z) :- parent(x, y), parent(y, z), tag(z, 'wanted).
        .output answer
        ",
    );
    let answer = relation_id(catalog.predicates.id("answer").unwrap());

    assert_eq!(execution.store.rows(answer).unwrap().len(), 1);
}

#[test]
fn emits_and_executes_one_variant_per_recursive_atom() {
    let (execution, catalog, plan) = execute(
        "
        edge(1, 2). edge(2, 3). edge(3, 4).
        path(x, y) :- edge(x, y).
        path(x, z) :- path(x, y), path(y, z).
        .output path
        ",
    );
    let path = relation_id(catalog.predicates.id("path").unwrap());
    let recursive = plan
        .strata
        .iter()
        .flat_map(|stratum| &stratum.sccs)
        .find(|scc| scc.relations.contains(&path))
        .unwrap();

    assert_eq!(recursive.recursive_variants.len(), 2);
    assert_eq!(execution.store.rows(path).unwrap().len(), 6);
    assert!(execution.store.delta(path).unwrap().is_empty());
}

#[test]
fn arbitrary_arity_relations_remain_distinct() {
    let (execution, catalog, _) =
        execute("triple('a, 'b, 'c). pair(x, z) :- triple(x, y, z). .output pair");
    let triple = relation_id(catalog.predicates.id("triple").unwrap());
    let pair = relation_id(catalog.predicates.id("pair").unwrap());

    assert_eq!(
        execution
            .store
            .rows(triple)
            .unwrap()
            .get(0)
            .unwrap()
            .len(),
        3
    );
    assert_eq!(
        execution
            .store
            .rows(pair)
            .unwrap()
            .get(0)
            .unwrap()
            .len(),
        2
    );
}

#[test]
fn executes_negation_against_a_completed_earlier_stratum() {
    let (execution, catalog, plan) = execute(
        "
        node('a). node('b). node('c).
        flag('b, 'yes).
        blocked(x) :- flag(x, 'yes).
        allowed(x) :- node(x), !blocked(x).
        .output allowed
        ",
    );
    let allowed = relation_id(catalog.predicates.id("allowed").unwrap());
    let blocked = relation_id(catalog.predicates.id("blocked").unwrap());

    assert_eq!(plan.strata.len(), 2);
    assert_eq!(execution.store.rows(blocked).unwrap().len(), 1);
    assert_eq!(execution.store.rows(allowed).unwrap().len(), 2);
}

#[test]
fn negative_atoms_lower_to_full_inputs_separately_from_novelty() {
    let parsed = parse_program("node('a). blocked('b). ok(x) :- node(x), !blocked(x).");
    let mut catalog = ProgramCatalog::new();
    let resolved = resolve_program(&parsed.program, &mut catalog);
    let plan = lower_general(&resolved.program).unwrap();
    let ok = relation_id(catalog.predicates.id("ok").unwrap());
    let clause = plan
        .strata
        .iter()
        .flat_map(|stratum| &stratum.sccs)
        .flat_map(|scc| &scc.seeds)
        .find(|clause| clause.target == ok)
        .unwrap();

    assert_eq!(clause.negative.len(), 1);
    assert_eq!(clause.negative[0].version, RelationVersion::Full);
}

#[test]
fn statistics_order_selective_connected_atoms_and_compute_liveness() {
    let parsed = parse_program(
        "large('a, 'b). large('c, 'd). large('e, 'f). small('b). answer(x) :- large(x, y), small(y).",
    );
    let mut catalog = ProgramCatalog::new();
    let resolved = resolve_program(&parsed.program, &mut catalog);
    let plan = lower_general(&resolved.program).unwrap();
    let answer = relation_id(catalog.predicates.id("answer").unwrap());
    let small = relation_id(catalog.predicates.id("small").unwrap());
    let clause = plan
        .strata
        .iter()
        .flat_map(|stratum| &stratum.sccs)
        .flat_map(|scc| &scc.seeds)
        .find(|clause| clause.target == answer)
        .unwrap();

    assert_eq!(clause.positive[0].relation, small);
    assert_eq!(clause.live_after.len(), 2);
    assert_eq!(clause.live_after[0], [BindingId(1)]);
    assert_eq!(clause.live_after[1], [BindingId(0)]);
    let explanation = explain_general(&plan, &catalog);
    assert!(explanation.contains("small.Full"));
    assert!(explanation.contains("answer <-"));
}

#[test]
fn source_program_reaches_transitive_closure() {
    let source = "
        edge(1, 2). edge(2, 3). edge(3, 4).
        path(x, y) :- edge(x, y).
        path(x, z) :- path(x, y), edge(y, z).
        .output path
    ";
    let parsed = parse_program(source);
    assert_eq!(parsed.diagnostics, []);
    let mut catalog = ProgramCatalog::new();
    let resolved = resolve_program(&parsed.program, &mut catalog);
    assert_eq!(resolved.diagnostics, []);
    let plan = lower_binary(&resolved.program).unwrap();

    let execution = execute_binary(&plan, IterationPolicies::default(), 16).unwrap();
    let path = catalog.predicates.id("path").unwrap();
    let relation = execution.store.full(relation_id(path)).unwrap().view();

    assert_eq!(execution.summaries[0].iterations, 3);
    assert_eq!(relation.len(), 6);
    assert_eq!(relation.column_slice(0).unwrap(), &[0, 0, 0, 1, 1, 2]);
    assert_eq!(relation.column_slice(1).unwrap(), &[1, 2, 3, 2, 3, 3]);
}

#[test]
fn unsupported_nonrecursive_derivation_is_explicit() {
    let parsed = parse_program("edge(1, 2). copy(x, y) :- edge(x, y).");
    let mut catalog = ProgramCatalog::new();
    let resolved = resolve_program(&parsed.program, &mut catalog);

    let error = lower_binary(&resolved.program).unwrap_err();

    assert!(error.message.contains("only derives recursive predicates"));
}
