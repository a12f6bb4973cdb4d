//! The language: programs, catalogs, resolution, schedules, and databases.
use sparkalog::ast::{
    ResolvedAtom, ResolvedRule, ResolvedTerm, SourceAtom, SourceRule, Span, Spanned, VariableId,
};
use sparkalog::catalog::{
    CatalogError, InternedValue, PredicateCatalog, PredicateId, ProgramCatalog, ValueCatalog,
};
use sparkalog::database::{Database, DatabaseError};
use sparkalog::ingest::{parse_delimited_parallel, DelimitedOptions};
use sparkalog::parser::parse_program;
use sparkalog::resolve::{resolve_program, ResolveOutput};
use sparkalog::schedule::{stratify, ProgramSchedule, StratificationError};

#[test]
fn facts_are_rules_without_body_literals() {
    let atom = SourceAtom {
        predicate: Spanned::new("edge".into(), Span::new(0, 4)),
        terms: vec![],
        span: Span::new(0, 6),
    };
    let fact = SourceRule {
        head: atom,
        body: vec![],
        span: Span::new(0, 7),
    };

    assert!(fact.is_fact());
}

#[test]
fn resolved_variable_names_are_rule_local() {
    let rule = ResolvedRule {
        head: ResolvedAtom {
            predicate: PredicateId(0),
            terms: vec![ResolvedTerm::Variable(VariableId(0))],
            span: Span::default(),
        },
        body: vec![],
        variable_names: vec!["x".into()],
        span: Span::default(),
    };

    assert_eq!(rule.variable_name(VariableId(0)), Some("x"));
    assert_eq!(rule.variable_name(VariableId(1)), None);
}

#[test]
fn predicate_ids_are_stable_and_enforce_arity() {
    let mut catalog = PredicateCatalog::new();
    let edge = catalog.declare("edge", 2).unwrap();

    assert_eq!(catalog.declare("edge", 2).unwrap(), edge);
    assert_eq!(catalog.id("edge"), Some(edge));
    assert_eq!(catalog.get(edge).unwrap().name, "edge");
    assert_eq!(catalog.get(edge).unwrap().arity, Some(2));
    assert!(matches!(
        catalog.declare("edge", 3),
        Err(CatalogError::ArityConflict { .. })
    ));
}

#[test]
fn value_kinds_have_distinct_stable_ids() {
    let mut catalog = ValueCatalog::new();
    let number = catalog.intern(InternedValue::U32(42)).unwrap();
    let string = catalog
        .intern(InternedValue::String("42".to_owned()))
        .unwrap();
    let symbol = catalog
        .intern(InternedValue::Symbol("42".to_owned()))
        .unwrap();

    assert_ne!(number, string);
    assert_ne!(string, symbol);
    assert_eq!(catalog.intern(InternedValue::U32(42)).unwrap(), number);
    assert_eq!(
        catalog.get(string),
        Some(&InternedValue::String("42".into()))
    );
}

#[test]
fn catalog_round_trip_preserves_every_id() {
    let mut catalog = ProgramCatalog::new();
    let edge = catalog.predicates.declare("edge", 2).unwrap();
    let number = catalog.values.intern(InternedValue::U32(42)).unwrap();
    let symbol = catalog
        .values
        .intern(InternedValue::Symbol("answer".into()))
        .unwrap();
    let mut bytes = Vec::new();
    catalog.write_to(&mut bytes).unwrap();

    let restored = ProgramCatalog::read_from(bytes.as_slice()).unwrap();

    assert_eq!(restored.predicates.id("edge"), Some(edge));
    assert_eq!(restored.values.get(number), Some(&InternedValue::U32(42)));
    assert_eq!(
        restored.values.get(symbol),
        Some(&InternedValue::Symbol("answer".into()))
    );
}

#[test]
fn database_loads_runs_and_decodes_outputs() {
    let mut database = Database::new();
    database
        .load_program("edge('a, 'b). path(x, y) :- edge(x, y). .output path")
        .unwrap();

    database.run().unwrap();
    let output = database.outputs().unwrap();

    assert_eq!(output.len(), 1);
    assert_eq!(output[0].predicate, "path");
    assert_eq!(
        output[0].rows,
        [vec![
            InternedValue::Symbol("a".into()),
            InternedValue::Symbol("b".into())
        ]]
    );
}

#[test]
fn inserted_facts_invalidate_and_extend_the_next_run() {
    let mut database = Database::new();
    database
        .load_program("edge('a, 'b). path(x, y) :- edge(x, y). .output path")
        .unwrap();
    database.run().unwrap();
    database
        .insert("edge", vec!["b".into(), "c".into()])
        .unwrap();

    assert!(matches!(database.query("path"), Err(DatabaseError::NotRun)));
    database.run().unwrap();

    assert_eq!(database.query("path").unwrap().rows.len(), 2);
}

#[test]
fn load_reports_frontend_diagnostics() {
    let mut database = Database::new();

    assert!(matches!(
        database.load_program("bad(x :- nope."),
        Err(DatabaseError::Parse(_))
    ));
    assert!(matches!(
        database.load_program("bad(x) :- !missing(x)."),
        Err(DatabaseError::Resolve(_))
    ));
}

#[test]
fn parses_facts_rules_negation_constants_and_outputs() {
    let source = r#"
        edge('a, "b").
        weight('a, 42).
        path(x, y) :- edge(x, y), !blocked(y).
        .output path
    "#;
    let parsed = parse_program(source);

    assert_eq!(parsed.diagnostics, []);
    assert_eq!(parsed.program.rules.len(), 3);
    assert!(parsed.program.rules[0].is_fact());
    assert_eq!(parsed.program.rules[2].body.len(), 2);
    assert!(parsed.program.rules[2].body[1].negated);
    assert_eq!(parsed.program.outputs[0].value, "path");
    assert_eq!(
        parsed.program.source_text(),
        "edge('a, \"b\").\nweight('a, 42).\npath(x, y) :- edge(x, y), !blocked(y).\n.output path\n"
    );
}

#[test]
fn recovers_at_statement_boundaries() {
    let source = "broken(x :- nope. good('value).";
    let parsed = parse_program(source);

    assert_eq!(parsed.diagnostics.len(), 1);
    assert_eq!(parsed.program.rules.len(), 1);
    assert_eq!(parsed.program.rules[0].head.predicate.value, "good");
    assert_eq!(parsed.diagnostics[0].line_column(source), (1, 10));
}

#[test]
fn reports_lexical_errors_without_losing_valid_rules() {
    let parsed = parse_program("bad(4294967296). ok(1). @");

    assert!(parsed.diagnostics.len() >= 2);
    assert_eq!(parsed.program.rules.len(), 1);
    assert_eq!(parsed.program.rules[0].head.predicate.value, "ok");
}

fn resolved(source: &str) -> (ResolveOutput, ProgramCatalog) {
    let parsed = parse_program(source);
    assert_eq!(parsed.diagnostics, []);
    let mut catalog = ProgramCatalog::new();
    let output = resolve_program(&parsed.program, &mut catalog);
    (output, catalog)
}

#[test]
fn resolves_predicates_values_and_rule_local_variables() {
    let (output, catalog) = resolved("edge('a, 'b). path(x, y) :- edge(x, y). .output path");

    assert_eq!(output.diagnostics, []);
    assert_eq!(output.program.rules.len(), 2);
    assert_eq!(output.program.rules[1].variable_names, ["x", "y"]);
    assert_eq!(catalog.predicates.len(), 2);
    assert_eq!(catalog.values.len(), 2);
    assert!(
        catalog
            .values
            .id(&InternedValue::Symbol("a".into()))
            .is_some()
    );
}

#[test]
fn rejects_inconsistent_arity() {
    let (output, _) = resolved("edge('a, 'b). edge('a).");

    assert_eq!(output.program.rules.len(), 1);
    assert!(
        output.diagnostics[0]
            .message
            .contains("already has arity 2")
    );
}

#[test]
fn rejects_unsafe_head_and_negated_variables() {
    let (output, _) = resolved("bad(x) :- edge(y, z), !blocked(w).");

    assert!(output.program.rules.is_empty());
    assert_eq!(output.diagnostics.len(), 2);
    assert!(output.diagnostics[0].message.contains("head variable x"));
    assert!(output.diagnostics[1].message.contains("negated atom"));
}

#[test]
fn repeated_wildcards_are_distinct_variables() {
    let (output, _) = resolved("seen(x) :- edge(x, _), edge(_, x).");

    assert_eq!(output.diagnostics, []);
    assert_eq!(output.program.rules[0].variable_names, ["x", "_", "_"]);
}

#[test]
fn output_must_name_a_defined_predicate() {
    let (output, _) = resolved("edge(1, 2). .output missing");

    assert_eq!(output.program.outputs, []);
    assert!(output.diagnostics[0].message.contains("is not defined"));
}

fn schedule(source: &str) -> Result<(ProgramSchedule, ProgramCatalog), StratificationError> {
    let parsed = parse_program(source);
    assert_eq!(parsed.diagnostics, []);
    let mut catalog = ProgramCatalog::new();
    let resolved = resolve_program(&parsed.program, &mut catalog);
    assert_eq!(resolved.diagnostics, []);
    Ok((stratify(&resolved.program)?, catalog))
}

#[test]
fn positive_mutual_recursion_forms_one_scc() {
    let (schedule, catalog) =
        schedule("a(x) :- seed(x). a(x) :- b(x). b(x) :- a(x). seed('x).").unwrap();
    let a = catalog.predicates.id("a").unwrap();
    let b = catalog.predicates.id("b").unwrap();

    let recursive = schedule.strata[0]
        .sccs
        .iter()
        .find(|scc| scc.predicates.contains(&a))
        .unwrap();
    assert_eq!(recursive.predicates, [a, b]);
    assert!(recursive.recursive);
}

#[test]
fn negative_dependencies_advance_the_consumer_stratum() {
    let (schedule, catalog) =
        schedule("node('a). blocked('b). allowed(x) :- node(x), !blocked(x).").unwrap();
    let allowed = catalog.predicates.id("allowed").unwrap();

    assert_eq!(schedule.strata.len(), 2);
    assert!(schedule.strata[1].sccs[0].predicates.contains(&allowed));
}

#[test]
fn negative_cycles_are_rejected() {
    let error = schedule("domain('x). a(x) :- domain(x), !b(x). b(x) :- domain(x), !a(x).")
        .unwrap_err();

    assert!(matches!(error, StratificationError::NegativeCycle { .. }));
}

#[test]
fn producers_are_scheduled_before_consumers() {
    let (schedule, catalog) = schedule("a('x). b(x) :- a(x). c(x) :- b(x).").unwrap();
    let a = catalog.predicates.id("a").unwrap();
    let b = catalog.predicates.id("b").unwrap();
    let c = catalog.predicates.id("c").unwrap();
    let ordered = schedule.strata[0]
        .sccs
        .iter()
        .map(|scc| scc.predicates[0])
        .collect::<Vec<_>>();

    assert_eq!(ordered, [a, b, c]);
}

#[test]
fn parses_csv_and_tsv_values_in_parallel() {
    let csv = parse_delimited_parallel(
        "from,to\n1,alpha\n2,\"a string\"\n",
        DelimitedOptions {
            delimiter: b',',
            has_header: true,
        },
    )
    .unwrap();
    let tsv = parse_delimited_parallel(
        "alpha\tbeta\n",
        DelimitedOptions {
            delimiter: b'\t',
            has_header: false,
        },
    )
    .unwrap();

    assert_eq!(
        csv[0],
        [InternedValue::U32(1), InternedValue::Symbol("alpha".into())]
    );
    assert_eq!(csv[1][1], InternedValue::String("a string".into()));
    assert_eq!(tsv[0].len(), 2);
}

#[test]
fn parallel_ingestion_preserves_input_order() {
    let source = (0..1_000)
        .map(|value| format!("{value},value-{value}"))
        .collect::<Vec<_>>()
        .join("\n");

    let rows = parse_delimited_parallel(&source, DelimitedOptions::default()).unwrap();

    assert_eq!(rows.len(), 1_000);
    assert_eq!(rows[999][0], InternedValue::U32(999));
}
