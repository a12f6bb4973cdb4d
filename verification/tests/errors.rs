//! Every error, with an input that gives it.
use sparkalog::benchmark::{parse_benchmark, parse_closure, parse_usize, KnownOptions};
use sparkalog::catalog::{CatalogError, InternedValue, PredicateCatalog, ProgramCatalog};
use sparkalog::catalog_io::CatalogIoError;
use sparkalog::database::{Database, DatabaseError};
use sparkalog::device::{counted_rows, cuda_result};
use sparkalog::execution::{
    anti_join_cpu_serial, distinct_cpu_serial, union_cpu_parallel, Error as OperatorError,
};
use sparkalog::execution_binary::{execute_binary, BinaryExecutionError};
use sparkalog::execution_general::{execute_general, GeneralExecutionError};
use sparkalog::executor::{
    transitive_closure_scc, GenericExecutionError, RecursiveExecutor, RelationStore,
    RelationStoreError,
};
use sparkalog::general::lower_general;
use sparkalog::index::U32RangeIndex;
use sparkalog::ingest::{parse_delimited_parallel, DelimitedOptions};
use sparkalog::join::join_cpu_serial;
use sparkalog::loader::{load_binary_u32, LoadError};
use sparkalog::parser::parse_program;
use sparkalog::placement::InputProvenance;
use sparkalog::recursion::{FixpointDriver, FixpointError, IterationPolicies};
use sparkalog::relational::{
    BinaryDistinct, RecursiveSccPlan, RelationId, SortedBinaryAntiJoin, SortedBinaryUnion,
};
use sparkalog::resolve::resolve_program;
use sparkalog::schedule::{stratify, StratificationError};
use sparkalog::storage::{Column, Error as StorageError, ManagedBuffer, Relation, RelationBuffer};
use sparkalog::subset::lower_binary;
use sparkalog::workspace::{
    AntiJoinWorkspace, DistinctWorkspace, JoinWorkspace, Selection, UnionWorkspace,
};

fn relation2(rows: &[(u32, u32)]) -> Relation {
    let mut relation = Relation::new(2, rows.len()).unwrap();
    for (row, &(first, second)) in rows.iter().enumerate() {
        relation.column_mut(0).unwrap().as_mut_slice()[row] = first;
        relation.column_mut(1).unwrap().as_mut_slice()[row] = second;
    }
    relation
}

fn first_message(source: &str) -> String {
    parse_program(source).diagnostics[0].message.clone()
}

fn resolve_messages(source: &str) -> Vec<String> {
    let parsed = parse_program(source);
    assert!(parsed.is_success());
    let mut catalog = ProgramCatalog::new();
    resolve_program(&parsed.program, &mut catalog)
        .diagnostics
        .into_iter()
        .map(|diagnostic| diagnostic.message)
        .collect()
}

fn refusal(source: &str) -> String {
    let parsed = parse_program(source);
    let mut catalog = ProgramCatalog::new();
    let resolved = resolve_program(&parsed.program, &mut catalog);
    assert_eq!(resolved.diagnostics, []);
    lower_binary(&resolved.program).unwrap_err().message()
}

#[test]
fn lexical_errors_name_what_is_wrong() {
    assert_eq!(first_message("a(\"x"), "unterminated string literal");
    assert_eq!(first_message("a(\"x\\q\")."), "unsupported string escape");
    assert_eq!(
        first_message("a(')."),
        "expected a symbol name after apostrophe"
    );
    assert_eq!(
        first_message("a(4294967296)."),
        "integer literal does not fit in u32"
    );
    assert_eq!(first_message("@"), "unexpected character \"@\"");
}

#[test]
fn syntax_errors_name_what_was_expected() {
    assert_eq!(first_message("a(x"), "expected `)` after atom");
    assert_eq!(first_message("a x."), "expected `(` after predicate name");
    assert_eq!(first_message("a(x)"), "expected `.` after rule");
    assert_eq!(first_message("a(.)."), "expected a variable or constant");
    assert_eq!(first_message(".wrong a"), "unknown directive .wrong");
    assert_eq!(
        first_message(".output 3"),
        "expected predicate name after `.output`"
    );
}

#[test]
fn resolution_errors_name_predicate_and_variable() {
    assert_eq!(
        resolve_messages("a(x) :- b(y)."),
        ["head variable x is not bound by a positive body atom"]
    );
    assert_eq!(
        resolve_messages("a(1) :- b(1), !c(z)."),
        ["variable z in a negated atom is not bound by a positive body atom"]
    );
    assert_eq!(
        resolve_messages("a(1). .output b"),
        ["output predicate b is not defined"]
    );
    assert_eq!(
        resolve_messages(".input b a(1)."),
        ["input predicate b is not declared"]
    );
    assert_eq!(
        resolve_messages(".decl b(x:number) .input b b(x) :- a(x)."),
        ["input predicate b is derived by a rule"]
    );
    assert_eq!(resolve_messages("a(1). a(1, 2).").len(), 1);
}

#[test]
fn catalog_errors_keep_the_known_arity() {
    let mut catalog = PredicateCatalog::new();
    catalog.declare("edge", 2).unwrap();
    let error = catalog.declare("edge", 3).unwrap_err();
    assert_eq!(
        error,
        CatalogError::ArityConflict {
            predicate: "edge".into(),
            existing: 2,
            declared: 3
        }
    );
    assert_eq!(
        error.message(),
        "predicate edge already has arity 2, not 3"
    );
    assert_eq!(catalog.len(), 1);
}

#[test]
fn damaged_catalogs_are_rejected() {
    let mut catalog = ProgramCatalog::new();
    catalog.predicates.declare("edge", 2).unwrap();
    catalog
        .values
        .intern(InternedValue::Symbol("ab".into()))
        .unwrap();
    let mut bytes = Vec::new();
    catalog.write_to(&mut bytes).unwrap();

    assert!(matches!(
        ProgramCatalog::read_from(&bytes[..bytes.len() - 1]),
        Err(CatalogIoError::UnexpectedEnd)
    ));
    let mut wrong = bytes.clone();
    wrong[0] ^= 1;
    assert!(matches!(
        ProgramCatalog::read_from(&wrong),
        Err(CatalogIoError::Invalid("invalid catalog header"))
    ));
    let mut wrong = bytes.clone();
    let last = wrong.len() - 1;
    wrong[last] = 0xff;
    assert!(matches!(
        ProgramCatalog::read_from(&wrong),
        Err(CatalogIoError::Invalid("catalog text is not UTF-8"))
    ));
    let mut wrong = bytes.clone();
    let tag = wrong.len() - 7;
    wrong[tag] = 9;
    assert!(matches!(
        ProgramCatalog::read_from(&wrong),
        Err(CatalogIoError::Invalid("unknown catalog value tag"))
    ));
    catalog.predicates.declare("wide", 4_294_967_295).unwrap();
    assert!(matches!(
        catalog.write_to(&mut Vec::new()),
        Err(CatalogIoError::Invalid("predicate arity is too large"))
    ));
}

#[test]
fn delimited_errors_give_line_and_column() {
    let comma = DelimitedOptions::default();
    let cases = [
        ("1,2\n3,", "2:2: record ends with an empty field"),
        ("1,,2", "1:3: empty fields are not values"),
        ("\"a", "1:1: unterminated quoted field"),
        ("\"a\"b,1", "1:4: expected delimiter after quoted field"),
    ];
    for (source, expected) in cases {
        assert_eq!(
            parse_delimited_parallel(source, comma)
                .unwrap_err()
                .message(),
            expected
        );
    }
    let spaces = DelimitedOptions {
        delimiter: b' ',
        has_header: false,
    };
    assert_eq!(
        parse_delimited_parallel("1 2", spaces)
            .unwrap_err()
            .message(),
        "0:0: delimiter must be a visible ASCII byte or tab"
    );
}

#[test]
fn database_errors_say_what_is_missing() {
    let mut database = Database::new();
    assert!(matches!(database.run(), Err(DatabaseError::NoProgram)));
    assert!(matches!(database.outputs(), Err(DatabaseError::NoProgram)));
    assert!(matches!(database.explain(), Err(DatabaseError::NoProgram)));
    database.load_program("edge(1, 2). .output edge").unwrap();
    assert!(matches!(database.query("edge"), Err(DatabaseError::NotRun)));
    assert!(matches!(database.outputs(), Err(DatabaseError::NotRun)));
    assert_eq!(
        database.query("path").unwrap_err().message(),
        "predicate path is not defined by this program"
    );
    assert_eq!(
        database
            .insert("edge", vec![InternedValue::U32(1)])
            .unwrap_err()
            .message(),
        "predicate edge expects 2 values, not 1"
    );
    assert!(matches!(
        database.load_delimited("edge", "1,", DelimitedOptions::default()),
        Err(DatabaseError::Delimited(_))
    ));
    assert!(matches!(
        database.load_program("a(x) :- b(x), !a(x)."),
        Err(DatabaseError::Lowering(_))
    ));
    assert_eq!(
        database.load_program("a(").unwrap_err().message(),
        "Datalog parse failed: expected a variable or constant"
    );
}

#[test]
fn negative_recursion_is_named() {
    let parsed = parse_program("d('x). a(x) :- d(x), !b(x). b(x) :- d(x), !a(x).");
    let mut catalog = ProgramCatalog::new();
    let resolved = resolve_program(&parsed.program, &mut catalog);
    let error = stratify(&resolved.program).unwrap_err();
    let StratificationError::NegativeCycle { head, body } = error.clone();
    assert_eq!(head, catalog.predicates.id("a").unwrap());
    assert_eq!(body, catalog.predicates.id("b").unwrap());
    assert_eq!(
        error.message(),
        "negative dependency 1 -> 2 occurs inside a recursive SCC"
    );
}

#[test]
fn general_evaluation_reports_the_round_limit() {
    let parsed = parse_program("e(1, 2). e(2, 3). p(x, y) :- e(x, y). p(x, z) :- p(x, y), e(y, z).");
    let mut catalog = ProgramCatalog::new();
    let resolved = resolve_program(&parsed.program, &mut catalog);
    let plan = lower_general(&resolved.program).unwrap();
    let error = execute_general(&plan, 1).unwrap_err();
    assert_eq!(error, GeneralExecutionError::IterationLimit { limit: 1 });
    assert_eq!(error.message(), "fixpoint did not converge within 1 iterations");
    assert!(execute_general(&plan, 2).is_ok());
}

#[test]
fn binary_lowering_names_each_refusal() {
    assert_eq!(
        refusal("a(1)."),
        "the initial executable subset requires binary predicates"
    );
    assert_eq!(
        refusal("e(1, 2). p(x, y) :- e(x, y). p(x, y) :- p(x, y), q(y)."),
        "the initial executable subset requires binary predicates"
    );
    assert_eq!(
        refusal("e(1, 2). c(x, y) :- e(x, y)."),
        "the initial executable subset only derives recursive predicates"
    );
    assert_eq!(
        refusal("e(1, 2). p(x, y) :- e(x, y), e(y, x). p(x, z) :- p(x, y), e(y, z)."),
        "a seed clause must contain one positive atom"
    );
    assert_eq!(
        refusal("e(1, 2). p(x, 1) :- e(x, y). p(x, z) :- p(x, y), e(y, z)."),
        "seed clause heads must project variables"
    );
    let plain = "a seed clause must read two variables of an underived predicate";
    assert_eq!(
        refusal("e(1, 2). p(x, x) :- e(x, 2). p(x, z) :- p(x, y), e(y, z)."),
        plain
    );
    assert_eq!(
        refusal("e(1, 1). p(x, x) :- e(x, x). p(x, z) :- p(x, y), e(y, z)."),
        plain
    );
    assert_eq!(
        refusal(
            "e(1, 2). q(x, y) :- p(x, y). q(x, z) :- q(x, y), e(y, z). p(x, y) :- e(x, y). \
             p(x, z) :- p(x, y), e(y, z)."
        ),
        plain
    );
    assert_eq!(
        refusal("e(1, 2). p(x, y) :- e(x, y). p(x, z) :- p(x, y), p(y, z)."),
        "the initial executable subset permits one recursive body atom"
    );
    assert_eq!(
        refusal("e(1, 2). p(x, y) :- e(x, y). p(x, y) :- p(x, y)."),
        "a recursive clause must contain two positive atoms"
    );
    assert_eq!(
        refusal("e(1, 2). p(x, y) :- e(x, y). p(x, z) :- p(x, 1), e(x, z)."),
        "recursive joins do not yet support constants"
    );
    assert_eq!(
        refusal("e(1, 2). p(x, y) :- e(x, y). p(x, y) :- p(x, y), e(x, y)."),
        "recursive atoms must share exactly one join variable"
    );
    assert_eq!(
        refusal("e(1, 2). p(x, y) :- e(x, y). p(x, 1) :- p(x, y), e(y, z)."),
        "recursive rule heads must project variables"
    );
}

#[test]
fn storage_errors_say_the_sizes() {
    assert_eq!(
        ManagedBuffer::<u32>::new_filled(usize::MAX, 0).err(),
        Some(StorageError::LengthOverflow)
    );
    assert_eq!(
        StorageError::LengthOverflow.message(),
        "buffer length overflows its byte size"
    );
    let mut selection = Selection::with_capacity(2).unwrap();
    assert_eq!(
        selection.set_len(3).unwrap_err().message(),
        "logical length 3 exceeds allocation capacity 2"
    );
    let mut buffer = RelationBuffer::with_capacity(2, 1).unwrap();
    assert_eq!(
        buffer.set_len(2).unwrap_err(),
        StorageError::LogicalLengthExceedsCapacity {
            len: 2,
            capacity: 1
        }
    );
    let columns = vec![
        Column::new_filled(1, 0).unwrap(),
        Column::new_filled(2, 0).unwrap(),
    ];
    assert_eq!(
        Relation::from_columns(columns).err().unwrap().message(),
        "column length 2 does not match relation length 1"
    );
}

#[test]
fn operators_report_missing_columns_and_foreign_indexes() {
    let pairs = relation2(&[(1, 2)]);
    let mut distinct = DistinctWorkspace::new().unwrap();
    assert_eq!(
        distinct_cpu_serial(pairs.view(), BinaryDistinct { columns: [0, 2] }, &mut distinct),
        Err(OperatorError::MissingColumn {
            input: "input",
            column: 2
        })
    );
    let mut difference = AntiJoinWorkspace::new().unwrap();
    let plan = SortedBinaryAntiJoin {
        left: [0, 1],
        right: [3, 1],
    };
    assert_eq!(
        anti_join_cpu_serial(pairs.view(), pairs.view(), plan, &mut difference)
            .unwrap_err()
            .message(),
        "right relation has no column 3"
    );
    let mut union = UnionWorkspace::new().unwrap();
    let plan = SortedBinaryUnion {
        left: [9, 1],
        right: [0, 1],
    };
    assert_eq!(
        union_cpu_parallel(pairs.view(), pairs.view(), plan, &mut union)
            .unwrap_err()
            .message(),
        "left relation has no column 9"
    );
    let other = relation2(&[(1, 2), (3, 4)]);
    let index = U32RangeIndex::build(other.column(0).unwrap()).unwrap();
    let mut workspace = JoinWorkspace::new(2).unwrap();
    let join = transitive_closure_scc(RelationId(1), RelationId(0)).rules[0].join;
    assert_eq!(
        join_cpu_serial(pairs.view(), pairs.view(), &index, join, &mut workspace)
            .unwrap_err()
            .message(),
        "right relation has 1 rows but its index has 2"
    );
}

#[test]
fn stores_reject_unknown_and_repeated_relations() {
    let pairs = relation2(&[(1, 2)]);
    let wide = Relation::new(3, 1).unwrap();
    let id = RelationId(4);
    let mut store = RelationStore::new();
    assert_eq!(store.full(id).err(), Some(RelationStoreError::Missing(id)));
    store
        .insert_static(id, pairs.view(), InputProvenance::Cpu)
        .unwrap();
    assert_eq!(
        store.insert_static(id, pairs.view(), InputProvenance::Cpu),
        Err(RelationStoreError::Duplicate(id))
    );
    assert_eq!(
        store.delta(id).err().unwrap().message(),
        "relation 4 has no DELTA/NEWT state"
    );
    assert_eq!(
        store.insert_recursive(RelationId(5), pairs.view(), wide.view(), InputProvenance::Cpu),
        Err(RelationStoreError::ArityMismatch { full: 2, delta: 3 })
    );
}

#[test]
fn components_are_checked_before_they_run() {
    let edge = relation2(&[(1, 2), (2, 3), (3, 4)]);
    let (edge_id, path_id, other_id) = (RelationId(0), RelationId(1), RelationId(2));
    let mut store = RelationStore::new();
    store
        .insert_static(edge_id, edge.view(), InputProvenance::Cpu)
        .unwrap();
    store
        .insert_recursive(path_id, edge.view(), edge.view(), InputProvenance::Cpu)
        .unwrap();
    let compile = |plan: RecursiveSccPlan| RecursiveExecutor::compile(plan, &store).err().unwrap();

    let mut plan = transitive_closure_scc(path_id, edge_id);
    plan.relations.clear();
    assert_eq!(compile(plan), GenericExecutionError::EmptyScc);

    let plan = transitive_closure_scc(edge_id, edge_id);
    assert_eq!(
        compile(plan),
        GenericExecutionError::Store(RelationStoreError::NotRecursive(edge_id))
    );

    let mut plan = transitive_closure_scc(path_id, edge_id);
    plan.rules[0].right_input = other_id;
    assert_eq!(
        compile(plan),
        GenericExecutionError::Store(RelationStoreError::Missing(other_id))
    );

    let mut plan = transitive_closure_scc(path_id, edge_id);
    plan.rules[0].target = edge_id;
    assert_eq!(
        compile(plan).message(),
        "rule target 0 is outside its SCC"
    );

    assert_eq!(
        GenericExecutionError::DuplicateRuleTarget(path_id).message(),
        "relation 1 has multiple rules"
    );

    let mut plan = transitive_closure_scc(path_id, edge_id);
    plan.rules.clear();
    assert_eq!(compile(plan).message(), "relation 1 has no recursive rule");

    let mut plan = transitive_closure_scc(path_id, edge_id);
    plan.rules[0].join.right_key = 7;
    let mut executor = RecursiveExecutor::compile(plan, &store).unwrap();
    assert_eq!(
        executor
            .run(&mut store, IterationPolicies::default(), 8)
            .unwrap_err()
            .message(),
        "relation 0 has no planned column 7"
    );

    let plan = transitive_closure_scc(path_id, edge_id);
    let mut executor = RecursiveExecutor::compile(plan, &store).unwrap();
    let error = executor
        .run(&mut store, IterationPolicies::default(), 1)
        .unwrap_err();
    assert_eq!(
        error,
        GenericExecutionError::IterationLimit {
            limit: 1,
            remaining_delta_rows: 2
        }
    );
    assert_eq!(
        error.message(),
        "recursive SCC did not converge within 1 iterations; 2 delta rows remain"
    );
}

#[test]
fn binary_evaluation_passes_the_limit_on() {
    let parsed =
        parse_program("e(1, 2). e(2, 3). e(3, 4). p(x, y) :- e(x, y). p(x, z) :- p(x, y), e(y, z).");
    let mut catalog = ProgramCatalog::new();
    let resolved = resolve_program(&parsed.program, &mut catalog);
    let plan = lower_binary(&resolved.program).unwrap();
    let error = execute_binary(&plan, IterationPolicies::default(), 2)
        .err()
        .unwrap();
    assert_eq!(
        error,
        BinaryExecutionError::Recursion(GenericExecutionError::IterationLimit {
            limit: 2,
            remaining_delta_rows: 1
        })
    );
}

#[test]
fn drivers_pass_operator_errors_on() {
    let edge = relation2(&[(1, 2)]);
    let narrow = Relation::new(1, 1).unwrap();
    let index = U32RangeIndex::build(edge.column(0).unwrap()).unwrap();
    let mut driver = FixpointDriver::new().unwrap();
    let error = driver
        .run(
            narrow.view(),
            edge.view(),
            edge.view(),
            &index,
            InputProvenance::Cpu,
            IterationPolicies::default(),
            4,
        )
        .err()
        .unwrap();
    assert_eq!(
        error,
        FixpointError::Execution(OperatorError::MissingColumn {
            input: "left",
            column: 1
        })
    );
    assert!(driver.full().is_none());
}

#[test]
fn load_errors_give_the_place() {
    let cases = [
        ("1 2\n3\n", "line 2 does not contain exactly two fields"),
        ("1 x\n", "line 1, column 2 is not a u32: \"x\""),
        ("# c\n-1 2\n", "line 2, column 1 is not a u32: \"-1\""),
        (
            "version https://git-lfs.github.com/spec/v1\n",
            "g.facts is a Git LFS pointer, not materialized graph data",
        ),
    ];
    for (source, expected) in cases {
        let error = load_binary_u32("g.facts", source).err().unwrap();
        assert_eq!(error.message(), expected);
    }
    assert!(matches!(
        load_binary_u32("g", "1 2 3"),
        Err(LoadError::InvalidFieldCount { line: 1 })
    ));
}

#[test]
fn benchmark_arguments_are_checked() {
    let words = |text: &str| {
        text.split_whitespace()
            .map(str::to_owned)
            .collect::<Vec<String>>()
    };
    let all = KnownOptions {
        graph: true,
        samples: true,
    };
    let config = parse_benchmark(&words("--quick --graph g --samples 3 --output o"), all).unwrap();
    assert!(config.quick);
    assert_eq!(config.graph, "g");
    assert_eq!(config.samples, Some(3));
    assert_eq!(config.output.as_deref(), Some("o"));
    let cases = [
        ("--graph", "--graph requires a path"),
        ("--output", "--output requires a path"),
        ("--samples", "--samples requires a count"),
        ("--samples x", "invalid sample count: x"),
        ("--samples 0", "sample count must be greater than zero"),
        ("--what", "unknown argument: --what"),
    ];
    for (arguments, expected) in cases {
        assert_eq!(parse_benchmark(&words(arguments), all).unwrap_err(), expected);
    }
    let none = KnownOptions {
        graph: false,
        samples: false,
    };
    assert_eq!(
        parse_benchmark(&words("--graph g"), none).unwrap_err(),
        "unknown argument: --graph"
    );

    let config = parse_closure(&words("--vertices 7 --max-iterations +9")).unwrap();
    assert_eq!((config.vertices, config.max_iterations), (7, 9));
    let cases = [
        ("--vertices", "--vertices requires a count"),
        ("--vertices y", "invalid vertex count: y"),
        ("--vertices 1", "vertex count must be between 2 and 4,096"),
        ("--max-iterations", "--max-iterations requires a count"),
        ("--max-iterations z", "invalid iteration count: z"),
        ("--backend", "--backend requires auto, cpu, or gpu"),
        ("--backend tpu", "invalid backend: tpu"),
        ("now", "unknown argument: now"),
    ];
    for (arguments, expected) in cases {
        assert_eq!(parse_closure(&words(arguments)).unwrap_err(), expected);
    }
    assert_eq!(parse_usize("18446744073709551616"), None);
    assert_eq!(parse_usize("+12"), Some(12));
    assert_eq!(parse_usize("+"), None);
}

#[test]
fn device_reports_are_read() {
    assert_eq!(cuda_result("copy", 0), Ok(()));
    assert_eq!(
        cuda_result("copy", 700).unwrap_err().message(),
        "copy failed with CUDA error 700"
    );
    assert_eq!(
        cuda_result("copy", -3).unwrap_err().message(),
        "copy failed with CUDA error -3"
    );
    assert_eq!(counted_rows(12), Ok(12));
}
