//! What holds of every run, on values.
use sparkalog::benchmark::{
    chain_edges, chain_pairs, cpu_policies, delta_sizes, distinct_samples, expected_selected,
    filter_cutoff, filter_rows, filter_samples, gpu_policies, join_samples, largest_value,
    percentile, union_samples,
};
use sparkalog::bitmap::U32BitmapIndex;
use sparkalog::catalog::{InternedValue, ProgramCatalog};
use sparkalog::database::{Database, ExecutionBackend};
use sparkalog::evaluation::evaluate_clause;
use sparkalog::execution::{
    anti_join_cpu_parallel, anti_join_cpu_serial, distinct_auto, distinct_cpu_parallel,
    distinct_cpu_serial, encode_predicate, union_cpu_parallel, union_cpu_serial,
};
use sparkalog::execution_binary::execute_binary;
use sparkalog::execution_general::{execute_general, GeneralExecutionError};
use sparkalog::executor::{
    transitive_closure_scc, RecursiveExecutor, RelationStore, SccSummary,
};
use sparkalog::general::lower_general;
use sparkalog::index::U32RangeIndex;
use sparkalog::ingest::{parse_delimited_parallel, DelimitedOptions};
use sparkalog::lexer::lex;
use sparkalog::loader::load_binary_u32;
use sparkalog::parser::parse_program;
use sparkalog::placement::{DistinctPlacementPolicy, InputProvenance, Placement};
use sparkalog::recursion::IterationPolicies;
use sparkalog::relational::{
    BinaryDistinct, BindingId, RelationId, SortedBinaryAntiJoin, SortedBinaryUnion, U32Predicate,
};
use sparkalog::resolve::resolve_program;
use sparkalog::schedule::{dependencies, stratify};
use sparkalog::statistics::{optimize_general, PlanStatistics};
use sparkalog::storage::{Column, Relation, RelationBuffer};
use sparkalog::subset::lower_binary;
use sparkalog::workspace::{AntiJoinWorkspace, DistinctWorkspace, UnionWorkspace};

fn relation2(rows: &[(u32, u32)]) -> Relation {
    let mut relation = Relation::new(2, rows.len()).unwrap();
    for (row, &(first, second)) in rows.iter().enumerate() {
        relation.column_mut(0).unwrap().as_mut_slice()[row] = first;
        relation.column_mut(1).unwrap().as_mut_slice()[row] = second;
    }
    relation
}

fn pairs(buffer: &RelationBuffer) -> Vec<(u32, u32)> {
    let view = buffer.view();
    view.column_slice(0)
        .unwrap()
        .iter()
        .copied()
        .zip(view.column_slice(1).unwrap().iter().copied())
        .collect()
}

fn numbers(rows: &[Vec<InternedValue>]) -> Vec<Vec<u32>> {
    rows.iter()
        .map(|row| {
            row.iter()
                .map(|value| match value {
                    InternedValue::U32(number) => *number,
                    _ => panic!("a number"),
                })
                .collect()
        })
        .collect()
}

fn scattered(count: u32) -> Vec<(u32, u32)> {
    (0..count)
        .map(|i| {
            let mixed = i.wrapping_mul(2_654_435_761);
            (mixed % 61, (mixed >> 7) % 53)
        })
        .collect()
}

#[test]
fn answers_are_the_least_model() {
    let mut database = Database::new();
    database
        .load_program(
            "edge(1, 2). edge(2, 3). edge(3, 1). edge(3, 4).
             node(x) :- edge(x, y). node(y) :- edge(x, y).
             path(x, y) :- edge(x, y). path(x, z) :- path(x, y), edge(y, z).
             apart(x, y) :- node(x), node(y), !path(x, y).
             .output apart",
        )
        .unwrap();
    let summary = database.run().unwrap();
    assert_eq!(summary.backend, ExecutionBackend::GeneralCpu);
    let mut apart = numbers(&database.query("apart").unwrap().rows);
    apart.sort();
    assert_eq!(apart, [[4, 1], [4, 2], [4, 3], [4, 4]]);
    assert_eq!(database.query("path").unwrap().rows.len(), 12);
}

#[test]
fn running_twice_answers_alike() {
    let mut database = Database::new();
    database
        .load_program("edge(2, 1). edge(1, 2). loop(x) :- edge(x, y), edge(y, x). .output loop")
        .unwrap();
    let first = database.run().unwrap();
    let before = database.outputs().unwrap();
    let second = database.run().unwrap();
    assert_eq!(first, second);
    assert_eq!(before, database.outputs().unwrap());
}

#[test]
fn an_added_fact_follows() {
    let mut database = Database::new();
    database
        .load_program(".decl edge(from:number, to:number) .input edge copy(x, y) :- edge(x, y). .output copy")
        .unwrap();
    database
        .load_delimited("edge", "3,4\n1,2\n3,4\n", DelimitedOptions::default())
        .unwrap();
    database
        .insert("edge", vec![InternedValue::U32(5), InternedValue::U32(6)])
        .unwrap();
    database.run().unwrap();
    let mut rows = numbers(&database.query("copy").unwrap().rows);
    rows.sort();
    assert_eq!(rows, [[1, 2], [3, 4], [5, 6]]);
}

#[test]
fn explanations_name_the_preferred_backend() {
    let mut database = Database::new();
    database
        .load_program("e(1, 2). p(x, y) :- e(x, y). p(x, z) :- p(x, y), e(y, z). .output p")
        .unwrap();
    let text = database.explain().unwrap();
    assert!(text.starts_with("backend: BinaryHybrid\n"));
    assert!(text.contains("p <-"));
    database.load_program("e(1, 2). c(x) :- e(x, y).").unwrap();
    assert!(database
        .explain()
        .unwrap()
        .starts_with("backend: GeneralCpu\n"));
}

#[test]
fn producers_come_first_and_negation_crosses_strata() {
    let parsed = parse_program(
        "a(1). b(x) :- a(x). c(x) :- b(x), !d(x). d(x) :- a(x), !e(x). e(2). c(x) :- c(x).",
    );
    let mut catalog = ProgramCatalog::new();
    let resolved = resolve_program(&parsed.program, &mut catalog);
    let schedule = stratify(&resolved.program).unwrap();
    let id = |name: &str| catalog.predicates.id(name).unwrap();
    let level = |name: &str| {
        schedule
            .strata
            .iter()
            .find(|stratum| stratum.sccs.iter().any(|scc| scc.predicates.contains(&id(name))))
            .unwrap()
            .index
    };
    assert_eq!(
        ["a", "b", "c", "d", "e"].map(level),
        [0, 0, 2, 1, 0]
    );
    assert_eq!(dependencies(&resolved.program).len(), 6);
    let recursive = schedule
        .strata
        .iter()
        .flat_map(|stratum| &stratum.sccs)
        .filter(|scc| scc.recursive)
        .count();
    assert_eq!(recursive, 1);
}

#[test]
fn texts_are_quoted_with_escapes() {
    let source = "t(\"a\\\"b\\n\", 'sym, 7).";
    let parsed = parse_program(source);
    assert!(parsed.is_success());
    assert_eq!(parsed.program.source_text(), "t(\"a\\\"b\\n\", 'sym, 7).\n");
    let again = parse_program(&parsed.program.source_text());
    assert_eq!(again.program.source_text(), parsed.program.source_text());
}

#[test]
fn facts_and_summaries_are_written() {
    let mut database = Database::new();
    database
        .load_program("p('a, \"b c\", 3). q(x) :- p(x, y, z). .output p")
        .unwrap();
    let summary = database.run().unwrap();
    assert_eq!(summary.report(), "completed 2 components in 1 fixpoint rounds");
    let lines = database.outputs().unwrap()[0].fact_lines();
    assert_eq!(lines, ["p('a, \"b c\", 3)."]);
}

#[test]
fn spans_count_bytes() {
    let (tokens, diagnostics) = lex("\"é\" x");
    assert!(diagnostics.is_empty());
    assert_eq!((tokens[0].span.start, tokens[0].span.end), (0, 4));
    assert_eq!((tokens[1].span.start, tokens[1].span.end), (5, 6));
}

#[test]
fn distinct_pairs_are_ascending_whoever_sorts() {
    let rows = scattered(5_000);
    let mut expected = rows.clone();
    expected.sort();
    expected.dedup();
    let input = relation2(&rows);
    let plan = BinaryDistinct { columns: [0, 1] };
    let mut serial = DistinctWorkspace::new().unwrap();
    let mut parallel = DistinctWorkspace::new().unwrap();
    distinct_cpu_serial(input.view(), plan, &mut serial).unwrap();
    distinct_cpu_parallel(input.view(), plan, &mut parallel).unwrap();
    assert_eq!(pairs(serial.output()), expected);
    assert_eq!(pairs(parallel.output()), expected);

    let swapped = BinaryDistinct { columns: [1, 0] };
    distinct_cpu_serial(input.view(), swapped, &mut serial).unwrap();
    let mut expected = rows.iter().map(|&(a, b)| (b, a)).collect::<Vec<_>>();
    expected.sort();
    expected.dedup();
    assert_eq!(pairs(serial.output()), expected);
}

#[test]
fn difference_and_union_split_a_set() {
    let mut all = scattered(2_000);
    all.sort();
    all.dedup();
    let (some, rest): (Vec<_>, Vec<_>) = all.iter().copied().partition(|&(a, _)| a % 3 == 0);
    let (whole, part) = (relation2(&all), relation2(&some));
    let minus = SortedBinaryAntiJoin {
        left: [0, 1],
        right: [0, 1],
    };
    let plus = SortedBinaryUnion {
        left: [0, 1],
        right: [0, 1],
    };
    let mut difference = AntiJoinWorkspace::new().unwrap();
    let mut union = UnionWorkspace::new().unwrap();
    anti_join_cpu_serial(whole.view(), part.view(), minus, &mut difference).unwrap();
    assert_eq!(pairs(difference.output()), rest);
    anti_join_cpu_parallel(whole.view(), part.view(), minus, &mut difference).unwrap();
    assert_eq!(pairs(difference.output()), rest);
    let remaining = relation2(&rest);
    union_cpu_serial(part.view(), remaining.view(), plus, &mut union).unwrap();
    assert_eq!(pairs(union.output()), all);
    union_cpu_parallel(part.view(), remaining.view(), plus, &mut union).unwrap();
    assert_eq!(pairs(union.output()), all);
}

#[test]
fn work_for_the_device_is_left_to_the_caller() {
    let input = relation2(&[(2, 1), (1, 1)]);
    let mut workspace = DistinctWorkspace::new().unwrap();
    let policy = DistinctPlacementPolicy {
        cpu_produced_gpu_min_rows: 0,
        gpu_produced_gpu_min_rows: 0,
        gpu_unavailable_parallel_min_rows: 0,
    };
    let placement = distinct_auto(
        input.view(),
        BinaryDistinct { columns: [0, 1] },
        InputProvenance::Cpu,
        &mut workspace,
        true,
        policy,
    );
    assert_eq!(placement, Ok(Placement::Gpu));
    assert!(workspace.output().is_empty());
}

#[test]
fn both_indexes_list_the_same_rows() {
    let values = (0..700_u32).map(|i| i * i % 37).collect::<Vec<_>>();
    let mut column = Column::new_filled(values.len(), 0).unwrap();
    column.as_mut_slice().copy_from_slice(&values);
    let range = U32RangeIndex::build(&column).unwrap();
    let bitmap = U32BitmapIndex::build(&column).unwrap();
    assert_eq!(range.unique_keys(), bitmap.unique_keys());
    for key in 0..40 {
        let expected = (0..700_u32)
            .filter(|&row| values[row as usize] == key)
            .collect::<Vec<_>>();
        assert_eq!(range.lookup(key), expected);
        match bitmap.lookup(key) {
            Some(posting) => {
                assert_eq!(posting.len(), expected.len());
                assert_eq!(posting.rows(), expected);
            }
            None => assert!(expected.is_empty()),
        }
    }
}

#[test]
fn bitmaps_hold_rows_of_long_columns() {
    let rows = 2_097_152_usize + 5;
    let mut column = Column::new_filled(rows, 7).unwrap();
    let rare = [0, 1, 2_097_151, 2_097_152, rows - 1];
    for &row in &rare {
        column.as_mut_slice()[row] = 3;
    }
    let bitmap = U32BitmapIndex::build(&column).unwrap();
    let found = bitmap.lookup(3).unwrap();
    assert_eq!(found.rows(), rare.map(|row| row as u32));
    let common = bitmap.lookup(7).unwrap();
    assert_eq!(common.len(), rows - rare.len());
    let expected = (0..rows as u32)
        .filter(|&row| !rare.contains(&(row as usize)))
        .collect::<Vec<_>>();
    assert_eq!(common.rows(), expected);
    assert!(bitmap.lookup(4).is_none());
}

#[test]
fn a_component_reaches_the_closure() {
    let edges = [(1, 2), (2, 3), (3, 1), (4, 1), (5, 5)];
    let mut sorted = edges.to_vec();
    sorted.sort();
    let edge = relation2(&sorted);
    let (edge_id, path_id) = (RelationId(0), RelationId(1));
    for policies in [IterationPolicies::default(), cpu_policies()] {
        let mut store = RelationStore::new();
        store
            .insert_static(edge_id, edge.view(), InputProvenance::Cpu)
            .unwrap();
        store
            .insert_recursive(path_id, edge.view(), edge.view(), InputProvenance::Cpu)
            .unwrap();
        let plan = transitive_closure_scc(path_id, edge_id);
        let mut executor = RecursiveExecutor::compile(plan, &store).unwrap();
        let summary = executor.run(&mut store, policies, 32).unwrap();
        let found = pairs(store.full(path_id).unwrap());
        let mut expected = sorted.clone();
        loop {
            let mut more = expected.clone();
            for &(a, b) in &expected {
                for &(c, d) in &sorted {
                    if b == c {
                        more.push((a, d));
                    }
                }
            }
            more.sort();
            more.dedup();
            if more == expected {
                break;
            }
            expected = more;
        }
        assert_eq!(found, expected);
        assert_eq!(summary.relation_rows, [(path_id, expected.len())]);
        assert_eq!(summary.total_new_rows, expected.len() - sorted.len());
        let again = executor.run(&mut store, policies, 0).unwrap();
        assert_eq!(again.iterations, 0);
    }
}

#[test]
fn a_chain_has_a_pair_for_every_two_vertices() {
    let edge = chain_edges(6).unwrap();
    assert_eq!(edge.column(0).unwrap().as_slice(), &[0, 1, 2, 3, 4]);
    assert_eq!(edge.column(1).unwrap().as_slice(), &[1, 2, 3, 4, 5]);
    assert_eq!(chain_pairs(6), 15);
    assert_eq!(largest_value(&edge), 5);
    assert_eq!(filter_cutoff(5), 1);
    assert_eq!(filter_cutoff(95), 10);
}

#[test]
fn loading_skips_comments_and_blank_lines() {
    let relation = load_binary_u32("g", "% head\r\n  7 \t 8\r\n\n# end\n+9 4294967295").unwrap();
    assert_eq!(relation.column(0).unwrap().as_slice(), &[7, 9]);
    assert_eq!(relation.column(1).unwrap().as_slice(), &[8, 4_294_967_295]);
    assert!(load_binary_u32("g", "").unwrap().is_empty());
}

#[test]
fn benchmark_figures_are_exact() {
    assert_eq!(percentile(&[1, 2, 3, 4, 5], 1, 2), 3);
    assert_eq!(percentile(&[1, 2, 3, 4, 5], 1, 10), 1);
    assert_eq!(percentile(&[1, 2, 3, 4, 5], 9, 10), 4);
    for (rows, selectivity) in [(250, 10), (99, 50), (1_000, 90), (30, 1)] {
        let expected = (0..rows).filter(|row| row % 100 < selectivity).count();
        assert_eq!(expected_selected(rows, selectivity), expected);
    }
    assert_eq!([8_192, 8_193, 524_289].map(filter_samples), [25, 10, 5]);
    assert_eq!([8_192, 8_193, 131_073].map(join_samples), [15, 7, 3]);
    assert_eq!([8_192, 8_193, 131_073].map(distinct_samples), [10, 5, 3]);
    assert_eq!([8_192, 8_193, 131_073].map(union_samples), [7, 5, 3]);
    assert_eq!(filter_rows(true), [32, 4_096, 131_072]);
    assert_eq!(filter_rows(false).len(), 10);
    assert_eq!(delta_sizes(true, 9), [32, 8_192, 131_072]);
    assert_eq!(delta_sizes(false, 9)[8], 9);
    assert_eq!(gpu_policies().join.gpu_min_delta_rows, 0);
    assert_eq!(cpu_policies().join.gpu_min_delta_rows, usize::MAX);
}

#[test]
fn predicates_have_codes() {
    assert_eq!(encode_predicate(U32Predicate::Eq(7)).1, 7);
    let codes = [
        U32Predicate::Eq(0),
        U32Predicate::Ne(0),
        U32Predicate::Lt(0),
        U32Predicate::Le(0),
        U32Predicate::Gt(0),
        U32Predicate::Ge(0),
    ]
    .map(|predicate| encode_predicate(predicate).0);
    assert_eq!(codes, [0, 1, 2, 3, 4, 5]);
}

fn agree(source: &str, names: &[&str]) -> Vec<SccSummary> {
    let parsed = parse_program(source);
    let mut catalog = ProgramCatalog::new();
    let resolved = resolve_program(&parsed.program, &mut catalog);
    let general = lower_general(&resolved.program).unwrap();
    let binary = lower_binary(&resolved.program).unwrap();
    let expected = execute_general(&general, 100).unwrap();
    let found = execute_binary(&binary, IterationPolicies::default(), 100)
        .ok()
        .unwrap();
    for name in names {
        let id = RelationId(catalog.predicates.id(name).unwrap().0);
        let rows = expected
            .store
            .rows(id)
            .unwrap()
            .as_slice()
            .iter()
            .map(|tuple| (tuple[0], tuple[1]))
            .collect::<Vec<_>>();
        assert_eq!(pairs(found.store.full(id).unwrap()), rows);
    }
    found.summaries
}

#[test]
fn both_backends_agree() {
    let summaries = agree(
        "e(1, 2). e(2, 3). e(3, 1). e(3, 4). p(7, 1).
         p(x, y) :- e(x, y). p(x, z) :- p(x, y), e(y, z).
         q(y, x) :- e(x, y). q(z, x) :- q(y, x), p(y, z). .output q",
        &["e", "p", "q"],
    );
    assert_eq!(summaries.len(), 2);
}

#[test]
fn both_backends_take_several_rules_for_a_relation() {
    let summaries = agree(
        "e(1, 2). e(2, 3). f(3, 9). f(2, 1).
         p(x, y) :- e(x, y). p(x, z) :- p(x, y), e(y, z). p(x, z) :- p(x, y), f(y, z).",
        &["e", "f", "p"],
    );
    assert_eq!(summaries.len(), 1);
    assert_eq!(summaries[0].iterations, 3);
    assert_eq!(summaries[0].total_new_rows, 4);
    assert_eq!(summaries[0].relation_rows.len(), 1);
    assert_eq!(summaries[0].relation_rows[0].1, 6);
    let last = summaries[0].last_placements.clone();
    assert_eq!(last.len(), 2);
    assert!(last.iter().all(|(id, placements)| {
        *id == summaries[0].relation_rows[0].0 && placements.union == Placement::CpuSerial
    }));
}

#[test]
fn estimates_do_not_change_results() {
    let parsed = parse_program(
        "e(1, 2). e(2, 3). e(3, 4). f(4, 1). f(3, 9).
         r(x, w) :- e(x, y), e(y, z), f(z, w). r(x, z) :- r(x, y), e(y, z), !f(x, z).",
    );
    let mut catalog = ProgramCatalog::new();
    let resolved = resolve_program(&parsed.program, &mut catalog);
    let plan = lower_general(&resolved.program).unwrap();
    let expected = execute_general(&plan, 100).unwrap();
    for relation_rows in [vec![], vec![1, 1_000, 7], vec![1_000, 1, 0]] {
        let mut changed = plan.clone();
        optimize_general(&mut changed, &PlanStatistics { relation_rows });
        let result = execute_general(&changed, 100).unwrap();
        assert_eq!(result.store, expected.store);
        assert_eq!(result.summaries, expected.summaries);
        let once = changed.clone();
        let statistics = PlanStatistics { relation_rows: vec![1, 1_000, 7] };
        optimize_general(&mut changed, &statistics);
        let first = changed.clone();
        optimize_general(&mut changed, &statistics);
        assert_eq!(changed, first);
        assert_eq!(once.facts, changed.facts);
    }
}

#[test]
fn bindings_may_be_kept_longer_than_needed() {
    let parsed = parse_program(
        "e(1, 2). e(2, 3). e(3, 4). f(4, 2). f(3, 9).
         r(x) :- e(x, y), e(y, z), e(z, w), !f(w, x).",
    );
    let mut catalog = ProgramCatalog::new();
    let resolved = resolve_program(&parsed.program, &mut catalog);
    let mut plan = lower_general(&resolved.program).unwrap();
    optimize_general(&mut plan, &PlanStatistics { relation_rows: vec![] });
    let store = execute_general(&plan, 100).unwrap().store;
    let mut tried = 0;
    for stratum in &mut plan.strata {
        for clause in stratum.sccs.iter_mut().flat_map(|scc| &mut scc.seeds) {
            let exact = evaluate_clause(clause, &store);
            assert_eq!(exact.len(), 1);
            for list in &mut clause.live_after {
                *list = (0..9).map(BindingId).collect();
            }
            clause.live_after.push(Vec::new());
            assert_eq!(evaluate_clause(clause, &store), exact);
            tried += 1;
        }
    }
    assert_eq!(tried, 1);
}

#[test]
fn a_program_has_one_schedule() {
    let source = "b(x) :- a(x). a(1). d(x) :- c(x), !b(x). c(x) :- d(x). c(2). e(3).";
    let parsed = parse_program(source);
    let mut catalog = ProgramCatalog::new();
    let resolved = resolve_program(&parsed.program, &mut catalog);
    let schedule = stratify(&resolved.program).unwrap();
    assert_eq!(schedule, stratify(&resolved.program).unwrap());
    let id = |name: &str| catalog.predicates.id(name).unwrap();
    let groups = schedule
        .strata
        .iter()
        .map(|stratum| {
            stratum
                .sccs
                .iter()
                .map(|scc| scc.predicates.clone())
                .collect::<Vec<_>>()
        })
        .collect::<Vec<_>>();
    assert_eq!(
        groups,
        [
            vec![vec![id("a")], vec![id("b")], vec![id("e")]],
            vec![vec![id("d"), id("c")]]
        ]
    );
}

#[test]
fn a_larger_limit_changes_nothing() {
    let parsed = parse_program(
        "e(1, 2). e(2, 3). e(3, 4). p(x, y) :- e(x, y). p(x, z) :- p(x, y), e(y, z).",
    );
    let mut catalog = ProgramCatalog::new();
    let resolved = resolve_program(&parsed.program, &mut catalog);
    let plan = lower_general(&resolved.program).unwrap();
    let enough = execute_general(&plan, 3).unwrap();
    assert!(enough.summaries.iter().all(|summary| summary.iterations <= 3));
    for limit in [4, 100, usize::MAX] {
        assert_eq!(execute_general(&plan, limit), Ok(enough.clone()));
    }
    for limit in [0, 1, 2] {
        assert_eq!(
            execute_general(&plan, limit),
            Err(GeneralExecutionError::IterationLimit { limit })
        );
    }
}

#[test]
fn a_refused_text_changes_no_answer() {
    let mut database = Database::new();
    database
        .load_program("e(1, 2). c(x, y) :- e(x, y). .output c")
        .unwrap();
    let first = database.run().unwrap();
    let before = database.query("c").unwrap();
    let outputs = database.outputs().unwrap();
    for refused in [
        "c(x, y) :-",
        "new(7, 8). c(x, y, z) :- e(x, y), e(y, z).",
        "a(x) :- b(x), !a(x). b(9).",
    ] {
        assert!(database.load_program(refused).is_err());
        assert_eq!(database.query("c").unwrap(), before);
        assert_eq!(database.outputs().unwrap(), outputs);
        assert!(database.query("new").is_err());
        assert_eq!(database.run().unwrap(), first);
        assert_eq!(database.query("c").unwrap(), before);
    }
}

#[test]
fn a_known_fact_changes_no_answer() {
    let mut database = Database::new();
    database
        .load_program("e(1, 2). e(2, 3). p(x, y) :- e(x, y). p(x, z) :- p(x, y), e(y, z).")
        .unwrap();
    database.run().unwrap();
    let before = database.query("p").unwrap();
    assert!(before.rows.iter().all(|row| row.len() == 2));
    database
        .insert("p", vec![InternedValue::U32(1), InternedValue::U32(3)])
        .unwrap();
    database.run().unwrap();
    assert_eq!(database.query("p").unwrap(), before);
}

#[test]
fn an_index_lists_the_column() {
    let values = [7u32, 3, 7, 1, 3, 7];
    let index = U32RangeIndex::build_slice(&values).unwrap();
    assert_eq!(index.keys().as_slice(), [1, 3, 7]);
    assert_eq!(index.starts().as_slice(), [0, 1, 3, 6]);
    assert_eq!(index.rows().as_slice(), [3, 1, 4, 0, 2, 5]);
    let listed: Vec<u32> = index
        .keys()
        .as_slice()
        .iter()
        .flat_map(|key| index.lookup(*key).iter().copied())
        .collect();
    assert_eq!(listed, index.rows().as_slice());
}

#[test]
fn delimited_texts_join() {
    let plain = DelimitedOptions::default();
    let headed = DelimitedOptions { has_header: true, ..plain };
    let first = parse_delimited_parallel("1,a\n2,b", plain).unwrap();
    let second = parse_delimited_parallel("3,\"c\"\n", plain).unwrap();
    let joined = parse_delimited_parallel("1,a\n2,b\n3,\"c\"\n", plain).unwrap();
    let mut both = first.clone();
    both.extend(second.clone());
    assert_eq!(joined, both);
    assert_eq!(
        parse_delimited_parallel("id,,\n3,\"c\"\n", headed).unwrap(),
        second
    );
    assert!(parse_delimited_parallel("1,a\n2,b\n3,,", plain).is_err());
    for front in ["1,a\n2,b\r", "1,a\r\n\n2,b \r", "1,a\n2,b\n\r"] {
        assert_eq!(parse_delimited_parallel(front, plain).unwrap(), first);
        let whole = format!("{front}\n3,\"c\"\n");
        assert_eq!(parse_delimited_parallel(&whole, plain).unwrap(), both);
    }
    assert!(parse_delimited_parallel("\"a\"\r", plain).is_err());
    assert!(parse_delimited_parallel("\"a\"\r\nb", plain).is_ok());
}

#[test]
fn printed_programs_read_back() {
    let source = ".decl edge(a:number, b:number)\n.decl flag()\n.input edge\n\
                  path(x, y) :- edge(x, y).\npath(x, z) :- path(x, y), edge(y, z), !flag().\n\
                  edge(1, 'b).\n.output path\n.output edge\n";
    let parsed = parse_program(source);
    assert_eq!(parsed.diagnostics, []);
    let printed = parsed.program.source_text();
    assert_eq!(
        printed,
        ".decl edge(x0: any, x1: any)\n.decl flag()\n.input edge\n\
         path(x, y) :- edge(x, y).\npath(x, z) :- path(x, y), edge(y, z), !flag().\n\
         edge(1, 'b).\n.output path\n.output edge\n"
    );
    let again = parse_program(&printed);
    assert_eq!(again.diagnostics, []);
    assert_eq!(again.program.source_text(), printed);
    assert_eq!(again.program.declarations.len(), 2);
    assert_eq!(again.program.declarations[0].arity, 2);
}

#[test]
fn the_first_statement_sets_an_arity() {
    let mut catalog = ProgramCatalog::new();
    let parsed = parse_program("a(1). .decl a(x:number, y:number)");
    let resolved = resolve_program(&parsed.program, &mut catalog);
    assert_eq!(resolved.program.rules.len(), 1);
    assert_eq!(resolved.diagnostics.len(), 1);
    assert_eq!(resolved.diagnostics[0].span.start, 12);

    let mut catalog = ProgramCatalog::new();
    let parsed = parse_program(".decl a(x:number, y:number) a(1).");
    let resolved = resolve_program(&parsed.program, &mut catalog);
    assert_eq!(resolved.program.rules.len(), 0);
    assert_eq!(resolved.program.declarations.len(), 1);
    assert_eq!(resolved.diagnostics.len(), 1);
    assert_eq!(resolved.diagnostics[0].span.start, 28);
}

#[test]
fn negated_literals_are_placed_by_the_literals_of_the_source() {
    let mut catalog = ProgramCatalog::new();
    let parsed = parse_program("a(1). b(1). c(1, 2). d(x) :- a(1, 2), b(x), !c(x, longname).");
    let resolved = resolve_program(&parsed.program, &mut catalog);
    assert_eq!(resolved.diagnostics.len(), 1);
    let mut catalog = ProgramCatalog::new();
    let parsed = parse_program("a(1). b(1, 2). c(1, 2). d(x) :- a(1, 2), b(x, x), !c(x, y).");
    let resolved = resolve_program(&parsed.program, &mut catalog);
    assert_eq!(resolved.diagnostics.len(), 2);
    assert_eq!(
        resolved.diagnostics[1].message,
        "variable y in a negated atom is not bound by a positive body atom"
    );
    assert_eq!(resolved.diagnostics[1].span.start, 46);
    assert_eq!(resolved.diagnostics[1].span.end, 47);
}
