//! Fixpoints over binary relations.
use sparkalog::executor::{
    transitive_closure_scc, GenericExecutionError, RecursiveExecutor, RelationStore,
};
use sparkalog::index::U32RangeIndex;
use sparkalog::placement::{InputProvenance, Placement};
use sparkalog::recursion::{
    FixpointDriver, FixpointError, FixpointState, IterationPolicies, TransitiveClosureStep,
};
use sparkalog::relational::{RecursiveRulePlan, RecursiveSccPlan, RelationId};
use sparkalog::storage::Relation;

fn relation2(rows: &[(u32, u32)]) -> Relation {
    let mut relation = Relation::new(2, rows.len()).unwrap();
    for (row, &(first, second)) in rows.iter().enumerate() {
        relation.column_mut(0).unwrap().as_mut_slice()[row] = first;
        relation.column_mut(1).unwrap().as_mut_slice()[row] = second;
    }
    relation
}

#[test]
fn empty_delta_ends_the_fixpoint() {
    let mut state = FixpointState::seeded(4);
    state.advance(2);
    state.advance(0);

    assert!(state.reached_fixpoint());
    assert_eq!(state.full_rows(), 6);
    assert_eq!(state.iterations(), 2);
}

#[test]
fn complete_transitive_closure_step_produces_newt_and_updated_full() {
    let edge = relation2(&[(1, 2), (2, 3), (3, 4)]);
    let index = U32RangeIndex::build(edge.column(0).unwrap()).unwrap();
    let mut step = TransitiveClosureStep::new().unwrap();

    let result = step
        .execute(
            edge.view(),
            edge.view(),
            edge.view(),
            &index,
            InputProvenance::Cpu,
            IterationPolicies::default(),
        )
        .unwrap();

    assert_eq!(result.candidate_rows, 2);
    assert_eq!(result.distinct_candidate_rows, 2);
    assert_eq!(result.newt_rows, 2);
    assert_eq!(result.full_rows, 5);
    assert_eq!(step.newt().view().column_slice(0).unwrap(), &[1, 2]);
    assert_eq!(step.newt().view().column_slice(1).unwrap(), &[3, 4]);
    assert_eq!(
        step.full().view().column_slice(0).unwrap(),
        &[1, 1, 2, 2, 3]
    );
    assert_eq!(
        step.full().view().column_slice(1).unwrap(),
        &[2, 3, 3, 4, 4]
    );

    let mut state = FixpointState::seeded(edge.len());
    state.advance(result.newt_rows);
    assert_eq!(state.full_rows(), result.full_rows);
    assert_eq!(state.delta_rows(), result.newt_rows);
}

#[test]
fn fixpoint_driver_converges_with_cpu_and_cuda_execution() {
    let edge = relation2(&[(1, 2), (2, 3), (3, 4), (4, 5)]);
    let index = U32RangeIndex::build(edge.column(0).unwrap()).unwrap();
    let expected_first = [1, 1, 1, 1, 2, 2, 2, 3, 3, 4];
    let expected_second = [2, 3, 4, 5, 3, 4, 5, 4, 5, 5];

    let mut cpu = FixpointDriver::new().unwrap();
    let cpu_summary = cpu
        .run(
            edge.view(),
            edge.view(),
            edge.view(),
            &index,
            InputProvenance::Cpu,
            IterationPolicies::default(),
            16,
        )
        .unwrap();
    assert_eq!(cpu_summary.state.iterations(), 4);
    assert_eq!(cpu_summary.state.full_rows(), 10);
    assert!(cpu_summary.state.reached_fixpoint());
    assert!(cpu.newt().unwrap().is_empty());
    assert_eq!(
        cpu.full().unwrap().view().column_slice(0).unwrap(),
        expected_first
    );
    assert_eq!(
        cpu.full().unwrap().view().column_slice(1).unwrap(),
        expected_second
    );
}

#[test]
fn fixpoint_driver_reports_iteration_limit() {
    let edge = relation2(&[(1, 2), (2, 3), (3, 4), (4, 5)]);
    let index = U32RangeIndex::build(edge.column(0).unwrap()).unwrap();
    let mut driver = FixpointDriver::new().unwrap();

    let error = driver
        .run(
            edge.view(),
            edge.view(),
            edge.view(),
            &index,
            InputProvenance::Cpu,
            IterationPolicies::default(),
            2,
        )
        .unwrap_err();

    assert!(matches!(
        error,
        FixpointError::IterationLimit {
            limit: 2,
            remaining_delta_rows: 2
        }
    ));
}

fn recursive_rule(
    target: RelationId,
    delta_input: RelationId,
    right_input: RelationId,
) -> RecursiveRulePlan {
    let mut plan = transitive_closure_scc(target, right_input)
        .rules
        .pop()
        .unwrap();
    plan.delta_input = delta_input;
    plan
}

#[test]
fn generic_plan_reaches_transitive_closure() {
    let edge_id = RelationId(0);
    let path_id = RelationId(1);
    let edge = relation2(&[(1, 2), (2, 3), (3, 4), (4, 5)]);
    let mut store = RelationStore::new();
    store
        .insert_static(edge_id, edge.view(), InputProvenance::Cpu)
        .unwrap();
    store
        .insert_recursive(path_id, edge.view(), edge.view(), InputProvenance::Cpu)
        .unwrap();
    let mut executor =
        RecursiveExecutor::compile(transitive_closure_scc(path_id, edge_id), &store).unwrap();

    let summary = executor
        .run(&mut store, IterationPolicies::default(), 16)
        .unwrap();

    assert_eq!(summary.iterations, 4);
    assert_eq!(summary.total_new_rows, 6);
    assert_eq!(summary.relation_rows, [(path_id, 10)]);
    assert!(store.delta(path_id).unwrap().is_empty());
    assert_eq!(
        store.full(path_id).unwrap().view().column_slice(0).unwrap(),
        &[1, 1, 1, 1, 2, 2, 2, 3, 3, 4]
    );
    assert_eq!(
        store.full(path_id).unwrap().view().column_slice(1).unwrap(),
        &[2, 3, 4, 5, 3, 4, 5, 4, 5, 5]
    );
}

#[test]
fn mutually_recursive_rules_observe_the_same_round() {
    let edge_id = RelationId(0);
    let a_id = RelationId(1);
    let b_id = RelationId(2);
    let edge = relation2(&[(2, 3), (3, 4), (4, 5)]);
    let a_seed = relation2(&[(1, 2)]);
    let b_seed = relation2(&[(2, 3)]);
    let mut store = RelationStore::new();
    store
        .insert_static(edge_id, edge.view(), InputProvenance::Cpu)
        .unwrap();
    store
        .insert_recursive(a_id, a_seed.view(), a_seed.view(), InputProvenance::Cpu)
        .unwrap();
    store
        .insert_recursive(b_id, b_seed.view(), b_seed.view(), InputProvenance::Cpu)
        .unwrap();
    let plan = RecursiveSccPlan {
        relations: vec![a_id, b_id],
        rules: vec![
            recursive_rule(a_id, b_id, edge_id),
            recursive_rule(b_id, a_id, edge_id),
        ],
    };
    let mut executor = RecursiveExecutor::compile(plan, &store).unwrap();

    let summary = executor
        .run(&mut store, IterationPolicies::default(), 16)
        .unwrap();

    assert_eq!(summary.iterations, 4);
    assert!(store.delta(a_id).unwrap().is_empty());
    assert!(store.delta(b_id).unwrap().is_empty());
    assert_eq!(
        store.full(a_id).unwrap().view().column_slice(0).unwrap(),
        &[1, 1, 2]
    );
    assert_eq!(
        store.full(a_id).unwrap().view().column_slice(1).unwrap(),
        &[2, 4, 4]
    );
    assert_eq!(
        store.full(b_id).unwrap().view().column_slice(0).unwrap(),
        &[1, 1, 2, 2]
    );
    assert_eq!(
        store.full(b_id).unwrap().view().column_slice(1).unwrap(),
        &[3, 5, 3, 5]
    );
}

#[test]
fn a_relation_may_have_several_rules() {
    let (edge_id, back_id, path_id) = (RelationId(0), RelationId(1), RelationId(2));
    let edge = relation2(&[(1, 2), (2, 3)]);
    let back = relation2(&[(2, 9), (3, 1)]);
    let seed = relation2(&[(1, 2)]);
    let run = |rules: Vec<RecursiveRulePlan>| {
        let mut store = RelationStore::new();
        store
            .insert_static(edge_id, edge.view(), InputProvenance::Cpu)
            .unwrap();
        store
            .insert_static(back_id, back.view(), InputProvenance::Cpu)
            .unwrap();
        store
            .insert_recursive(path_id, seed.view(), seed.view(), InputProvenance::Cpu)
            .unwrap();
        let plan = RecursiveSccPlan { relations: vec![path_id], rules };
        let mut executor = RecursiveExecutor::compile(plan, &store).unwrap();
        let summary = executor
            .run(&mut store, IterationPolicies::default(), 16)
            .unwrap();
        let full = store.full(path_id).unwrap();
        let rows: Vec<(u32, u32)> = full
            .view()
            .column_slice(0)
            .unwrap()
            .iter()
            .copied()
            .zip(full.view().column_slice(1).unwrap().iter().copied())
            .collect();
        assert_eq!(store.full_provenance(path_id), Ok(InputProvenance::Cpu));
        (summary, rows)
    };
    let by_edge = recursive_rule(path_id, path_id, edge_id);
    let by_back = recursive_rule(path_id, path_id, back_id);
    let (summary, rows) = run(vec![by_edge, by_back]);
    assert_eq!(rows, [(1, 1), (1, 2), (1, 3), (1, 9)]);
    assert_eq!(summary.iterations, 3);
    assert_eq!(summary.total_new_rows, 3);
    assert_eq!(summary.relation_rows, [(path_id, 4)]);
    assert_eq!(summary.last_placements.len(), 2);
    assert!(summary.last_placements.iter().all(|(id, _)| *id == path_id));
    assert_eq!(summary.last_placements[0].1.join, Placement::CpuSerial);

    let (turned, again) = run(vec![by_back, by_edge]);
    assert_eq!(again, rows);
    assert_eq!(turned.iterations, summary.iterations);
    let (repeated, third) = run(vec![by_edge, by_back, by_edge]);
    assert_eq!(third, rows);
    assert_eq!(repeated.last_placements.len(), 3);
}

#[test]
fn a_rule_keeps_the_columns_that_its_plan_names() {
    let (edge_id, path_id) = (RelationId(0), RelationId(1));
    let edge = relation2(&[(1, 4), (2, 3)]);
    let seed = relation2(&[(1, 2)]);
    let run = |rule: RecursiveRulePlan| {
        let mut store = RelationStore::new();
        store
            .insert_static(edge_id, edge.view(), InputProvenance::Cpu)
            .unwrap();
        store
            .insert_recursive(path_id, seed.view(), seed.view(), InputProvenance::Cpu)
            .unwrap();
        let plan = RecursiveSccPlan { relations: vec![path_id], rules: vec![rule] };
        let mut executor = RecursiveExecutor::compile(plan, &store).unwrap();
        let outcome = executor.run(&mut store, IterationPolicies::default(), 16);
        let full = store.full(path_id).unwrap().view();
        let rows: Vec<(u32, u32)> = full
            .column_slice(0)
            .unwrap()
            .iter()
            .copied()
            .zip(full.column_slice(1).unwrap().iter().copied())
            .collect();
        (outcome, rows)
    };
    let mut turned = recursive_rule(path_id, path_id, edge_id);
    turned.distinct.columns = [1, 0];
    let (outcome, rows) = run(turned);
    assert_eq!(outcome.unwrap().iterations, 3);
    assert_eq!(rows, [(1, 2), (3, 1), (4, 3)]);

    let mut doubled = recursive_rule(path_id, path_id, edge_id);
    doubled.distinct.columns = [1, 1];
    let (_, rows) = run(doubled);
    assert_eq!(rows, [(1, 2), (3, 3)]);

    let mut missing = recursive_rule(path_id, path_id, edge_id);
    missing.join.right_key = 2;
    let (outcome, rows) = run(missing);
    assert!(matches!(
        outcome,
        Err(GenericExecutionError::MissingPlanColumn { relation, column: 2 }) if relation == edge_id
    ));
    assert_eq!(rows, [(1, 2)]);

    let mut wide = recursive_rule(path_id, path_id, edge_id);
    wide.union.left = [0, 2];
    let (outcome, rows) = run(wide);
    assert!(matches!(outcome, Err(GenericExecutionError::Execution(_))));
    assert_eq!(rows, [(1, 2)]);
}

#[test]
fn a_rule_reads_any_column_of_a_static_relation() {
    let (edge_id, path_id) = (RelationId(0), RelationId(1));
    let mut edge = Relation::new(3, 3).unwrap();
    for (column, values) in [[7, 8, 9], [3, 4, 5], [2, 3, 2]].into_iter().enumerate() {
        edge.column_mut(column).unwrap().as_mut_slice().copy_from_slice(&values);
    }
    let seed = relation2(&[(1, 2)]);
    let mut store = RelationStore::new();
    store
        .insert_static(edge_id, edge.view(), InputProvenance::Cpu)
        .unwrap();
    store
        .insert_recursive(path_id, seed.view(), seed.view(), InputProvenance::Cpu)
        .unwrap();
    let mut rule = recursive_rule(path_id, path_id, edge_id);
    rule.join.right_key = 2;
    let plan = RecursiveSccPlan { relations: vec![path_id], rules: vec![rule] };
    let mut executor = RecursiveExecutor::compile(plan, &store).unwrap();
    let summary = executor
        .run(&mut store, IterationPolicies::default(), 16)
        .unwrap();
    assert_eq!(summary.total_new_rows, 3);
    let full = store.full(path_id).unwrap().view();
    assert_eq!(full.column_slice(0).unwrap(), &[1, 1, 1, 1]);
    assert_eq!(full.column_slice(1).unwrap(), &[2, 3, 4, 5]);
}

#[test]
fn the_last_round_is_reported() {
    let edge = relation2(&[(1, 2), (2, 3), (3, 4)]);
    let index = U32RangeIndex::build(edge.column(0).unwrap()).unwrap();
    let mut driver = FixpointDriver::new().unwrap();
    let summary = driver
        .run(
            edge.view(),
            edge.view(),
            edge.view(),
            &index,
            InputProvenance::Cpu,
            IterationPolicies::default(),
            16,
        )
        .unwrap();
    assert_eq!(summary.state.iterations(), 3);
    let last = summary.last_iteration;
    assert_eq!((last.candidate_rows, last.distinct_candidate_rows), (0, 0));
    assert_eq!((last.newt_rows, last.full_rows), (0, 6));
    assert_eq!(last.full_provenance, InputProvenance::Cpu);
    assert_eq!(last.placements.join, Placement::CpuSerial);
    assert_eq!(last.placements.union, Placement::CpuSerial);
}
