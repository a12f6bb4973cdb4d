//! Where operators run, and what predicates accept.
use sparkalog::placement::{
    AntiJoinPlacementContext, AntiJoinPlacementPolicy, DistinctPlacementContext,
    DistinctPlacementPolicy, FilterPlacementContext, FilterPlacementPolicy, InputProvenance,
    JoinPlacementContext, JoinPlacementPolicy, Placement, UnionPlacementContext,
    UnionPlacementPolicy,
};
use sparkalog::recursion::{FixpointError, IterationPolicies, IterationResult};
use sparkalog::relational::U32Predicate;
use sparkalog::steps::{
    FixpointAction, FixpointSteps, RoundAction, RoundOperator, RoundStart, RoundSteps,
};

#[test]
fn measured_policy_accounts_for_input_provenance() {
    let policy = FilterPlacementPolicy::measured_gb10();
    assert_eq!(
        policy.place(FilterPlacementContext {
            rows: 32_768,
            input_provenance: InputProvenance::Cpu,
            gpu_available: true,
        }),
        Placement::CpuSerial
    );
    assert_eq!(
        policy.place(FilterPlacementContext {
            rows: 32_768,
            input_provenance: InputProvenance::Gpu,
            gpu_available: true,
        }),
        Placement::Gpu
    );
    assert_eq!(
        policy.place(FilterPlacementContext {
            rows: 131_072,
            input_provenance: InputProvenance::Cpu,
            gpu_available: true,
        }),
        Placement::Gpu
    );
}

#[test]
fn parallel_rust_is_only_the_measured_gpu_unavailable_fallback() {
    let policy = FilterPlacementPolicy::measured_gb10();
    assert_eq!(
        policy.place(FilterPlacementContext {
            rows: 8_388_607,
            input_provenance: InputProvenance::Cpu,
            gpu_available: false,
        }),
        Placement::CpuSerial
    );
    assert_eq!(
        policy.place(FilterPlacementContext {
            rows: 8_388_608,
            input_provenance: InputProvenance::Cpu,
            gpu_available: false,
        }),
        Placement::CpuParallel
    );
    assert_eq!(
        policy.place(FilterPlacementContext {
            rows: 8_388_608,
            input_provenance: InputProvenance::Cpu,
            gpu_available: true,
        }),
        Placement::Gpu
    );
}

#[test]
fn measured_join_policy_uses_the_dblp_crossover() {
    let policy = JoinPlacementPolicy::measured_gb10_dblp();
    assert_eq!(
        policy.place(JoinPlacementContext {
            delta_rows: 512,
            gpu_available: true,
        }),
        Placement::CpuSerial
    );
    assert_eq!(
        policy.place(JoinPlacementContext {
            delta_rows: 2_048,
            gpu_available: true,
        }),
        Placement::Gpu
    );
    assert_eq!(
        policy.place(JoinPlacementContext {
            delta_rows: 2_048,
            gpu_available: false,
        }),
        Placement::CpuParallel
    );
}

#[test]
fn measured_distinct_policy_uses_candidate_cardinality() {
    let policy = DistinctPlacementPolicy::measured_gb10_dblp();
    for input_provenance in [InputProvenance::Cpu, InputProvenance::Gpu] {
        assert_eq!(
            policy.place(DistinctPlacementContext {
                rows: 7_424,
                input_provenance,
                gpu_available: true,
            }),
            Placement::CpuSerial
        );
        assert_eq!(
            policy.place(DistinctPlacementContext {
                rows: 32_768,
                input_provenance,
                gpu_available: true,
            }),
            Placement::Gpu
        );
        assert_eq!(
            policy.place(DistinctPlacementContext {
                rows: 131_072,
                input_provenance,
                gpu_available: false,
            }),
            Placement::CpuParallel
        );
    }
}

#[test]
fn measured_anti_join_policy_accounts_for_provenance() {
    let policy = AntiJoinPlacementPolicy::measured_gb10_dblp();
    assert_eq!(
        policy.place(AntiJoinPlacementContext {
            left_rows: 16_384,
            input_provenance: InputProvenance::Cpu,
            gpu_available: true,
        }),
        Placement::CpuSerial
    );
    assert_eq!(
        policy.place(AntiJoinPlacementContext {
            left_rows: 16_384,
            input_provenance: InputProvenance::Gpu,
            gpu_available: true,
        }),
        Placement::Gpu
    );
    assert_eq!(
        policy.place(AntiJoinPlacementContext {
            left_rows: 32_768,
            input_provenance: InputProvenance::Cpu,
            gpu_available: false,
        }),
        Placement::CpuParallel
    );
    assert_eq!(
        policy.place(AntiJoinPlacementContext {
            left_rows: 131_072,
            input_provenance: InputProvenance::Gpu,
            gpu_available: false,
        }),
        Placement::CpuSerial
    );
    assert_eq!(
        policy.place(AntiJoinPlacementContext {
            left_rows: 262_144,
            input_provenance: InputProvenance::Gpu,
            gpu_available: false,
        }),
        Placement::CpuParallel
    );
}

#[test]
fn measured_union_policy_uses_total_merge_cardinality() {
    let policy = UnionPlacementPolicy::measured_gb10_dblp();
    assert_eq!(
        policy.place(UnionPlacementContext {
            left_rows: 1_000_000,
            right_rows: 40_000,
            input_provenance: InputProvenance::Cpu,
            gpu_available: true,
        }),
        Placement::CpuSerial
    );
    assert_eq!(
        policy.place(UnionPlacementContext {
            left_rows: 1_000_000,
            right_rows: 50_000,
            input_provenance: InputProvenance::Gpu,
            gpu_available: true,
        }),
        Placement::Gpu
    );
    assert_eq!(
        policy.place(UnionPlacementContext {
            left_rows: 2_000_000,
            right_rows: 2_194_304,
            input_provenance: InputProvenance::Cpu,
            gpu_available: false,
        }),
        Placement::CpuParallel
    );
}

#[test]
fn all_u32_predicates_have_expected_boundary_semantics() {
    assert!(U32Predicate::Eq(4).matches(4));
    assert!(U32Predicate::Ne(4).matches(3));
    assert!(U32Predicate::Lt(4).matches(3));
    assert!(!U32Predicate::Lt(4).matches(4));
    assert!(U32Predicate::Le(4).matches(4));
    assert!(U32Predicate::Gt(4).matches(5));
    assert!(!U32Predicate::Gt(4).matches(4));
    assert!(U32Predicate::Ge(4).matches(4));
}

#[test]
fn steps_run_a_fixpoint_operator_by_operator() {
    let policies = IterationPolicies::default();
    let mut steps = FixpointSteps::new(policies, true, 2, 10, 4, InputProvenance::Cpu);
    let start = match steps.action() {
        FixpointAction::Run(start) => start,
        other => panic!("unexpected {other:?}"),
    };
    assert_eq!((start.delta_rows, start.full_rows), (4, 10));
    let large = RoundStart { delta_rows: 1_000_000, full_rows: 2_000_000, ..start };
    let mut round = RoundSteps::new(large);
    let mut placements = Vec::new();
    for rows in [2_000_000, 1_500_000, 1_000_000, 3_000_000] {
        match round.action() {
            RoundAction::Run { operator, placement } => placements.push((operator, placement)),
            other => panic!("unexpected {other:?}"),
        }
        round.advance(rows);
    }
    assert_eq!(
        placements,
        [
            (RoundOperator::Join, Placement::Gpu),
            (RoundOperator::Distinct, Placement::Gpu),
            (RoundOperator::AntiJoin, Placement::Gpu),
            (RoundOperator::Union, Placement::Gpu),
        ]
    );
    let result = match round.action() {
        RoundAction::Finished(result) => result,
        other => panic!("unexpected {other:?}"),
    };
    assert_eq!(result.newt_rows, 1_000_000);
    assert_eq!(result.full_provenance, InputProvenance::Gpu);

    let mut small = RoundSteps::new(start);
    assert_eq!(
        small.action(),
        RoundAction::Run { operator: RoundOperator::Join, placement: Placement::CpuSerial }
    );
    for rows in [4, 3, 2, 12] {
        small.advance(rows);
    }
    let finished = match small.action() {
        RoundAction::Finished(result) => result,
        other => panic!("unexpected {other:?}"),
    };
    assert!(steps.advance(finished));
    assert!(matches!(steps.action(), FixpointAction::Run(start) if start.full_rows == 12));
    let nothing = IterationResult { newt_rows: 0, ..finished };
    assert!(steps.advance(nothing));
    match steps.action() {
        FixpointAction::Finished(summary) => {
            assert_eq!(summary.state.iterations(), 2);
            assert_eq!(summary.last_iteration, nothing);
        }
        other => panic!("unexpected {other:?}"),
    }
    let used_up = FixpointSteps::new(policies, false, 0, 10, 4, InputProvenance::Cpu);
    assert_eq!(
        used_up.action(),
        FixpointAction::Failed(FixpointError::IterationLimit { limit: 0, remaining_delta_rows: 4 })
    );
}
