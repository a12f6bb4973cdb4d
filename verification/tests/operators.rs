//! Operators over columns and binary relations.
use sparkalog::bitmap::{join_cpu_bitmap_parallel, join_cpu_bitmap_serial, U32BitmapIndex};
use sparkalog::execution::{
    anti_join_auto, anti_join_cpu_parallel, anti_join_cpu_serial, distinct_auto,
    distinct_cpu_parallel, distinct_cpu_serial, filter_auto, filter_cpu_parallel,
    filter_cpu_serial, union_auto, union_cpu_parallel, union_cpu_serial,
};
use sparkalog::index::U32RangeIndex;
use sparkalog::join::{join_auto, join_cpu_parallel, join_cpu_serial};
use sparkalog::placement::{
    AntiJoinPlacementPolicy, DistinctPlacementPolicy, FilterPlacementPolicy, InputProvenance,
    JoinPlacementPolicy, Placement, UnionPlacementPolicy,
};
use sparkalog::relational::{
    BinaryDistinct, BinaryEqualityJoin, JoinInput, JoinProjection, SortedBinaryAntiJoin,
    SortedBinaryUnion, U32Predicate,
};
use sparkalog::storage::{Column, Relation};
use sparkalog::workspace::{
    AntiJoinWorkspace, DistinctWorkspace, JoinWorkspace, OperatorWorkspace, UnionWorkspace,
};

fn input(values: &[u32]) -> Column {
    let mut column = Column::new_filled(values.len(), 0).unwrap();
    column.as_mut_slice().copy_from_slice(values);
    column
}

fn expected(values: &[u32], predicate: U32Predicate) -> Vec<u32> {
    values
        .iter()
        .enumerate()
        .filter_map(|(row, &value)| predicate.matches(value).then_some(row as u32))
        .collect()
}

fn relation2(rows: &[(u32, u32)]) -> Relation {
    let mut relation = Relation::new(2, rows.len()).unwrap();
    for (row, &(left, right)) in rows.iter().enumerate() {
        relation.column_mut(0).unwrap().as_mut_slice()[row] = left;
        relation.column_mut(1).unwrap().as_mut_slice()[row] = right;
    }
    relation
}

fn path_join_plan() -> BinaryEqualityJoin {
    BinaryEqualityJoin {
        left_key: 1,
        right_key: 0,
        output: [
            JoinProjection {
                input: JoinInput::Left,
                column: 0,
            },
            JoinProjection {
                input: JoinInput::Right,
                column: 1,
            },
        ],
    }
}

fn binary_distinct_plan() -> BinaryDistinct {
    BinaryDistinct { columns: [0, 1] }
}

fn sorted_binary_anti_join_plan() -> SortedBinaryAntiJoin {
    SortedBinaryAntiJoin {
        left: [0, 1],
        right: [0, 1],
    }
}

fn sorted_binary_union_plan() -> SortedBinaryUnion {
    SortedBinaryUnion {
        left: [0, 1],
        right: [0, 1],
    }
}

#[test]
fn serial_and_parallel_filters_match() {
    let values = (0..10_000).map(|value| value % 97).collect::<Vec<_>>();
    let column = input(&values);
    let predicate = U32Predicate::Ge(51);
    let expected = expected(&values, predicate);
    let mut serial = OperatorWorkspace::new().unwrap();
    let mut parallel = OperatorWorkspace::new().unwrap();

    filter_cpu_serial(&column, predicate, &mut serial).unwrap();
    filter_cpu_parallel(&column, predicate, &mut parallel).unwrap();

    assert_eq!(serial.selection().as_slice(), expected);
    assert_eq!(parallel.selection().as_slice(), expected);
}

#[test]
fn serial_and_parallel_distinct_sort_and_deduplicate_pairs() {
    let input = relation2(&[(2, 20), (1, 10), (2, 20), (1, 11), (1, 10)]);
    let mut serial = DistinctWorkspace::new().unwrap();
    let mut parallel = DistinctWorkspace::new().unwrap();

    distinct_cpu_serial(input.view(), binary_distinct_plan(), &mut serial).unwrap();
    distinct_cpu_parallel(input.view(), binary_distinct_plan(), &mut parallel).unwrap();

    assert_eq!(serial.output().view().column_slice(0).unwrap(), &[1, 1, 2]);
    assert_eq!(
        serial.output().view().column_slice(1).unwrap(),
        &[10, 11, 20]
    );
    for output in [parallel.output()] {
        assert_eq!(
            output.view().column_slice(0),
            serial.output().view().column_slice(0)
        );
        assert_eq!(
            output.view().column_slice(1),
            serial.output().view().column_slice(1)
        );
    }
}

#[test]
fn serial_and_parallel_anti_join_preserve_sorted_left_difference() {
    let left = relation2(&[(1, 10), (1, 11), (2, 20), (3, 30), (5, 50)]);
    let right = relation2(&[(1, 11), (3, 30), (4, 40)]);
    let mut serial = AntiJoinWorkspace::new().unwrap();
    let mut parallel = AntiJoinWorkspace::new().unwrap();

    anti_join_cpu_serial(
        left.view(),
        right.view(),
        sorted_binary_anti_join_plan(),
        &mut serial,
    )
    .unwrap();
    anti_join_cpu_parallel(
        left.view(),
        right.view(),
        sorted_binary_anti_join_plan(),
        &mut parallel,
    )
    .unwrap();

    assert_eq!(serial.output().view().column_slice(0).unwrap(), &[1, 2, 5]);
    assert_eq!(
        serial.output().view().column_slice(1).unwrap(),
        &[10, 20, 50]
    );
    for output in [parallel.output()] {
        assert_eq!(
            output.view().column_slice(0),
            serial.output().view().column_slice(0)
        );
        assert_eq!(
            output.view().column_slice(1),
            serial.output().view().column_slice(1)
        );
    }
}

#[test]
fn all_anti_join_backends_handle_empty_relations() {
    let empty = relation2(&[]);
    let left = relation2(&[(1, 10), (2, 20)]);
    let mut workspace = AntiJoinWorkspace::new().unwrap();

    anti_join_cpu_serial(
        left.view(),
        empty.view(),
        sorted_binary_anti_join_plan(),
        &mut workspace,
    )
    .unwrap();
    assert_eq!(workspace.output().len(), 2);
    anti_join_cpu_parallel(
        empty.view(),
        left.view(),
        sorted_binary_anti_join_plan(),
        &mut workspace,
    )
    .unwrap();
    assert!(workspace.output().is_empty());
}

#[test]
fn automatic_anti_join_executes_the_selected_backend() {
    let left = relation2(&[(1, 10), (1, 11), (2, 20), (3, 30), (5, 50)]);
    let right = relation2(&[(1, 11), (3, 30), (4, 40)]);
    let policy = AntiJoinPlacementPolicy {
        cpu_produced_gpu_min_rows: 1,
        gpu_produced_gpu_min_rows: 1,
        cpu_produced_parallel_min_rows: 1,
        gpu_produced_parallel_min_rows: 1,
    };
    let mut workspace = AntiJoinWorkspace::new().unwrap();

    let placement = anti_join_auto(
        left.view(),
        right.view(),
        sorted_binary_anti_join_plan(),
        InputProvenance::Cpu,
        &mut workspace,
        false,
        policy,
    )
    .unwrap();
    assert_eq!(placement, Placement::CpuParallel);
    assert_eq!(
        workspace.output().view().column_slice(0).unwrap(),
        &[1, 2, 5]
    );
}

#[test]
fn all_union_backends_merge_and_deduplicate_sorted_pairs() {
    let left = relation2(&[(1, 10), (2, 20), (2, 20), (4, 40)]);
    let right = relation2(&[(1, 11), (2, 20), (3, 30), (5, 50)]);
    let mut serial = UnionWorkspace::new().unwrap();
    let mut parallel = UnionWorkspace::new().unwrap();

    union_cpu_serial(
        left.view(),
        right.view(),
        sorted_binary_union_plan(),
        &mut serial,
    )
    .unwrap();
    union_cpu_parallel(
        left.view(),
        right.view(),
        sorted_binary_union_plan(),
        &mut parallel,
    )
    .unwrap();

    assert_eq!(
        serial.output().view().column_slice(0).unwrap(),
        &[1, 1, 2, 3, 4, 5]
    );
    assert_eq!(
        serial.output().view().column_slice(1).unwrap(),
        &[10, 11, 20, 30, 40, 50]
    );
    for output in [parallel.output()] {
        assert_eq!(
            output.view().column_slice(0),
            serial.output().view().column_slice(0)
        );
        assert_eq!(
            output.view().column_slice(1),
            serial.output().view().column_slice(1)
        );
    }
}

#[test]
fn all_union_backends_handle_empty_relations() {
    let empty = relation2(&[]);
    let right = relation2(&[(1, 10), (2, 20)]);
    let mut workspace = UnionWorkspace::new().unwrap();

    union_cpu_serial(
        empty.view(),
        right.view(),
        sorted_binary_union_plan(),
        &mut workspace,
    )
    .unwrap();
    assert_eq!(workspace.output().len(), 2);
    union_cpu_parallel(
        right.view(),
        empty.view(),
        sorted_binary_union_plan(),
        &mut workspace,
    )
    .unwrap();
    assert_eq!(workspace.output().len(), 2);
}

#[test]
fn automatic_union_executes_the_selected_backend() {
    let left = relation2(&[(1, 10), (2, 20), (4, 40)]);
    let right = relation2(&[(1, 11), (2, 20), (3, 30)]);
    let policy = UnionPlacementPolicy {
        cpu_produced_gpu_min_rows: 1,
        gpu_produced_gpu_min_rows: 1,
        gpu_unavailable_parallel_min_rows: 1,
    };
    let mut workspace = UnionWorkspace::new().unwrap();

    let placement = union_auto(
        left.view(),
        right.view(),
        sorted_binary_union_plan(),
        InputProvenance::Cpu,
        &mut workspace,
        false,
        policy,
    )
    .unwrap();
    assert_eq!(placement, Placement::CpuParallel);
    assert_eq!(workspace.output().len(), 5);
}

#[test]
fn automatic_distinct_executes_the_selected_backend() {
    let input = relation2(&[(2, 20), (1, 10), (2, 20), (1, 11), (1, 10)]);
    let policy = DistinctPlacementPolicy {
        cpu_produced_gpu_min_rows: 1,
        gpu_produced_gpu_min_rows: 1,
        gpu_unavailable_parallel_min_rows: 1,
    };
    let mut workspace = DistinctWorkspace::new().unwrap();

    let placement = distinct_auto(
        input.view(),
        binary_distinct_plan(),
        InputProvenance::Cpu,
        &mut workspace,
        false,
        policy,
    )
    .unwrap();
    assert_eq!(placement, Placement::CpuParallel);
    assert_eq!(
        workspace.output().view().column_slice(0).unwrap(),
        &[1, 1, 2]
    );
}

#[test]
fn all_distinct_backends_handle_empty_relations() {
    let input = relation2(&[]);
    let mut workspace = DistinctWorkspace::new().unwrap();

    distinct_cpu_serial(input.view(), binary_distinct_plan(), &mut workspace).unwrap();
    assert!(workspace.output().is_empty());
    distinct_cpu_parallel(input.view(), binary_distinct_plan(), &mut workspace).unwrap();
    assert!(workspace.output().is_empty());
}

#[test]
fn all_filter_backends_handle_empty_columns() {
    let column = input(&[]);
    let mut workspace = OperatorWorkspace::new().unwrap();

    filter_cpu_serial(&column, U32Predicate::Eq(0), &mut workspace).unwrap();
    assert!(workspace.selection().is_empty());
    filter_cpu_parallel(&column, U32Predicate::Eq(0), &mut workspace).unwrap();
    assert!(workspace.selection().is_empty());
}

#[test]
fn automatic_filter_executes_the_selected_backend() {
    let values = (0..1_024).map(|value| value % 100).collect::<Vec<_>>();
    let column = input(&values);
    let predicate = U32Predicate::Lt(10);
    let expected = expected(&values, predicate);
    let policy = FilterPlacementPolicy {
        cpu_produced_gpu_min_rows: 512,
        gpu_produced_gpu_min_rows: 512,
        gpu_unavailable_parallel_min_rows: 512,
    };
    let mut workspace = OperatorWorkspace::new().unwrap();

    let placement = filter_auto(
        &column,
        predicate,
        InputProvenance::Cpu,
        &mut workspace,
        false,
        policy,
    )
    .unwrap();
    assert_eq!(placement, Placement::CpuParallel);
    assert_eq!(workspace.selection().as_slice(), expected);
}

#[test]
fn serial_and_parallel_indexed_joins_match() {
    let left = relation2(&[(10, 1), (20, 2), (30, 1), (40, 9)]);
    let right = relation2(&[(1, 100), (1, 101), (2, 200), (3, 300)]);
    let index = U32RangeIndex::build(right.column(0).unwrap()).unwrap();
    let bitmap_index = U32BitmapIndex::build(right.column(0).unwrap()).unwrap();
    let mut serial = JoinWorkspace::new(2).unwrap();
    let mut parallel = JoinWorkspace::new(2).unwrap();
    let mut bitmap_serial = JoinWorkspace::new(2).unwrap();
    let mut bitmap_parallel = JoinWorkspace::new(2).unwrap();

    join_cpu_serial(
        left.view(),
        right.view(),
        &index,
        path_join_plan(),
        &mut serial,
    )
    .unwrap();
    join_cpu_bitmap_serial(
        left.view(),
        right.view(),
        &bitmap_index,
        path_join_plan(),
        &mut bitmap_serial,
    )
    .unwrap();
    join_cpu_bitmap_parallel(
        left.view(),
        right.view(),
        &bitmap_index,
        path_join_plan(),
        &mut bitmap_parallel,
    )
    .unwrap();
    join_cpu_parallel(
        left.view(),
        right.view(),
        &index,
        path_join_plan(),
        &mut parallel,
    )
    .unwrap();

    assert_eq!(
        serial.output().view().column_slice(0).unwrap(),
        &[10, 10, 20, 30, 30]
    );
    assert_eq!(
        serial.output().view().column_slice(1).unwrap(),
        &[100, 101, 200, 100, 101]
    );
    assert_eq!(
        parallel.output().view().column_slice(0),
        serial.output().view().column_slice(0)
    );
    assert_eq!(
        parallel.output().view().column_slice(1),
        serial.output().view().column_slice(1)
    );
    for output in [bitmap_serial.output(), bitmap_parallel.output()] {
        assert_eq!(
            output.view().column_slice(0),
            serial.output().view().column_slice(0)
        );
        assert_eq!(
            output.view().column_slice(1),
            serial.output().view().column_slice(1)
        );
    }
}

#[test]
fn automatic_join_executes_the_selected_backend() {
    let left = relation2(&[(10, 1), (20, 2), (30, 1), (40, 9)]);
    let right = relation2(&[(1, 100), (1, 101), (2, 200), (3, 300)]);
    let index = U32RangeIndex::build(right.column(0).unwrap()).unwrap();
    let policy = JoinPlacementPolicy {
        gpu_min_delta_rows: 1,
        gpu_unavailable_parallel_min_rows: 1,
    };
    let mut workspace = JoinWorkspace::new(2).unwrap();

    let placement = join_auto(
        left.view(),
        right.view(),
        &index,
        path_join_plan(),
        &mut workspace,
        false,
        policy,
    )
    .unwrap();
    assert_eq!(placement, Placement::CpuParallel);
    assert_eq!(
        workspace.output().view().column_slice(1).unwrap(),
        &[100, 101, 200, 100, 101]
    );
}
