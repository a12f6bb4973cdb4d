//! Columns, relations, workspaces, indexes, and loading.
use sparkalog::index::U32RangeIndex;
use sparkalog::loader::{count_rows, populate_columns, LoadError};
use sparkalog::storage::{Column, Error, ManagedBuffer, Relation, RelationBuffer};
use sparkalog::workspace::{JoinWorkspace, OperatorWorkspace, Selection};

#[test]
fn empty_buffer_needs_no_cuda_allocation() {
    let buffer = ManagedBuffer::<u32>::new_filled(0, 7).unwrap();
    assert!(buffer.is_empty());
    assert_eq!(buffer.as_slice(), &[]);
}

#[test]
fn zero_sized_types_are_rejected() {
    assert!(matches!(
        ManagedBuffer::new_filled(1, ()),
        Err(Error::ZeroSizedType)
    ));
}

#[test]
fn relation_view_borrows_canonical_columns() {
    let mut relation = Relation::new(2, 3).unwrap();
    relation.column_mut(1).unwrap().as_mut_slice()[2] = 42;

    let view = relation.view();
    assert_eq!(view.arity(), 2);
    assert_eq!(view.len(), 3);
    assert_eq!(view.column(1).unwrap().as_slice(), &[0, 0, 42]);
}

#[test]
fn relation_rejects_columns_of_different_lengths() {
    let columns = vec![
        Column::new_filled(2, 0).unwrap(),
        Column::new_filled(3, 0).unwrap(),
    ];
    assert!(matches!(
        Relation::from_columns(columns),
        Err(Error::MismatchedColumnLength {
            expected: 2,
            actual: 3
        })
    ));
}

#[test]
fn selection_separates_length_from_capacity() {
    let mut selection = Selection::with_capacity(8).unwrap();
    selection.storage_mut().as_mut_slice()[..3].copy_from_slice(&[1, 4, 7]);
    selection.set_len(3).unwrap();

    assert_eq!(selection.capacity(), 8);
    assert_eq!(selection.as_slice(), &[1, 4, 7]);
    assert!(selection.set_len(9).is_err());
}

#[test]
fn workspace_reuses_sufficient_allocations() {
    let mut workspace = OperatorWorkspace::new().unwrap();
    workspace.reserve_rows(10).unwrap();
    let selection = workspace.selection().storage().as_slice().as_ptr();
    let flags = workspace.flags().as_slice().as_ptr();
    let offsets = workspace.offsets().as_slice().as_ptr();

    workspace.reserve_rows(8).unwrap();

    assert_eq!(workspace.selection().storage().as_slice().as_ptr(), selection);
    assert_eq!(workspace.flags().as_slice().as_ptr(), flags);
    assert_eq!(workspace.offsets().as_slice().as_ptr(), offsets);
}

#[test]
fn sparse_range_index_returns_canonical_rows() {
    let mut column = Column::new_filled(6, 0).unwrap();
    column
        .as_mut_slice()
        .copy_from_slice(&[90, 7, 90, 42, 7, 90]);
    let index = U32RangeIndex::build(&column).unwrap();

    assert_eq!(index.unique_keys(), 3);
    assert_eq!(index.lookup(7), &[1, 4]);
    assert_eq!(index.lookup(42), &[3]);
    let mut rows = index.lookup(90).to_vec();
    rows.sort_unstable();
    assert_eq!(rows, [0, 2, 5]);
    assert!(index.lookup(8).is_empty());
}

#[test]
fn relation_buffer_separates_length_and_capacity() {
    let mut output = RelationBuffer::with_capacity(2, 4).unwrap();
    output.columns_mut()[0].as_mut_slice()[..2].copy_from_slice(&[1, 2]);
    output.columns_mut()[1].as_mut_slice()[..2].copy_from_slice(&[3, 4]);
    output.set_len(2).unwrap();

    assert_eq!(output.view().column_slice(0).unwrap(), &[1, 2]);
    assert_eq!(output.view().column_slice(1).unwrap(), &[3, 4]);
    assert_eq!(output.capacity(), 4);
}

#[test]
fn counts_and_populates_binary_facts() {
    let input = "# source destination\n1\t2\n\n3 4\n% comment\n5\t6\n";
    let rows = count_rows(input, "memory").unwrap();
    let mut left = vec![0; rows];
    let mut right = vec![0; rows];
    populate_columns(input, &mut left, &mut right).unwrap();

    assert_eq!(left, [1, 3, 5]);
    assert_eq!(right, [2, 4, 6]);
}

#[test]
fn recognizes_unmaterialized_lfs_data() {
    let input = "version https://git-lfs.github.com/spec/v1\noid sha256:abc\nsize 12\n";
    assert!(matches!(
        count_rows(input, "edge.facts"),
        Err(LoadError::GitLfsPointer(_))
    ));
}

#[test]
fn rejects_non_binary_rows() {
    let mut left = [0];
    let mut right = [0];
    assert!(matches!(
        populate_columns("1 2 3\n", &mut left, &mut right),
        Err(LoadError::InvalidFieldCount { line: 1 })
    ));
}

#[test]
fn making_room_for_joined_rows_forgets_them() {
    let mut workspace = JoinWorkspace::new(2).unwrap();
    workspace.reserve_output_rows(3).unwrap();
    assert_eq!(workspace.output().len(), 0);
    let room = workspace.output().capacity();
    assert!(room >= 3);
    workspace.reserve_output_rows(room).unwrap();
    assert_eq!(workspace.output().capacity(), room);
    workspace.reserve_output_rows(room + 1).unwrap();
    assert_eq!(workspace.output().len(), 0);
    assert!(workspace.output().capacity() > room);
}
