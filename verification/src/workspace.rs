//! Buffers that operators use again and again.
use vstd::layout;
use vstd::prelude::*;

use crate::storage;
use crate::storage::{reserve_items, Error, ManagedBuffer, RelationBuffer};

verus! {

/// What a selection holds: room for row numbers, and how many of them count.
#[verifier::ext_equal]
pub struct SelectionView {
    pub storage: Seq<u32>,
    pub rows: nat,
}

impl SelectionView {
    /// The selected rows.
    pub open spec fn selected(self) -> Seq<u32> {
        self.storage.take(self.rows as int)
    }

    pub open spec fn wf(self) -> bool {
        self.rows <= self.storage.len()
    }

    /// A selection with room for `required` rows: the same one where it has, else a new, empty
    /// one.
    pub open spec fn reserved(self, required: nat) -> SelectionView {
        if required <= self.storage.len() {
            self
        } else {
            SelectionView { storage: storage::with_room(self.storage, required, 0u32), rows: 0 }
        }
    }
}

/// Row numbers in a reusable buffer.
pub struct Selection {
    rows: ManagedBuffer<u32>,
    len: usize,
}

impl View for Selection {
    type V = SelectionView;

    closed spec fn view(&self) -> SelectionView {
        SelectionView { storage: self.rows@, rows: self.len as nat }
    }
}

impl Selection {
    pub fn with_capacity(capacity: usize) -> (result: Result<Self, Error>)
        ensures
            match result {
                Ok(selection) => storage::size_fits::<u32>(capacity as nat) && selection@ == (
                SelectionView { storage: Seq::new(capacity as nat, |i: int| 0u32), rows: 0 }),
                Err(error) => !storage::size_fits::<u32>(capacity as nat) && error
                    == Error::LengthOverflow,
            },
    {
        broadcast use layout::layout_of_primitives;

        match ManagedBuffer::new_filled(capacity, 0) {
            Ok(rows) => Ok(Selection { rows, len: 0 }),
            Err(error) => Err(error),
        }
    }

    pub fn len(&self) -> (length: usize)
        ensures
            length == self@.rows,
    {
        self.len
    }

    pub fn is_empty(&self) -> (empty: bool)
        ensures
            empty == (self@.rows == 0),
    {
        self.len == 0
    }

    pub fn capacity(&self) -> (capacity: usize)
        ensures
            capacity == self@.storage.len(),
    {
        self.rows.len()
    }

    /// The selected rows.
    pub fn as_slice(&self) -> (rows: &[u32])
        requires
            self@.wf(),
        ensures
            rows@ == self@.selected(),
    {
        let rows = vstd::slice::slice_subrange(self.rows.as_slice(), 0, self.len);
        assert(rows@ =~= self@.selected());
        rows
    }

    /// Selects nothing.
    pub fn clear(&mut self)
        ensures
            final(self)@ == (SelectionView { rows: 0, ..old(self)@ }),
    {
        self.len = 0;
    }

    /// Sets how many rows are selected, at most as many as there is room for.
    pub fn set_len(&mut self, len: usize) -> (result: Result<(), Error>)
        ensures
            match result {
                Ok(_) => len <= old(self)@.storage.len() && final(self)@ == (SelectionView {
                    rows: len as nat,
                    ..old(self)@
                }),
                Err(error) => {
                    &&& len > old(self)@.storage.len()
                    &&& error == (Error::LogicalLengthExceedsCapacity {
                        len,
                        capacity: old(self)@.storage.len() as usize,
                    })
                    &&& final(self)@ == old(self)@
                },
            },
    {
        let capacity: usize = self.rows.len();
        if len > capacity {
            return Err(Error::LogicalLengthExceedsCapacity { len, capacity });
        }
        self.len = len;
        Ok(())
    }

    /// Makes room for rows. Where the buffer has to be replaced, nothing stays selected.
    pub fn reserve(&mut self, required: usize) -> (result: Result<(), Error>)
        ensures
            match result {
                Ok(_) => {
                    &&& storage::can_hold::<u32>(old(self)@.storage.len(), required as nat)
                    &&& final(self)@ == old(self)@.reserved(required as nat)
                    &&& final(self)@.storage.len() >= required
                },
                Err(error) => {
                    &&& !storage::can_hold::<u32>(old(self)@.storage.len(), required as nat)
                    &&& error == Error::LengthOverflow
                    &&& final(self)@ == old(self)@
                },
            },
    {
        broadcast use layout::layout_of_primitives;

        if required <= self.rows.len() {
            return Ok(());
        }
        match reserve_items(&mut self.rows, required, 0) {
            Ok(_) => {
                self.len = 0;
                Ok(())
            },
            Err(error) => Err(error),
        }
    }

    /// Selects given rows.
    pub(crate) fn fill(&mut self, rows: &Vec<u32>)
        requires
            rows@.len() <= old(self)@.storage.len(),
        ensures
            final(self)@.wf(),
            final(self)@.selected() == rows@,
            final(self)@.storage.len() == old(self)@.storage.len(),
    {
        let mut i: usize = 0;
        while i < rows.len()
            invariant
                i <= rows@.len() <= self.rows@.len(),
                self.rows@.len() == old(self)@.storage.len(),
                self.rows@.take(i as int) == rows@.take(i as int),
            decreases rows@.len() - i,
        {
            self.rows.put(i, rows[i]);
            i += 1;
            assert(self.rows@.take(i as int) =~= rows@.take(i as int));
        }
        assert(rows@.take(i as int) =~= rows@);
        self.len = rows.len();
    }

    pub fn storage(&self) -> (storage: &ManagedBuffer<u32>)
        ensures
            storage@ == self@.storage,
    {
        &self.rows
    }

    pub fn storage_mut(&mut self) -> (storage: &mut ManagedBuffer<u32>)
        ensures
            storage@ == old(self)@.storage,
            final(self)@ == (SelectionView { storage: final(storage)@, ..old(self)@ }),
    {
        &mut self.rows
    }
}

/// What an operator workspace holds.
#[verifier::ext_equal]
pub struct OperatorParts {
    pub selection: SelectionView,
    pub flags: Seq<u32>,
    pub offsets: Seq<u32>,
    pub count: Seq<u32>,
    pub temporary: Seq<u8>,
}

impl OperatorParts {
    /// Whether there is room for `required` rows, or can be.
    pub open spec fn can_reserve(self, required: nat) -> bool {
        &&& storage::can_hold::<u32>(self.selection.storage.len(), required)
        &&& storage::can_hold::<u32>(self.flags.len(), required)
        &&& storage::can_hold::<u32>(self.offsets.len(), required)
    }
}

/// Buffers for selecting rows.
pub struct OperatorWorkspace {
    selection: Selection,
    flags: ManagedBuffer<u32>,
    offsets: ManagedBuffer<u32>,
    count: ManagedBuffer<u32>,
    temporary: ManagedBuffer<u8>,
}

impl View for OperatorWorkspace {
    type V = OperatorParts;

    closed spec fn view(&self) -> OperatorParts {
        OperatorParts {
            selection: self.selection@,
            flags: self.flags@,
            offsets: self.offsets@,
            count: self.count@,
            temporary: self.temporary@,
        }
    }
}

impl OperatorWorkspace {
    pub fn new() -> (result: Result<Self, Error>)
        ensures
            result is Ok,
            result->Ok_0@ == (OperatorParts {
                selection: SelectionView { storage: Seq::empty(), rows: 0 },
                flags: Seq::empty(),
                offsets: Seq::empty(),
                count: seq![0u32],
                temporary: Seq::empty(),
            }),
    {
        broadcast use layout::layout_of_primitives;

        let selection = match Selection::with_capacity(0) {
            Ok(selection) => selection,
            Err(error) => {
                return Err(error);
            },
        };
        let flags = match ManagedBuffer::new_filled(0, 0u32) {
            Ok(flags) => flags,
            Err(error) => {
                return Err(error);
            },
        };
        let offsets = match ManagedBuffer::new_filled(0, 0u32) {
            Ok(offsets) => offsets,
            Err(error) => {
                return Err(error);
            },
        };
        let count = match ManagedBuffer::new_filled(1, 0u32) {
            Ok(count) => count,
            Err(error) => {
                return Err(error);
            },
        };
        let temporary = match ManagedBuffer::new_filled(0, 0u8) {
            Ok(temporary) => temporary,
            Err(error) => {
                return Err(error);
            },
        };
        assert(selection@.storage =~= Seq::<u32>::empty());
        assert(flags@ =~= Seq::<u32>::empty());
        assert(offsets@ =~= Seq::<u32>::empty());
        assert(count@ =~= seq![0u32]);
        assert(temporary@ =~= Seq::<u8>::empty());
        Ok(OperatorWorkspace { selection, flags, offsets, count, temporary })
    }

    /// Makes room for rows; buffers that have it stay as they are.
    pub fn reserve_rows(&mut self, required: usize) -> (result: Result<(), Error>)
        ensures
            result is Ok <==> old(self)@.can_reserve(required as nat),
            result matches Ok(_) ==> {
                &&& final(self)@ == (OperatorParts {
                    selection: old(self)@.selection.reserved(required as nat),
                    flags: storage::with_room(old(self)@.flags, required as nat, 0u32),
                    offsets: storage::with_room(old(self)@.offsets, required as nat, 0u32),
                    ..old(self)@
                })
                &&& final(self)@.selection.storage.len() >= required
                &&& final(self)@.flags.len() >= required
                &&& final(self)@.offsets.len() >= required
            },
            result matches Err(error) ==> error == Error::LengthOverflow,
            old(self)@.selection.wf() ==> final(self)@.selection.wf(),
    {
        broadcast use layout::layout_of_primitives;

        match self.selection.reserve(required) {
            Ok(_) => {},
            Err(error) => {
                return Err(error);
            },
        }
        match reserve_items(&mut self.flags, required, 0) {
            Ok(_) => {},
            Err(error) => {
                return Err(error);
            },
        }
        reserve_items(&mut self.offsets, required, 0)
    }

    pub fn reserve_temporary_bytes(&mut self, required: usize) -> (result: Result<(), Error>)
        ensures
            result is Ok <==> storage::can_hold::<u8>(old(self)@.temporary.len(), required as nat),
            result matches Ok(_) ==> final(self)@ == (OperatorParts {
                temporary: storage::with_room(old(self)@.temporary, required as nat, 0u8),
                ..old(self)@
            }),
            result matches Err(error) ==> error == Error::LengthOverflow && final(self)@ == old(
                self,
            )@,
    {
        broadcast use layout::layout_of_primitives;

        reserve_items(&mut self.temporary, required, 0)
    }

    /// Makes room for rows and selects given ones.
    pub(crate) fn select(&mut self, required: usize, rows: &Vec<u32>) -> (result: Result<(), Error>)
        requires
            rows@.len() <= required,
        ensures
            result is Ok <==> old(self)@.can_reserve(required as nat),
            result matches Ok(_) ==> {
                &&& final(self)@.selection.wf()
                &&& final(self)@.selection.selected() == rows@
            },
            result matches Err(error) ==> error == Error::LengthOverflow,
            old(self)@.selection.wf() ==> final(self)@.selection.wf(),
    {
        match self.reserve_rows(required) {
            Ok(_) => {
                self.selection.fill(rows);
                Ok(())
            },
            Err(error) => Err(error),
        }
    }

    pub fn selection(&self) -> (selection: &Selection)
        ensures
            selection@ == self@.selection,
    {
        &self.selection
    }

    pub fn selection_mut(&mut self) -> (selection: &mut Selection)
        ensures
            selection@ == old(self)@.selection,
            final(self)@ == (OperatorParts { selection: final(selection)@, ..old(self)@ }),
    {
        &mut self.selection
    }

    pub fn flags(&self) -> (flags: &ManagedBuffer<u32>)
        ensures
            flags@ == self@.flags,
    {
        &self.flags
    }

    pub fn flags_mut(&mut self) -> (flags: &mut ManagedBuffer<u32>)
        ensures
            flags@ == old(self)@.flags,
            final(self)@ == (OperatorParts { flags: final(flags)@, ..old(self)@ }),
    {
        &mut self.flags
    }

    pub fn offsets(&self) -> (offsets: &ManagedBuffer<u32>)
        ensures
            offsets@ == self@.offsets,
    {
        &self.offsets
    }

    pub fn offsets_mut(&mut self) -> (offsets: &mut ManagedBuffer<u32>)
        ensures
            offsets@ == old(self)@.offsets,
            final(self)@ == (OperatorParts { offsets: final(offsets)@, ..old(self)@ }),
    {
        &mut self.offsets
    }

    pub fn count(&self) -> (count: &ManagedBuffer<u32>)
        ensures
            count@ == self@.count,
    {
        &self.count
    }

    pub fn count_mut(&mut self) -> (count: &mut ManagedBuffer<u32>)
        ensures
            count@ == old(self)@.count,
            final(self)@ == (OperatorParts { count: final(count)@, ..old(self)@ }),
    {
        &mut self.count
    }

    pub fn temporary(&self) -> (temporary: &ManagedBuffer<u8>)
        ensures
            temporary@ == self@.temporary,
    {
        &self.temporary
    }

    pub fn temporary_mut(&mut self) -> (temporary: &mut ManagedBuffer<u8>)
        ensures
            temporary@ == old(self)@.temporary,
            final(self)@ == (OperatorParts { temporary: final(temporary)@, ..old(self)@ }),
    {
        &mut self.temporary
    }

    /// The buffers that selecting on the processor writes, at once.
    pub fn cpu_compaction_parts(&mut self) -> ((selection, flags, offsets): (
        &mut Selection,
        &mut ManagedBuffer<u32>,
        &mut ManagedBuffer<u32>,
    ))
        ensures
            selection@ == old(self)@.selection,
            flags@ == old(self)@.flags,
            offsets@ == old(self)@.offsets,
            final(self)@ == (OperatorParts {
                selection: final(selection)@,
                flags: final(flags)@,
                offsets: final(offsets)@,
                ..old(self)@
            }),
    {
        (&mut self.selection, &mut self.flags, &mut self.offsets)
    }

    /// The buffers that selecting on the device writes, at once.
    pub fn cuda_compaction_parts(&mut self) -> ((selection, flags, count, temporary): (
        &mut Selection,
        &mut ManagedBuffer<u32>,
        &mut ManagedBuffer<u32>,
        &mut ManagedBuffer<u8>,
    ))
        ensures
            selection@ == old(self)@.selection,
            flags@ == old(self)@.flags,
            count@ == old(self)@.count,
            temporary@ == old(self)@.temporary,
            final(self)@ == (OperatorParts {
                selection: final(selection)@,
                flags: final(flags)@,
                count: final(count)@,
                temporary: final(temporary)@,
                ..old(self)@
            }),
    {
        (&mut self.selection, &mut self.flags, &mut self.count, &mut self.temporary)
    }
}

/// What a join workspace holds.
pub struct JoinParts {
    pub output: RelationBuffer,
    pub counts: Seq<u64>,
    pub offsets: Seq<u64>,
    pub total: Seq<u64>,
    pub temporary: Seq<u8>,
}

/// Buffers for joining: how many rows each left row yields, where they begin, and the rows.
pub struct JoinWorkspace {
    output: RelationBuffer,
    counts: ManagedBuffer<u64>,
    offsets: ManagedBuffer<u64>,
    total: ManagedBuffer<u64>,
    temporary: ManagedBuffer<u8>,
}

impl View for JoinWorkspace {
    type V = JoinParts;

    closed spec fn view(&self) -> JoinParts {
        JoinParts {
            output: self.output,
            counts: self.counts@,
            offsets: self.offsets@,
            total: self.total@,
            temporary: self.temporary@,
        }
    }
}

impl JoinParts {
    pub open spec fn wf(self) -> bool {
        self.output.wf()
    }

    /// Whether there is room for the counts of `required` left rows, or can be.
    pub open spec fn can_reserve_outer(self, required: nat) -> bool {
        storage::can_hold::<u64>(self.counts.len(), required) && storage::can_hold::<u64>(
            self.offsets.len(),
            required,
        )
    }
}

impl JoinWorkspace {
    pub fn new(output_arity: usize) -> (result: Result<Self, Error>)
        ensures
            result is Ok,
            result->Ok_0@.wf(),
            result->Ok_0@.output.rows() == 0,
            result->Ok_0@.output.room() == 0,
            result->Ok_0@.output.contents().len() == output_arity,
            result->Ok_0@.counts == Seq::<u64>::empty(),
            result->Ok_0@.offsets == Seq::<u64>::empty(),
            result->Ok_0@.total == seq![0u64],
            result->Ok_0@.temporary == Seq::<u8>::empty(),
    {
        broadcast use layout::layout_of_primitives;

        let output = match RelationBuffer::with_capacity(output_arity, 0) {
            Ok(output) => output,
            Err(error) => {
                return Err(error);
            },
        };
        let counts = match ManagedBuffer::new_filled(0, 0u64) {
            Ok(counts) => counts,
            Err(error) => {
                return Err(error);
            },
        };
        let offsets = match ManagedBuffer::new_filled(0, 0u64) {
            Ok(offsets) => offsets,
            Err(error) => {
                return Err(error);
            },
        };
        let total = match ManagedBuffer::new_filled(1, 0u64) {
            Ok(total) => total,
            Err(error) => {
                return Err(error);
            },
        };
        let temporary = match ManagedBuffer::new_filled(0, 0u8) {
            Ok(temporary) => temporary,
            Err(error) => {
                return Err(error);
            },
        };
        assert(counts@ =~= Seq::<u64>::empty());
        assert(offsets@ =~= Seq::<u64>::empty());
        assert(total@ =~= seq![0u64]);
        assert(temporary@ =~= Seq::<u8>::empty());
        Ok(JoinWorkspace { output, counts, offsets, total, temporary })
    }

    /// Makes room for the counts and offsets of left rows.
    pub fn reserve_outer_rows(&mut self, required: usize) -> (result: Result<(), Error>)
        ensures
            result is Ok <==> old(self)@.can_reserve_outer(required as nat),
            result matches Ok(_) ==> {
                &&& final(self)@ == (JoinParts {
                    counts: storage::with_room(old(self)@.counts, required as nat, 0u64),
                    offsets: storage::with_room(old(self)@.offsets, required as nat, 0u64),
                    ..old(self)@
                })
                &&& final(self)@.counts.len() >= required
                &&& final(self)@.offsets.len() >= required
            },
            result matches Err(error) ==> error == Error::LengthOverflow && final(self)@.output
                == old(self)@.output,
    {
        broadcast use layout::layout_of_primitives;

        match reserve_items(&mut self.counts, required, 0) {
            Ok(_) => {},
            Err(error) => {
                return Err(error);
            },
        }
        reserve_items(&mut self.offsets, required, 0)
    }

    /// Writes the number of rows that each left row yields, and where they begin.
    pub(crate) fn write_counts(&mut self, counts: &Vec<u64>, offsets: &Vec<u64>)
        requires
            counts@.len() == offsets@.len(),
            counts@.len() <= old(self)@.counts.len(),
            counts@.len() <= old(self)@.offsets.len(),
        ensures
            final(self)@.output == old(self)@.output,
            final(self)@.counts.len() == old(self)@.counts.len(),
            final(self)@.offsets.len() == old(self)@.offsets.len(),
            final(self)@.counts.take(counts@.len() as int) == counts@,
            final(self)@.offsets.take(counts@.len() as int) == offsets@,
    {
        let mut i: usize = 0;
        while i < counts.len()
            invariant
                i <= counts@.len(),
                counts@.len() == offsets@.len(),
                counts@.len() <= self.counts@.len(),
                counts@.len() <= self.offsets@.len(),
                self.output == old(self)@.output,
                self.counts@.len() == old(self)@.counts.len(),
                self.offsets@.len() == old(self)@.offsets.len(),
                self.counts@.take(i as int) == counts@.take(i as int),
                self.offsets@.take(i as int) == offsets@.take(i as int),
            decreases counts@.len() - i,
        {
            self.counts.put(i, counts[i]);
            self.offsets.put(i, offsets[i]);
            i += 1;
            assert(self.counts@.take(i as int) =~= counts@.take(i as int));
            assert(self.offsets@.take(i as int) =~= offsets@.take(i as int));
        }
        assert(counts@.take(i as int) =~= counts@);
        assert(offsets@.take(i as int) =~= offsets@);
    }

    /// Makes room for output rows and writes them.
    pub(crate) fn write(&mut self, rows: &Vec<(u32, u32)>) -> (result: Result<(), Error>)
        requires
            old(self)@.wf(),
            old(self)@.output.contents().len() >= 2,
        ensures
            final(self)@.wf(),
            final(self)@.output.contents().len() == old(self)@.output.contents().len(),
            final(self)@ == (JoinParts { output: final(self)@.output, ..old(self)@ }),
            result is Ok <==> old(self)@.output.can_reserve(rows@.len()),
            result matches Ok(_) ==> {
                &&& final(self)@.output.rows() == rows@.len()
                &&& final(self)@.output.pairs() == rows@
            },
            result matches Err(error) ==> error == Error::LengthOverflow && final(self)@ == old(
                self,
            )@,
    {
        match self.output.reserve(rows.len()) {
            Ok(_) => {
                self.output.fill(rows);
                Ok(())
            },
            Err(error) => Err(error),
        }
    }

    /// Makes room for output rows.
    pub fn reserve_output_rows(&mut self, required: usize) -> (result: Result<(), Error>)
        requires
            old(self)@.wf(),
        ensures
            final(self)@.wf(),
            result is Ok <==> old(self)@.output.can_reserve(required as nat),
            final(self)@ == (JoinParts { output: final(self)@.output, ..old(self)@ }),
            final(self)@.output.contents().len() == old(self)@.output.contents().len(),
            result matches Ok(_) ==> if required <= old(self)@.output.room() {
                final(self)@.output == old(self)@.output
            } else {
                &&& final(self)@.output.rows() == 0
                &&& final(self)@.output.room() == storage::grown(required as nat)
                &&& final(self)@.output.contents() == Seq::new(
                    old(self)@.output.contents().len(),
                    |i: int| Seq::new(storage::grown(required as nat), |k: int| 0u32),
                )
            },
            result matches Err(error) ==> error == Error::LengthOverflow && final(self)@ == old(
                self,
            )@,
    {
        self.output.reserve(required)
    }

    pub fn reserve_temporary_bytes(&mut self, required: usize) -> (result: Result<(), Error>)
        ensures
            result is Ok <==> storage::can_hold::<u8>(old(self)@.temporary.len(), required as nat),
            result matches Ok(_) ==> final(self)@ == (JoinParts {
                temporary: storage::with_room(old(self)@.temporary, required as nat, 0u8),
                ..old(self)@
            }),
            result matches Err(error) ==> error == Error::LengthOverflow && final(self)@ == old(
                self,
            )@,
    {
        broadcast use layout::layout_of_primitives;

        reserve_items(&mut self.temporary, required, 0)
    }

    pub fn output(&self) -> (output: &RelationBuffer)
        ensures
            *output == self@.output,
    {
        &self.output
    }

    pub fn output_mut(&mut self) -> (output: &mut RelationBuffer)
        ensures
            *output == old(self)@.output,
            final(self)@ == (JoinParts { output: *final(output), ..old(self)@ }),
    {
        &mut self.output
    }

    pub fn counts(&self) -> (counts: &ManagedBuffer<u64>)
        ensures
            counts@ == self@.counts,
    {
        &self.counts
    }

    pub fn counts_mut(&mut self) -> (counts: &mut ManagedBuffer<u64>)
        ensures
            counts@ == old(self)@.counts,
            final(self)@ == (JoinParts { counts: final(counts)@, ..old(self)@ }),
    {
        &mut self.counts
    }

    pub fn offsets(&self) -> (offsets: &ManagedBuffer<u64>)
        ensures
            offsets@ == self@.offsets,
    {
        &self.offsets
    }

    pub fn offsets_mut(&mut self) -> (offsets: &mut ManagedBuffer<u64>)
        ensures
            offsets@ == old(self)@.offsets,
            final(self)@ == (JoinParts { offsets: final(offsets)@, ..old(self)@ }),
    {
        &mut self.offsets
    }

    pub fn total(&self) -> (total: &ManagedBuffer<u64>)
        ensures
            total@ == self@.total,
    {
        &self.total
    }

    pub fn total_mut(&mut self) -> (total: &mut ManagedBuffer<u64>)
        ensures
            total@ == old(self)@.total,
            final(self)@ == (JoinParts { total: final(total)@, ..old(self)@ }),
    {
        &mut self.total
    }

    pub fn temporary_mut(&mut self) -> (temporary: &mut ManagedBuffer<u8>)
        ensures
            temporary@ == old(self)@.temporary,
            final(self)@ == (JoinParts { temporary: final(temporary)@, ..old(self)@ }),
    {
        &mut self.temporary
    }

    /// The buffers that counting on the device writes, at once.
    pub fn cuda_count_parts(&mut self) -> ((counts, offsets, total, temporary): (
        &mut ManagedBuffer<u64>,
        &mut ManagedBuffer<u64>,
        &mut ManagedBuffer<u64>,
        &mut ManagedBuffer<u8>,
    ))
        ensures
            counts@ == old(self)@.counts,
            offsets@ == old(self)@.offsets,
            total@ == old(self)@.total,
            temporary@ == old(self)@.temporary,
            final(self)@ == (JoinParts {
                output: old(self)@.output,
                counts: final(counts)@,
                offsets: final(offsets)@,
                total: final(total)@,
                temporary: final(temporary)@,
            }),
    {
        (&mut self.counts, &mut self.offsets, &mut self.total, &mut self.temporary)
    }
}

/// The output of removing repetitions.
pub struct DistinctWorkspace {
    output: RelationBuffer,
}

impl DistinctWorkspace {
    /// The output relation.
    pub closed spec fn buffer(&self) -> RelationBuffer {
        self.output
    }

    pub open spec fn wf(&self) -> bool {
        self.buffer().wf() && self.buffer().contents().len() >= 2
    }

    pub fn new() -> (result: Result<Self, Error>)
        ensures
            result is Ok,
            result->Ok_0.wf(),
            result->Ok_0.buffer().rows() == 0,
            result->Ok_0.buffer().room() == 0,
    {
        broadcast use layout::layout_of_primitives;

        match RelationBuffer::with_capacity(2, 0) {
            Ok(output) => Ok(DistinctWorkspace { output }),
            Err(error) => Err(error),
        }
    }

    pub fn output(&self) -> (output: &RelationBuffer)
        ensures
            *output == self.buffer(),
    {
        &self.output
    }

    pub fn output_mut(&mut self) -> (output: &mut RelationBuffer)
        ensures
            *output == old(self).buffer(),
            final(self).buffer() == *final(output),
    {
        &mut self.output
    }

    /// The output alone.
    pub(crate) fn into_output(self) -> (output: RelationBuffer)
        ensures
            output == self.buffer(),
    {
        self.output
    }

    /// Exchanges the output with another relation.
    pub fn swap_output(&mut self, other: &mut RelationBuffer)
        ensures
            final(self).buffer() == *old(other),
            *final(other) == old(self).buffer(),
    {
        std::mem::swap(&mut self.output, other);
    }

    /// Makes room for rows and writes them.
    pub(crate) fn write(&mut self, required: usize, rows: &Vec<(u32, u32)>) -> (result: Result<
        (),
        Error,
    >)
        requires
            old(self).wf(),
            rows@.len() <= required,
        ensures
            final(self).wf(),
            result is Ok <==> old(self).buffer().can_reserve(required as nat),
            result matches Ok(_) ==> {
                &&& final(self).buffer().rows() == rows@.len()
                &&& final(self).buffer().pairs() == rows@
            },
            result matches Err(error) ==> error == Error::LengthOverflow && final(self).buffer()
                == old(self).buffer(),
    {
        match self.output.reserve(required) {
            Ok(_) => {
                self.output.fill(rows);
                Ok(())
            },
            Err(error) => Err(error),
        }
    }
}

/// The output of subtracting one relation from another.
pub struct AntiJoinWorkspace {
    output: RelationBuffer,
}

impl AntiJoinWorkspace {
    /// The output relation.
    pub closed spec fn buffer(&self) -> RelationBuffer {
        self.output
    }

    pub open spec fn wf(&self) -> bool {
        self.buffer().wf() && self.buffer().contents().len() >= 2
    }

    pub fn new() -> (result: Result<Self, Error>)
        ensures
            result is Ok,
            result->Ok_0.wf(),
            result->Ok_0.buffer().rows() == 0,
            result->Ok_0.buffer().room() == 0,
    {
        broadcast use layout::layout_of_primitives;

        match RelationBuffer::with_capacity(2, 0) {
            Ok(output) => Ok(AntiJoinWorkspace { output }),
            Err(error) => Err(error),
        }
    }

    pub fn output(&self) -> (output: &RelationBuffer)
        ensures
            *output == self.buffer(),
    {
        &self.output
    }

    pub fn output_mut(&mut self) -> (output: &mut RelationBuffer)
        ensures
            *output == old(self).buffer(),
            final(self).buffer() == *final(output),
    {
        &mut self.output
    }

    /// Exchanges the output with another relation.
    pub fn swap_output(&mut self, other: &mut RelationBuffer)
        ensures
            final(self).buffer() == *old(other),
            *final(other) == old(self).buffer(),
    {
        std::mem::swap(&mut self.output, other);
    }

    /// Makes room for rows and writes them.
    pub(crate) fn write(&mut self, required: usize, rows: &Vec<(u32, u32)>) -> (result: Result<
        (),
        Error,
    >)
        requires
            old(self).wf(),
            rows@.len() <= required,
        ensures
            final(self).wf(),
            result is Ok <==> old(self).buffer().can_reserve(required as nat),
            result matches Ok(_) ==> {
                &&& final(self).buffer().rows() == rows@.len()
                &&& final(self).buffer().pairs() == rows@
            },
            result matches Err(error) ==> error == Error::LengthOverflow && final(self).buffer()
                == old(self).buffer(),
    {
        match self.output.reserve(required) {
            Ok(_) => {
                self.output.fill(rows);
                Ok(())
            },
            Err(error) => Err(error),
        }
    }
}

/// The output of uniting two relations.
pub struct UnionWorkspace {
    output: RelationBuffer,
}

impl UnionWorkspace {
    /// The output relation.
    pub closed spec fn buffer(&self) -> RelationBuffer {
        self.output
    }

    pub open spec fn wf(&self) -> bool {
        self.buffer().wf() && self.buffer().contents().len() >= 2
    }

    pub fn new() -> (result: Result<Self, Error>)
        ensures
            result is Ok,
            result->Ok_0.wf(),
            result->Ok_0.buffer().rows() == 0,
            result->Ok_0.buffer().room() == 0,
    {
        broadcast use layout::layout_of_primitives;

        match RelationBuffer::with_capacity(2, 0) {
            Ok(output) => Ok(UnionWorkspace { output }),
            Err(error) => Err(error),
        }
    }

    pub fn output(&self) -> (output: &RelationBuffer)
        ensures
            *output == self.buffer(),
    {
        &self.output
    }

    pub fn output_mut(&mut self) -> (output: &mut RelationBuffer)
        ensures
            *output == old(self).buffer(),
            final(self).buffer() == *final(output),
    {
        &mut self.output
    }

    /// Exchanges the output with another relation.
    pub fn swap_output(&mut self, other: &mut RelationBuffer)
        ensures
            final(self).buffer() == *old(other),
            *final(other) == old(self).buffer(),
    {
        std::mem::swap(&mut self.output, other);
    }

    /// Makes room for rows and writes them.
    pub(crate) fn write(&mut self, required: usize, rows: &Vec<(u32, u32)>) -> (result: Result<
        (),
        Error,
    >)
        requires
            old(self).wf(),
            rows@.len() <= required,
        ensures
            final(self).wf(),
            result is Ok <==> old(self).buffer().can_reserve(required as nat),
            result matches Ok(_) ==> {
                &&& final(self).buffer().rows() == rows@.len()
                &&& final(self).buffer().pairs() == rows@
            },
            result matches Err(error) ==> error == Error::LengthOverflow && final(self).buffer()
                == old(self).buffer(),
    {
        match self.output.reserve(required) {
            Ok(_) => {
                self.output.fill(rows);
                Ok(())
            },
            Err(error) => Err(error),
        }
    }
}

} // verus!
