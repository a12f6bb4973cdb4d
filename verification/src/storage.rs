//! Relations as columns, their buffers, and an index over a column.
use vstd::layout;
use vstd::prelude::*;

use crate::text;
use crate::text::decimal_text;

verus! {

#[derive(Debug, Clone, Copy, PartialEq, Eq)]
pub enum Error {
    LengthOverflow,
    LogicalLengthExceedsCapacity { len: usize, capacity: usize },
    MismatchedColumnLength { expected: usize, actual: usize },
    TooManyRows(usize),
    ZeroSizedType,
}

impl Error {
    /// What the error says.
    pub open spec fn text(self) -> Seq<char> {
        match self {
            Error::LengthOverflow => "buffer length overflows its byte size"@,
            Error::LogicalLengthExceedsCapacity { len, capacity } => "logical length "@
                + text::decimal(len as nat) + " exceeds allocation capacity "@ + text::decimal(
                capacity as nat,
            ),
            Error::MismatchedColumnLength { expected, actual } => "column length "@ + text::decimal(
                actual as nat,
            ) + " does not match relation length "@ + text::decimal(expected as nat),
            Error::TooManyRows(rows) => text::decimal(rows as nat)
                + " rows cannot be represented by u32 row IDs"@,
            Error::ZeroSizedType => "CUDA-managed buffers cannot contain zero-sized types"@,
        }
    }

    pub fn message(&self) -> (message: String)
        ensures
            message@ == self.text(),
    {
        match self {
            Error::LengthOverflow => "buffer length overflows its byte size".to_owned(),
            Error::LogicalLengthExceedsCapacity { len, capacity } => {
                let mut message = "logical length ".to_owned();
                let len = decimal_text(*len);
                message.append(len.as_str());
                message.append(" exceeds allocation capacity ");
                let capacity = decimal_text(*capacity);
                message.append(capacity.as_str());
                message
            },
            Error::MismatchedColumnLength { expected, actual } => {
                let mut message = "column length ".to_owned();
                let actual = decimal_text(*actual);
                message.append(actual.as_str());
                message.append(" does not match relation length ");
                let expected = decimal_text(*expected);
                message.append(expected.as_str());
                message
            },
            Error::TooManyRows(rows) => {
                let mut message = decimal_text(*rows);
                message.append(" rows cannot be represented by u32 row IDs");
                message
            },
            Error::ZeroSizedType => "CUDA-managed buffers cannot contain zero-sized types".to_owned(
            ),
        }
    }
}

/// A fixed number of initialized items.
pub struct ManagedBuffer<T> {
    data: Vec<T>,
}

/// A column of a relation.
pub type Column = ManagedBuffer<u32>;

impl<T> View for ManagedBuffer<T> {
    type V = Seq<T>;

    closed spec fn view(&self) -> Seq<T> {
        self.data@
    }
}

/// Whether the byte size of `len` items can be counted.
pub open spec fn size_fits<T>(len: nat) -> bool {
    len * layout::size_of::<T>() <= usize::MAX
}

impl<T: Copy> ManagedBuffer<T> {
    /// A buffer of `len` copies of a value.
    pub fn new_filled(len: usize, value: T) -> (result: Result<Self, Error>)
        ensures
            match result {
                Ok(buffer) => {
                    &&& layout::size_of::<T>() != 0
                    &&& size_fits::<T>(len as nat)
                    &&& buffer@ == Seq::new(len as nat, |i: int| value)
                },
                Err(error) => if layout::size_of::<T>() == 0 {
                    error == Error::ZeroSizedType
                } else {
                    error == Error::LengthOverflow && !size_fits::<T>(len as nat)
                },
            },
    {
        let size: usize = core::mem::size_of::<T>();
        if size == 0 {
            return Err(Error::ZeroSizedType);
        }
        if len.checked_mul(size).is_none() {
            return Err(Error::LengthOverflow);
        }
        let mut data: Vec<T> = Vec::new();
        let mut i: usize = 0;
        while i < len
            invariant
                i <= len,
                data@ == Seq::new(i as nat, |k: int| value),
            decreases len - i,
        {
            data.push(value);
            i += 1;
            assert(data@ =~= Seq::new(i as nat, |k: int| value));
        }
        Ok(ManagedBuffer { data })
    }

    /// A buffer of given items.
    pub(crate) fn from_items(items: Vec<T>) -> (result: Result<Self, Error>)
        requires
            layout::size_of::<T>() != 0,
        ensures
            match result {
                Ok(buffer) => size_fits::<T>(items@.len()) && buffer@ == items@,
                Err(error) => error == Error::LengthOverflow && !size_fits::<T>(items@.len()),
            },
    {
        let size: usize = core::mem::size_of::<T>();
        if items.len().checked_mul(size).is_none() {
            return Err(Error::LengthOverflow);
        }
        Ok(ManagedBuffer { data: items })
    }

    pub fn len(&self) -> (length: usize)
        ensures
            length == self@.len(),
    {
        self.data.len()
    }

    pub fn is_empty(&self) -> (empty: bool)
        ensures
            empty == (self@.len() == 0),
    {
        self.data.len() == 0
    }

    pub fn as_slice(&self) -> (slice: &[T])
        ensures
            slice@ == self@,
    {
        self.data.as_slice()
    }

    pub fn as_mut_slice(&mut self) -> (slice: &mut [T])
        ensures
            slice@ == old(self)@,
            final(self)@ == final(slice)@,
    {
        self.data.as_mut_slice()
    }

    /// The item at a position.
    pub(crate) fn at(&self, index: usize) -> (item: T)
        requires
            index < self@.len(),
        ensures
            item == self@[index as int],
    {
        self.data[index]
    }

    /// Replaces the item at a position.
    pub(crate) fn put(&mut self, index: usize, item: T)
        requires
            index < old(self)@.len(),
        ensures
            final(self)@ == old(self)@.update(index as int, item),
    {
        self.data.set(index, item);
    }
}

/// The contents of each of some columns.
pub open spec fn column_views(columns: Seq<Column>) -> Seq<Seq<u32>> {
    Seq::new(columns.len(), |i: int| columns[i]@)
}

/// The number of rows of some columns: the length of the first.
pub open spec fn row_count(columns: Seq<Seq<u32>>) -> nat {
    if columns.len() == 0 {
        0
    } else {
        columns[0].len()
    }
}

/// Whether columns are equally long.
pub open spec fn rectangular(columns: Seq<Seq<u32>>) -> bool {
    forall|i: int| 0 <= i < columns.len() ==> (#[trigger] columns[i]).len() == row_count(columns)
}

/// A relation of any arity, held column by column.
pub struct Relation {
    columns: Vec<Column>,
}

/// Makes columns of zeros.
fn zero_columns(arity: usize, len: usize) -> (result: Result<Vec<Column>, Error>)
    ensures
        result is Ok <==> arity == 0 || size_fits::<u32>(len as nat),
        result matches Ok(columns) ==> column_views(columns@) == Seq::new(
            arity as nat,
            |i: int| Seq::new(len as nat, |k: int| 0u32),
        ),
        result matches Err(error) ==> error == Error::LengthOverflow,
{
    broadcast use layout::layout_of_primitives;

    let mut columns: Vec<Column> = Vec::new();
    let mut i: usize = 0;
    while i < arity
        invariant
            i <= arity,
            i > 0 ==> size_fits::<u32>(len as nat),
            column_views(columns@) == Seq::new(
                i as nat,
                |j: int| Seq::new(len as nat, |k: int| 0u32),
            ),
        decreases arity - i,
    {
        match Column::new_filled(len, 0) {
            Ok(column) => {
                proof {
                    assert(column_views(columns@.push(column)) =~= column_views(columns@).push(
                        column@,
                    ));
                }
                columns.push(column);
            },
            Err(error) => {
                return Err(error);
            },
        }
        i += 1;
        assert(column_views(columns@) =~= Seq::new(
            i as nat,
            |j: int| Seq::new(len as nat, |k: int| 0u32),
        ));
    }
    Ok(columns)
}

impl Relation {
    /// The columns.
    pub closed spec fn contents(&self) -> Seq<Seq<u32>> {
        column_views(self.columns@)
    }

    /// Whether the columns are equally long.
    pub open spec fn wf(&self) -> bool {
        rectangular(self.contents())
    }

    /// A relation of zeros.
    pub fn new(arity: usize, len: usize) -> (result: Result<Self, Error>)
        ensures
            result is Ok <==> arity == 0 || size_fits::<u32>(len as nat),
            result matches Ok(relation) ==> {
                &&& relation.wf()
                &&& relation.contents() == Seq::new(
                    arity as nat,
                    |i: int| Seq::new(len as nat, |k: int| 0u32),
                )
            },
            result matches Err(error) ==> error == Error::LengthOverflow,
    {
        match zero_columns(arity, len) {
            Ok(columns) => Ok(Relation { columns }),
            Err(error) => Err(error),
        }
    }

    /// A relation of given columns, which have to be equally long.
    pub fn from_columns(columns: Vec<Column>) -> (result: Result<Self, Error>)
        ensures
            result is Ok <==> rectangular(column_views(columns@)),
            result matches Ok(relation) ==> relation.wf() && relation.contents() == column_views(columns@),
            result matches Err(error) ==> exists|i: int|
                0 <= i < columns@.len() && error == (Error::MismatchedColumnLength {
                    expected: columns@[0]@.len() as usize,
                    actual: (#[trigger] columns@[i])@.len() as usize,
                }) && columns@[i]@.len() != columns@[0]@.len() && forall|j: int|
                    0 <= j < i ==> (#[trigger] columns@[j])@.len() == columns@[0]@.len(),
    {
        if columns.len() > 0 {
            let expected: usize = columns[0].len();
            let mut i: usize = 0;
            while i < columns.len()
                invariant
                    i <= columns@.len(),
                    columns@.len() > 0,
                    expected == columns@[0]@.len(),
                    forall|j: int| 0 <= j < i ==> (#[trigger] columns@[j])@.len() == expected,
                decreases columns@.len() - i,
            {
                let actual: usize = columns[i].len();
                if actual != expected {
                    assert(column_views(columns@)[i as int].len() != row_count(
                        column_views(columns@),
                    ));
                    return Err(Error::MismatchedColumnLength { expected, actual });
                }
                i += 1;
            }
        }
        Ok(Relation { columns })
    }

    pub fn len(&self) -> (length: usize)
        ensures
            length == row_count(self.contents()),
    {
        if self.columns.len() > 0 {
            self.columns[0].len()
        } else {
            0
        }
    }

    pub fn is_empty(&self) -> (empty: bool)
        ensures
            empty == (row_count(self.contents()) == 0),
    {
        self.len() == 0
    }

    pub fn arity(&self) -> (arity: usize)
        ensures
            arity == self.contents().len(),
    {
        self.columns.len()
    }

    pub fn column(&self, index: usize) -> (column: Option<&Column>)
        ensures
            column is Some <==> index < self.contents().len(),
            column matches Some(found) ==> found@ == self.contents()[index as int],
    {
        if index < self.columns.len() {
            Some(&self.columns[index])
        } else {
            None
        }
    }

    /// A column for writing. Giving it another length leaves a relation that is not well-formed.
    pub fn column_mut(&mut self, index: usize) -> (column: Option<&mut Column>)
        ensures
            column is Some <==> index < old(self).contents().len(),
            match column {
                Some(found) => {
                    &&& found@ == old(self).contents()[index as int]
                    &&& final(self).contents() == old(self).contents().update(index as int, final(found)@)
                },
                None => final(self).contents() == old(self).contents(),
            },
    {
        if index < self.columns.len() {
            let ghost before = self.columns@;
            let found = &mut self.columns[index];
            assert(column_views(before.update(index as int, *final(found))) =~= column_views(
                before,
            ).update(index as int, final(found)@));
            Some(found)
        } else {
            None
        }
    }

    /// The rows of the relation, borrowed.
    pub fn view(&self) -> (view: RelationView<'_>)
        ensures
            view@ == self.contents(),
            view.rows() == row_count(self.contents()),
            self.wf() ==> view.wf(),
    {
        RelationView { columns: self.columns.as_slice(), len: self.len() }
    }
}

/// The first rows of some columns, borrowed.
#[derive(Clone, Copy)]
pub struct RelationView<'a> {
    columns: &'a [Column],
    len: usize,
}

impl<'a> RelationView<'a> {
    /// The number of rows.
    pub closed spec fn rows(self) -> nat {
        self.len as nat
    }

    /// Whether every column holds all the rows.
    pub open spec fn wf(self) -> bool {
        forall|i: int| 0 <= i < self@.len() ==> (#[trigger] self@[i]).len() >= self.rows()
    }

    pub fn len(self) -> (length: usize)
        ensures
            length == self.rows(),
    {
        self.len
    }

    pub fn is_empty(self) -> (empty: bool)
        ensures
            empty == (self.rows() == 0),
    {
        self.len == 0
    }

    pub fn arity(self) -> (arity: usize)
        ensures
            arity == self@.len(),
    {
        self.columns.len()
    }

    pub fn column(self, index: usize) -> (column: Option<&'a Column>)
        ensures
            column is Some <==> index < self@.len(),
            column matches Some(found) ==> found@ == self@[index as int],
    {
        if index < self.columns.len() {
            Some(&self.columns[index])
        } else {
            None
        }
    }

    /// The rows of a column.
    pub fn column_slice(self, index: usize) -> (column: Option<&'a [u32]>)
        requires
            self.wf(),
        ensures
            column is Some <==> index < self@.len(),
            column matches Some(found) ==> found@ == self@[index as int].take(self.rows() as int),
    {
        if index < self.columns.len() {
            assert(self@[index as int].len() >= self.rows());
            let slice = vstd::slice::slice_subrange(self.columns[index].as_slice(), 0, self.len);
            assert(slice@ =~= self@[index as int].take(self.rows() as int));
            Some(slice)
        } else {
            None
        }
    }

    /// The first `len` rows, if there are as many.
    pub fn prefix(self, len: usize) -> (prefix: Option<RelationView<'a>>)
        ensures
            prefix is Some <==> len <= self.rows(),
            prefix matches Some(view) ==> {
                &&& view@ == self@
                &&& view.rows() == len
                &&& self.wf() ==> view.wf()
            },
    {
        if len <= self.len {
            let view = RelationView { columns: self.columns, len };
            proof {
                if self.wf() {
                    assert forall|i: int| 0 <= i < view@.len() implies (#[trigger] view@[i]).len()
                        >= view.rows() by {
                        assert(self@[i].len() >= self.rows());
                    }
                }
            }
            Some(view)
        } else {
            None
        }
    }
}

impl<'a> View for RelationView<'a> {
    type V = Seq<Seq<u32>>;

    closed spec fn view(&self) -> Seq<Seq<u32>> {
        column_views(self.columns@)
    }
}

/// The first power of two, among those from `power` on, that is at least `required`.
pub open spec fn power_from(power: nat, required: nat) -> nat
    decreases
        (if power < required {
            required - power
        } else {
            0
        }),
{
    if power == 0 || power >= required {
        power
    } else {
        power_from(2 * power, required)
    }
}

/// The capacity that room for `required` items is given: the next power of two, if it can be
/// counted.
pub open spec fn grown(required: nat) -> nat {
    if power_from(1, required) <= usize::MAX {
        power_from(1, required)
    } else {
        required
    }
}

proof fn lemma_power_from(power: nat, required: nat)
    ensures
        power_from(power, required) >= power,
        power > 0 ==> power_from(power, required) >= required,
    decreases
        (if power < required {
            required - power
        } else {
            0
        }),
{
    if power != 0 && power < required {
        lemma_power_from(2 * power, required);
    }
}

/// A grown capacity suffices.
pub proof fn lemma_grown(required: nat)
    ensures
        grown(required) >= required,
{
    lemma_power_from(1, required);
}

fn grown_capacity(required: usize) -> (capacity: usize)
    ensures
        capacity == grown(required as nat),
        capacity >= required,
{
    proof {
        lemma_grown(required as nat);
    }
    let mut power: usize = 1;
    while power < required
        invariant
            power > 0,
            power_from(1, required as nat) == power_from(power as nat, required as nat),
        decreases
            (if power < required {
                required - power
            } else {
                0
            }),
    {
        if power > usize::MAX / 2 {
            proof {
                lemma_power_from((2 * power) as nat, required as nat);
            }
            return required;
        }
        power *= 2;
    }
    power
}

/// Whether a buffer of `capacity` items has room for `required`, or can be given it.
pub open spec fn can_hold<T>(capacity: nat, required: nat) -> bool {
    required <= capacity || size_fits::<T>(grown(required))
}

/// A buffer with room for `required` items: the same one where it has, else a new one of zeros.
pub open spec fn with_room<T>(buffer: Seq<T>, required: nat, zero: T) -> Seq<T> {
    if required <= buffer.len() {
        buffer
    } else {
        Seq::new(grown(required), |i: int| zero)
    }
}

pub(crate) fn reserve_items<T: Copy>(buffer: &mut ManagedBuffer<T>, required: usize, zero: T) -> (result: Result<
    (),
    Error,
>)
    requires
        layout::size_of::<T>() != 0,
    ensures
        match result {
            Ok(_) => {
                &&& can_hold::<T>(old(buffer)@.len(), required as nat)
                &&& final(buffer)@ == with_room(old(buffer)@, required as nat, zero)
                &&& final(buffer)@.len() >= required
            },
            Err(error) => {
                &&& !can_hold::<T>(old(buffer)@.len(), required as nat)
                &&& error == Error::LengthOverflow
                &&& final(buffer)@ == old(buffer)@
            },
        },
{
    if required <= buffer.len() {
        return Ok(());
    }
    let capacity: usize = grown_capacity(required);
    match ManagedBuffer::new_filled(capacity, zero) {
        Ok(larger) => {
            *buffer = larger;
            Ok(())
        },
        Err(error) => Err(error),
    }
}

/// The rows of the first two of some columns.
pub open spec fn pair_rows(columns: Seq<Seq<u32>>, rows: nat) -> Seq<(u32, u32)> {
    Seq::new(rows, |i: int| (columns[0][i], columns[1][i]))
}

/// A relation with room for more rows than it holds.
pub struct RelationBuffer {
    columns: Vec<Column>,
    len: usize,
    capacity: usize,
}

impl RelationBuffer {
    /// The columns, up to the capacity.
    pub closed spec fn contents(&self) -> Seq<Seq<u32>> {
        column_views(self.columns@)
    }

    /// The number of rows.
    pub closed spec fn rows(&self) -> nat {
        self.len as nat
    }

    /// The number of rows that there is room for.
    pub closed spec fn room(&self) -> nat {
        self.capacity as nat
    }

    /// The rows of a binary relation.
    pub open spec fn pairs(&self) -> Seq<(u32, u32)> {
        pair_rows(self.contents(), self.rows())
    }

    /// Whether every column has the capacity, and the rows fit into it.
    pub open spec fn wf(&self) -> bool {
        &&& self.rows() <= self.room()
        &&& forall|i: int|
            0 <= i < self.contents().len() ==> (#[trigger] self.contents()[i]).len() == self.room()
    }

    pub fn with_capacity(arity: usize, capacity: usize) -> (result: Result<Self, Error>)
        ensures
            result is Ok <==> arity == 0 || size_fits::<u32>(capacity as nat),
            result matches Ok(buffer) ==> {
                &&& buffer.wf()
                &&& buffer.rows() == 0
                &&& buffer.room() == capacity
                &&& buffer.contents() == Seq::new(
                    arity as nat,
                    |i: int| Seq::new(capacity as nat, |k: int| 0u32),
                )
            },
            result matches Err(error) ==> error == Error::LengthOverflow,
    {
        match zero_columns(arity, capacity) {
            Ok(columns) => Ok(RelationBuffer { columns, len: 0, capacity }),
            Err(error) => Err(error),
        }
    }

    /// A copy of the rows of a relation.
    pub fn from_view(view: RelationView<'_>) -> (result: Result<Self, Error>)
        requires
            view.wf(),
        ensures
            result is Ok <==> view@.len() == 0 || size_fits::<u32>(view.rows()),
            result matches Ok(buffer) ==> {
                &&& buffer.wf()
                &&& buffer.rows() == view.rows()
                &&& buffer.room() == view.rows()
                &&& buffer.contents() == Seq::new(
                    view@.len(),
                    |i: int| view@[i].take(view.rows() as int),
                )
            },
            result matches Err(error) ==> error == Error::LengthOverflow,
    {
        let len: usize = view.len();
        let arity: usize = view.arity();
        let mut columns: Vec<Column> = match zero_columns(arity, len) {
            Ok(columns) => columns,
            Err(error) => {
                return Err(error);
            },
        };
        let ghost expected = Seq::new(arity as nat, |i: int| view@[i].take(len as int));
        let mut i: usize = 0;
        assert(columns@.len() == column_views(columns@).len());
        assert forall|k: int| 0 <= k < arity implies (#[trigger] columns@[k])@.len() == len by {
            assert(column_views(columns@)[k] == columns@[k]@);
        }
        while i < arity
            invariant
                i <= arity,
                view.wf(),
                len == view.rows(),
                arity == view@.len(),
                columns@.len() == arity,
                expected == Seq::new(arity as nat, |k: int| view@[k].take(len as int)),
                forall|k: int| 0 <= k < i ==> (#[trigger] columns@[k])@ == expected[k],
                forall|k: int| i <= k < arity ==> (#[trigger] columns@[k])@.len() == len,
            decreases arity - i,
        {
            if let Some(source) = view.column_slice(i) {
                let ghost before = columns@;
                let mut column = match Column::new_filled(0, 0) {
                    Ok(column) => column,
                    Err(error) => {
                        return Err(error);
                    },
                };
                std::mem::swap(&mut column, &mut columns[i]);
                let mut j: usize = 0;
                while j < len
                    invariant
                        j <= len,
                        column@.len() == len,
                        source@.len() == len,
                        column@.take(j as int) == source@.take(j as int),
                    decreases len - j,
                {
                    column.put(j, source[j]);
                    j += 1;
                    assert(column@.take(j as int) =~= source@.take(j as int));
                }
                assert(column@.take(len as int) =~= column@);
                assert(source@.take(len as int) =~= source@);
                std::mem::swap(&mut column, &mut columns[i]);
            }
            i += 1;
        }
        assert(column_views(columns@) =~= expected);
        Ok(RelationBuffer { columns, len, capacity: len })
    }

    pub fn len(&self) -> (length: usize)
        ensures
            length == self.rows(),
    {
        self.len
    }

    pub fn is_empty(&self) -> (empty: bool)
        ensures
            empty == (self.rows() == 0),
    {
        self.len == 0
    }

    pub fn arity(&self) -> (arity: usize)
        ensures
            arity == self.contents().len(),
    {
        self.columns.len()
    }

    pub fn capacity(&self) -> (capacity: usize)
        ensures
            capacity == self.room(),
    {
        self.capacity
    }

    /// Forgets the rows.
    pub fn clear(&mut self)
        ensures
            final(self).rows() == 0,
            final(self).room() == old(self).room(),
            final(self).contents() == old(self).contents(),
    {
        self.len = 0;
    }

    /// Sets the number of rows, which may not exceed the capacity.
    pub fn set_len(&mut self, len: usize) -> (result: Result<(), Error>)
        ensures
            final(self).room() == old(self).room(),
            final(self).contents() == old(self).contents(),
            match result {
                Ok(_) => len <= old(self).room() && final(self).rows() == len,
                Err(error) => {
                    &&& len > old(self).room()
                    &&& error == (Error::LogicalLengthExceedsCapacity {
                        len,
                        capacity: old(self).room() as usize,
                    })
                    &&& final(self).rows() == old(self).rows()
                },
            },
    {
        if len > self.capacity {
            return Err(
                Error::LogicalLengthExceedsCapacity { len, capacity: self.capacity },
            );
        }
        self.len = len;
        Ok(())
    }

    /// Whether there is room for `required` rows, or can be.
    pub open spec fn can_reserve(&self, required: nat) -> bool {
        self.contents().len() == 0 || can_hold::<u32>(self.room(), required)
    }

    /// Makes room. Where the columns have to be replaced, the rows are forgotten.
    pub fn reserve(&mut self, required: usize) -> (result: Result<(), Error>)
        requires
            old(self).wf(),
        ensures
            final(self).wf(),
            final(self).contents().len() == old(self).contents().len(),
            match result {
                Ok(_) => {
                    &&& old(self).can_reserve(required as nat)
                    &&& final(self).room() >= required
                    &&& if required <= old(self).room() {
                        *final(self) == *old(self)
                    } else {
                        &&& final(self).rows() == 0
                        &&& final(self).room() == grown(required as nat)
                        &&& final(self).contents() == Seq::new(
                            old(self).contents().len(),
                            |i: int| Seq::new(grown(required as nat), |k: int| 0u32),
                        )
                    }
                },
                Err(error) => {
                    &&& !old(self).can_reserve(required as nat)
                    &&& error == Error::LengthOverflow
                    &&& *final(self) == *old(self)
                },
            },
    {
        if required <= self.capacity {
            return Ok(());
        }
        let capacity: usize = grown_capacity(required);
        match zero_columns(self.columns.len(), capacity) {
            Ok(columns) => {
                self.columns = columns;
                self.capacity = capacity;
                self.len = 0;
                Ok(())
            },
            Err(error) => Err(error),
        }
    }

    pub fn column(&self, index: usize) -> (column: Option<&Column>)
        ensures
            column is Some <==> index < self.contents().len(),
            column matches Some(found) ==> found@ == self.contents()[index as int],
    {
        if index < self.columns.len() {
            Some(&self.columns[index])
        } else {
            None
        }
    }

    /// A column for writing.
    pub fn column_mut(&mut self, index: usize) -> (column: Option<&mut Column>)
        ensures
            column is Some <==> index < old(self).contents().len(),
            final(self).rows() == old(self).rows(),
            final(self).room() == old(self).room(),
            match column {
                Some(found) => {
                    &&& found@ == old(self).contents()[index as int]
                    &&& final(self).contents() == old(self).contents().update(
                        index as int,
                        final(found)@,
                    )
                },
                None => final(self).contents() == old(self).contents(),
            },
    {
        if index < self.columns.len() {
            let ghost before = self.columns@;
            let found = &mut self.columns[index];
            assert(column_views(before.update(index as int, *final(found))) =~= column_views(
                before,
            ).update(index as int, final(found)@));
            Some(found)
        } else {
            None
        }
    }

    /// The columns for writing.
    pub fn columns_mut(&mut self) -> (columns: &mut [Column])
        ensures
            column_views(columns@) == old(self).contents(),
            final(self).contents() == column_views(final(columns)@),
            final(self).rows() == old(self).rows(),
            final(self).room() == old(self).room(),
    {
        self.columns.as_mut_slice()
    }

    pub fn view(&self) -> (view: RelationView<'_>)
        ensures
            view@ == self.contents(),
            view.rows() == self.rows(),
            self.wf() ==> view.wf(),
    {
        RelationView { columns: self.columns.as_slice(), len: self.len }
    }

    /// Replaces the rows of a binary relation.
    pub(crate) fn fill(&mut self, pairs: &Vec<(u32, u32)>)
        requires
            old(self).wf(),
            old(self).contents().len() >= 2,
            pairs@.len() <= old(self).room(),
        ensures
            final(self).wf(),
            final(self).contents().len() == old(self).contents().len(),
            final(self).room() == old(self).room(),
            final(self).rows() == pairs@.len(),
            final(self).pairs() == pairs@,
    {
        let ghost room = self.room();
        let ghost arity = self.contents().len();
        assert forall|k: int| 0 <= k < arity implies (#[trigger] self.columns@[k])@.len()
            == room by {
            assert(self.contents()[k].len() == room);
        }
        let mut i: usize = 0;
        while i < pairs.len()
            invariant
                i <= pairs@.len() <= room,
                room == self.room(),
                arity >= 2,
                self.columns@.len() == arity,
                forall|k: int| 0 <= k < arity ==> (#[trigger] self.columns@[k])@.len() == room,
                forall|k: int|
                    0 <= k < i ==> self.columns@[0]@[k] == (#[trigger] pairs@[k]).0
                        && self.columns@[1]@[k] == pairs@[k].1,
            decreases pairs@.len() - i,
        {
            let pair = pairs[i];
            self.columns[0].put(i, pair.0);
            self.columns[1].put(i, pair.1);
            i += 1;
        }
        self.len = pairs.len();
        assert(self.pairs() =~= pairs@);
    }
}

} // verus!
