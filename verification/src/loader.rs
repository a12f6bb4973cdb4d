//! Binary relations of numbers, read from text: one row to a line.
use vstd::prelude::*;

use crate::pairs::Pair;
use crate::storage;
use crate::storage::{Column, Relation};
use crate::text;
use crate::text::{
    decimal_text, parse_u32_text, quote, split_lines, text_between, trim_bounds, white,
};

verus! {

/// What a load error says.
pub enum LoadErrorView {
    GitLfsPointer(Seq<char>),
    InvalidFieldCount { line: nat },
    InvalidU32 { line: nat, column: nat, value: Seq<char> },
    Storage(storage::Error),
}

#[derive(Debug, Clone, PartialEq, Eq)]
pub enum LoadError {
    GitLfsPointer(String),
    InvalidFieldCount { line: usize },
    InvalidU32 { line: usize, column: usize, value: String },
    Storage(storage::Error),
}

impl View for LoadError {
    type V = LoadErrorView;

    open spec fn view(&self) -> LoadErrorView {
        match *self {
            LoadError::GitLfsPointer(path) => LoadErrorView::GitLfsPointer(path@),
            LoadError::InvalidFieldCount { line } => LoadErrorView::InvalidFieldCount {
                line: line as nat,
            },
            LoadError::InvalidU32 { line, column, value } => LoadErrorView::InvalidU32 {
                line: line as nat,
                column: column as nat,
                value: value@,
            },
            LoadError::Storage(error) => LoadErrorView::Storage(error),
        }
    }
}

/// The text of a load error.
pub open spec fn load_error_text(error: LoadErrorView) -> Seq<char> {
    match error {
        LoadErrorView::GitLfsPointer(path) => path
            + " is a Git LFS pointer, not materialized graph data"@,
        LoadErrorView::InvalidFieldCount { line } => "line "@ + text::decimal(line)
            + " does not contain exactly two fields"@,
        LoadErrorView::InvalidU32 { line, column, value } => "line "@ + text::decimal(line)
            + ", column "@ + text::decimal(column) + " is not a u32: "@ + text::quoted(value),
        LoadErrorView::Storage(error) => error.text(),
    }
}

impl LoadError {
    pub fn message(&self) -> (message: String)
        ensures
            message@ == load_error_text(self@),
    {
        match self {
            LoadError::GitLfsPointer(path) => {
                let mut message = path.as_str().to_owned();
                message.append(" is a Git LFS pointer, not materialized graph data");
                message
            },
            LoadError::InvalidFieldCount { line } => {
                let mut message = "line ".to_owned();
                let line = decimal_text(*line);
                message.append(line.as_str());
                message.append(" does not contain exactly two fields");
                message
            },
            LoadError::InvalidU32 { line, column, value } => {
                let mut message = "line ".to_owned();
                let line = decimal_text(*line);
                message.append(line.as_str());
                message.append(", column ");
                let column = decimal_text(*column);
                message.append(column.as_str());
                message.append(" is not a u32: ");
                let value = quote(value.as_str());
                message.append(value.as_str());
                message
            },
            LoadError::Storage(error) => error.message(),
        }
    }
}

/// The data of a line: without the white space at its ends; `None` for an empty line or a comment.
pub open spec fn line_data(line: Seq<char>) -> Option<Seq<char>> {
    let data = text::trimmed(line);
    if data.len() == 0 || data[0] == '#' || data[0] == '%' {
        None
    } else {
        Some(data)
    }
}

/// The first line of a file that stands for one kept elsewhere.
pub open spec fn pointer_line() -> Seq<char> {
    "version https://git-lfs.github.com/spec/v1"@
}

/// Where the white space begins that ends a field.
pub open spec fn field_end(data: Seq<char>, start: int) -> int
    decreases data.len() - start,
{
    if start < data.len() && !text::is_white(data[start]) {
        field_end(data, start + 1)
    } else {
        start
    }
}

pub proof fn lemma_field_end(data: Seq<char>, start: int)
    requires
        0 <= start <= data.len(),
    ensures
        start <= field_end(data, start) <= data.len(),
        start < data.len() && !text::is_white(data[start]) ==> start < field_end(data, start),
    decreases data.len() - start,
{
    if start < data.len() && !text::is_white(data[start]) {
        lemma_field_end(data, start + 1);
    }
}

/// The fields of a line from a place on: what stands between white space.
pub open spec fn fields_from(data: Seq<char>, start: int) -> Seq<Seq<char>>
    decreases data.len() - start,
    when 0 <= start
    via fields_decrease
{
    let from = text::skip_white(data, start, data.len() as int);
    if from >= data.len() {
        Seq::empty()
    } else {
        seq![data.subrange(from, field_end(data, from))] + fields_from(data, field_end(data, from))
    }
}

#[via_fn]
proof fn fields_decrease(data: Seq<char>, start: int) {
    if start <= data.len() {
        text::lemma_skip_white(data, start, data.len() as int);
        let from = text::skip_white(data, start, data.len() as int);
        if from < data.len() {
            lemma_field_end(data, from);
        }
    }
}

/// The fields of a line.
pub open spec fn fields(data: Seq<char>) -> Seq<Seq<char>> {
    fields_from(data, 0)
}

/// The row of a line that holds data.
pub open spec fn data_row(data: Seq<char>, line: nat) -> Result<Pair, LoadErrorView> {
    let found = fields(data);
    if found.len() != 2 {
        Err(LoadErrorView::InvalidFieldCount { line })
    } else {
        match (text::parsed_u32(found[0]), text::parsed_u32(found[1])) {
            (None, _) => Err(LoadErrorView::InvalidU32 { line, column: 1, value: found[0] }),
            (_, None) => Err(LoadErrorView::InvalidU32 { line, column: 2, value: found[1] }),
            (Some(first), Some(second)) => Ok((first, second)),
        }
    }
}

/// How many of some lines hold data.
pub open spec fn data_count(lines: Seq<Seq<char>>) -> nat
    decreases lines.len(),
{
    if lines.len() == 0 {
        0
    } else {
        data_count(lines.drop_last()) + if line_data(lines.last()) is Some {
            1nat
        } else {
            0
        }
    }
}

/// The rows of some lines, and the error of the first that is not a row.
pub open spec fn read_rows(lines: Seq<Seq<char>>) -> (Seq<Pair>, Option<LoadErrorView>)
    decreases lines.len(),
{
    if lines.len() == 0 {
        (Seq::empty(), None)
    } else {
        let (rows, problem) = read_rows(lines.drop_last());
        match (problem, line_data(lines.last())) {
            (None, Some(data)) => match data_row(data, lines.len()) {
                Ok(row) => (rows.push(row), None),
                Err(error) => (rows, Some(error)),
            },
            _ => (rows, problem),
        }
    }
}

/// Whether a line of data is that of a file which stands for one kept elsewhere.
pub open spec fn is_pointer(lines: Seq<Seq<char>>) -> bool {
    exists|i: int| 0 <= i < lines.len() && line_data(#[trigger] lines[i]) == Some(pointer_line())
}

/// Lines give no more rows than hold data, and one row for each unless one is not a row.
pub proof fn lemma_row_count(lines: Seq<Seq<char>>)
    ensures
        read_rows(lines).0.len() <= data_count(lines),
        read_rows(lines).1 is None ==> read_rows(lines).0.len() == data_count(lines),
        read_rows(lines).1 is Some ==> read_rows(lines).0.len() < data_count(lines),
    decreases lines.len(),
{
    if lines.len() > 0 {
        lemma_row_count(lines.drop_last());
    }
}

/// What some first lines give, all give first, and a problem of the first ones is that of all.
proof fn lemma_rows_grow(lines: Seq<Seq<char>>, count: int)
    requires
        0 <= count <= lines.len(),
    ensures
        data_count(lines.take(count)) <= data_count(lines),
        read_rows(lines.take(count)).1 is Some ==> read_rows(lines) == read_rows(lines.take(count)),
    decreases lines.len() - count,
{
    if count < lines.len() {
        lemma_rows_grow(lines, count + 1);
        assert(lines.take(count + 1).drop_last() =~= lines.take(count));
    } else {
        assert(lines.take(count) =~= lines);
    }
}

/// The bounds of the data of a line.
fn data_line(line: &Vec<char>) -> (bounds: Option<(usize, usize)>)
    ensures
        match bounds {
            Some((start, end)) => {
                &&& start <= end <= line@.len()
                &&& line_data(line@) == Some(line@.subrange(start as int, end as int))
            },
            None => line_data(line@) is None,
        },
{
    let (start, end) = trim_bounds(line, 0, line.len());
    assert(line@.subrange(0, line@.len() as int) =~= line@);
    if start == end || line[start] == '#' || line[start] == '%' {
        None
    } else {
        Some((start, end))
    }
}

fn is_pointer_line(line: &Vec<char>, start: usize, end: usize) -> (pointer: bool)
    requires
        start <= end <= line@.len(),
    ensures
        pointer == (line@.subrange(start as int, end as int) == pointer_line()),
{
    let data = text_between(line, start, end);
    text::same_text(data.as_str(), "version https://git-lfs.github.com/spec/v1")
}

/// How many rows a text holds.
pub fn count_rows(source: &str, path: &str) -> (result: Result<usize, LoadError>)
    ensures
        match result {
            Ok(rows) => {
                &&& !is_pointer(text::lines(source@))
                &&& rows == data_count(text::lines(source@))
            },
            Err(error) => {
                &&& is_pointer(text::lines(source@))
                &&& error@ == LoadErrorView::GitLfsPointer(path@)
            },
        },
{
    let lines = split_lines(source);
    let ghost views = text::lines(source@);
    let mut rows: usize = 0;
    let mut i: usize = 0;
    assert(views.take(0) =~= Seq::<Seq<char>>::empty());
    while i < lines.len()
        invariant
            i <= lines@.len(),
            views == text::line_views(lines@),
            views == text::lines(source@),
            rows == data_count(views.take(i as int)),
            rows <= i,
            forall|j: int| 0 <= j < i ==> line_data(#[trigger] views[j]) != Some(pointer_line()),
        decreases lines@.len() - i,
    {
        proof {
            assert(views[i as int] == lines@[i as int]@);
            assert(views.take(i + 1).drop_last() =~= views.take(i as int));
        }
        match data_line(&lines[i]) {
            Some((start, end)) => {
                if is_pointer_line(&lines[i], start, end) {
                    assert(line_data(views[i as int]) == Some(pointer_line()));
                    assert(is_pointer(views));
                    return Err(LoadError::GitLfsPointer(path.to_owned()));
                }
                rows += 1;
            },
            None => {},
        }
        i += 1;
    }
    assert(views.take(views.len() as int) =~= views);
    assert(!is_pointer(views));
    Ok(rows)
}

/// The end of a field.
fn find_field_end(line: &Vec<char>, from: usize, end: usize, Ghost(start): Ghost<int>) -> (found: usize)
    requires
        0 <= start <= from <= end <= line@.len(),
    ensures
        from <= found <= end,
        found - start == field_end(line@.subrange(start, end as int), from - start),
{
    let ghost data = line@.subrange(start, end as int);
    let mut at: usize = from;
    while at < end && !white(line[at])
        invariant
            0 <= start <= from <= at <= end <= line@.len(),
            data == line@.subrange(start, end as int),
            field_end(data, from - start) == field_end(data, at - start),
        decreases end - at,
    {
        assert(data[at - start] == line@[at as int]);
        at += 1;
    }
    proof {
        if at < end {
            assert(data[at - start] == line@[at as int]);
        }
    }
    at
}

/// The start of a field.
fn find_field(line: &Vec<char>, from: usize, end: usize, Ghost(start): Ghost<int>) -> (found: usize)
    requires
        0 <= start <= from <= end <= line@.len(),
    ensures
        from <= found <= end,
        found - start == text::skip_white(
            line@.subrange(start, end as int),
            from - start,
            end - start,
        ),
{
    let ghost data = line@.subrange(start, end as int);
    let mut at: usize = from;
    while at < end && white(line[at])
        invariant
            0 <= start <= from <= at <= end <= line@.len(),
            data == line@.subrange(start, end as int),
            text::skip_white(data, from - start, end - start) == text::skip_white(
                data,
                at - start,
                end - start,
            ),
        decreases end - at,
    {
        assert(data[at - start] == line@[at as int]);
        at += 1;
    }
    proof {
        if at < end {
            assert(data[at - start] == line@[at as int]);
        }
    }
    at
}

/// The bounds of the two fields of a line, if it has two.
fn two_fields(line: &Vec<char>, start: usize, end: usize) -> (found: Option<
    (usize, usize, usize, usize),
>)
    requires
        start <= end <= line@.len(),
    ensures
        match found {
            Some((a, b, c, d)) => {
                &&& start <= a <= b <= c <= d <= end
                &&& fields(line@.subrange(start as int, end as int)) == seq![
                    line@.subrange(a as int, b as int),
                    line@.subrange(c as int, d as int),
                ]
            },
            None => fields(line@.subrange(start as int, end as int)).len() != 2,
        },
{
    let ghost data = line@.subrange(start as int, end as int);
    let ghost from: int = start as int;
    proof {
        reveal_with_fuel(fields_from, 4);
    }
    let a: usize = find_field(line, start, end, Ghost(from));
    if a == end {
        return None;
    }
    let b: usize = find_field_end(line, a, end, Ghost(from));
    let c: usize = find_field(line, b, end, Ghost(from));
    if c == end {
        return None;
    }
    let d: usize = find_field_end(line, c, end, Ghost(from));
    let e: usize = find_field(line, d, end, Ghost(from));
    proof {
        assert(data.subrange(a - from, b - from) =~= line@.subrange(a as int, b as int));
        assert(data.subrange(c - from, d - from) =~= line@.subrange(c as int, d as int));
        assert(fields_from(data, b - from) == seq![data.subrange(c - from, d - from)]
            + fields_from(data, d - from));
        assert(fields_from(data, 0) == seq![data.subrange(a - from, b - from)] + fields_from(
            data,
            b - from,
        ));
    }
    if e < end {
        proof {
            assert(fields_from(data, d - from).len() >= 1);
        }
        return None;
    }
    proof {
        assert(fields_from(data, d - from) =~= Seq::<Seq<char>>::empty());
        assert(fields(data) =~= seq![
            line@.subrange(a as int, b as int),
            line@.subrange(c as int, d as int),
        ]);
    }
    Some((a, b, c, d))
}

fn parse_u32(line: &Vec<char>, start: usize, end: usize, number: usize, column: usize) -> (result: Result<
    u32,
    LoadError,
>)
    requires
        start <= end <= line@.len(),
    ensures
        match text::parsed_u32(line@.subrange(start as int, end as int)) {
            Some(value) => result is Ok && result->Ok_0 == value,
            None => result is Err && result->Err_0@ == (LoadErrorView::InvalidU32 {
                line: number as nat,
                column: column as nat,
                value: line@.subrange(start as int, end as int),
            }),
        },
{
    match parse_u32_text(line, start, end) {
        Some(value) => Ok(value),
        None => Err(
            LoadError::InvalidU32 {
                line: number,
                column,
                value: text_between(line, start, end),
            },
        ),
    }
}

/// The first of some pairs, then what stood there before.
pub open spec fn written_first(rows: Seq<Pair>, before: Seq<u32>) -> Seq<u32> {
    Seq::new(
        before.len(),
        |i: int|
            if i < rows.len() {
                rows[i].0
            } else {
                before[i]
            },
    )
}

/// The second of some pairs, then what stood there before.
pub open spec fn written_second(rows: Seq<Pair>, before: Seq<u32>) -> Seq<u32> {
    Seq::new(
        before.len(),
        |i: int|
            if i < rows.len() {
                rows[i].1
            } else {
                before[i]
            },
    )
}

/// Whether columns have room for the rows of a text, and none to spare if it is well-formed.
pub open spec fn room_for(source: Seq<char>, left: nat, right: nat) -> bool {
    let lines = text::lines(source);
    &&& data_count(lines) <= left
    &&& data_count(lines) <= right
    &&& read_rows(lines).1 is None ==> data_count(lines) == left
}

/// Writes the rows of a text into two columns.
pub fn populate_columns(source: &str, left: &mut [u32], right: &mut [u32]) -> (result: Result<
    (),
    LoadError,
>)
    requires
        room_for(source@, old(left)@.len(), old(right)@.len()),
    ensures
        match read_rows(text::lines(source@)).1 {
            Some(error) => result is Err && result->Err_0@ == error,
            None => {
                &&& result is Ok
                &&& final(left)@ == written_first(
                    read_rows(text::lines(source@)).0,
                    old(left)@,
                )
            },
        },
        final(left)@.len() == old(left)@.len(),
        forall|i: int|
            0 <= i < old(left)@.len() && i != read_rows(text::lines(source@)).0.len()
                ==> #[trigger] final(left)@[i] == written_first(
                read_rows(text::lines(source@)).0,
                old(left)@,
            )[i],
        final(right)@ == written_second(read_rows(text::lines(source@)).0, old(right)@),
{
    let lines = split_lines(source);
    let ghost views = text::lines(source@);
    let ghost before_left = left@;
    let ghost before_right = right@;
    let mut row: usize = 0;
    let mut i: usize = 0;
    proof {
        assert(views.take(0) =~= Seq::<Seq<char>>::empty());
        assert(written_first(Seq::empty(), before_left) =~= before_left);
        assert(written_second(Seq::empty(), before_right) =~= before_right);
    }
    while i < lines.len()
        invariant
            i <= lines@.len(),
            views == text::line_views(lines@),
            views == text::lines(source@),
            before_left == old(left)@,
            before_right == old(right)@,
            data_count(views) <= before_left.len(),
            data_count(views) <= before_right.len(),
            read_rows(views.take(i as int)).1 is None,
            row == read_rows(views.take(i as int)).0.len(),
            left@ == written_first(read_rows(views.take(i as int)).0, before_left),
            right@ == written_second(read_rows(views.take(i as int)).0, before_right),
        decreases lines@.len() - i,
    {
        let line = &lines[i];
        let ghost next = views.take(i + 1);
        let ghost rows = read_rows(views.take(i as int)).0;
        let number: usize = i + 1;
        proof {
            assert(views[i as int] == line@);
            assert(next.drop_last() =~= views.take(i as int));
            assert(next.last() == line@);
            assert(next.len() == number);
            lemma_rows_grow(views, i + 1);
            lemma_row_count(views.take(i as int));
            if read_rows(next).1 is Some {
                lemma_rows_grow(views, i + 1);
            }
        }
        match data_line(line) {
            None => {},
            Some((start, end)) => {
                let ghost data = line@.subrange(start as int, end as int);
                let (a, b, c, d) = match two_fields(line, start, end) {
                    Some(found) => found,
                    None => {
                        return Err(LoadError::InvalidFieldCount { line: number });
                    },
                };
                let first: u32 = match parse_u32(line, a, b, number, 1) {
                    Ok(first) => first,
                    Err(error) => {
                        return Err(error);
                    },
                };
                left[row] = first;
                let second: u32 = match parse_u32(line, c, d, number, 2) {
                    Ok(second) => second,
                    Err(error) => {
                        return Err(error);
                    },
                };
                right[row] = second;
                row += 1;
                proof {
                    assert(read_rows(next).0 == rows.push((first, second)));
                    assert(left@ =~= written_first(read_rows(next).0, before_left));
                    assert(right@ =~= written_second(read_rows(next).0, before_right));
                }
            },
        }
        i += 1;
    }
    assert(views.take(views.len() as int) =~= views);
    Ok(())
}

/// Reads a relation from the text of a file: two numbers to a line, with white space between them.
/// Empty lines are passed over, and those that begin with `#` or `%`.
pub fn load_binary_u32(path: &str, source: &str) -> (result: Result<Relation, LoadError>)
    ensures
        is_pointer(text::lines(source@)) ==> result is Err && result->Err_0@
            == LoadErrorView::GitLfsPointer(path@),
        !is_pointer(text::lines(source@)) ==> {
            let lines = text::lines(source@);
            let (rows, problem) = read_rows(lines);
            if !storage::size_fits::<u32>(data_count(lines)) {
                result is Err && result->Err_0@ == LoadErrorView::Storage(
                    storage::Error::LengthOverflow,
                )
            } else {
                match problem {
                    Some(error) => result is Err && result->Err_0@ == error,
                    None => {
                        &&& result is Ok
                        &&& result->Ok_0.wf()
                        &&& result->Ok_0.contents() == seq![
                            Seq::new(rows.len(), |i: int| rows[i].0),
                            Seq::new(rows.len(), |i: int| rows[i].1),
                        ]
                    },
                }
            }
        },
{
    broadcast use vstd::layout::layout_of_primitives;

    let rows: usize = match count_rows(source, path) {
        Ok(rows) => rows,
        Err(error) => {
            return Err(error);
        },
    };
    let mut left = match Column::new_filled(rows, 0) {
        Ok(left) => left,
        Err(error) => {
            return Err(LoadError::Storage(error));
        },
    };
    let mut right = match Column::new_filled(rows, 0) {
        Ok(right) => right,
        Err(error) => {
            return Err(LoadError::Storage(error));
        },
    };
    proof {
        lemma_row_count(text::lines(source@));
    }
    match populate_columns(source, left.as_mut_slice(), right.as_mut_slice()) {
        Ok(_) => {},
        Err(error) => {
            return Err(error);
        },
    }
    let ghost found = read_rows(text::lines(source@)).0;
    let mut columns: Vec<Column> = Vec::new();
    proof {
        assert(left@ =~= Seq::new(found.len(), |i: int| found[i].0));
        assert(right@ =~= Seq::new(found.len(), |i: int| found[i].1));
    }
    columns.push(left);
    columns.push(right);
    proof {
        assert(storage::column_views(columns@) =~= seq![
            Seq::new(found.len(), |i: int| found[i].0),
            Seq::new(found.len(), |i: int| found[i].1),
        ]);
    }
    match Relation::from_columns(columns) {
        Ok(relation) => Ok(relation),
        Err(error) => Err(LoadError::Storage(error)),
    }
}

} // verus!
