//! Reading facts from delimited text.
use vstd::prelude::*;

use crate::ast;
use crate::ast::ConstantView;
use crate::catalog::InternedValue;
use crate::parallel::par_map;
use crate::text;
use crate::text::{
    char_width, decimal_text, parse_u32_text, split_lines, text_between, text_of, trim_bounds,
};

verus! {

/// How the fields of a record are told apart, and whether the first line is a header.
#[derive(Debug, Clone, Copy, PartialEq, Eq)]
pub struct DelimitedOptions {
    pub delimiter: u8,
    pub has_header: bool,
}

impl Default for DelimitedOptions {
    /// Comma-separated fields, no header.
    fn default() -> (options: Self)
        ensures
            options.delimiter == 0x2c,
            !options.has_header,
    {
        DelimitedOptions { delimiter: 0x2c, has_header: false }
    }
}

/// What a delimited error says.
#[verifier::ext_equal]
pub struct DelimitedErrorView {
    pub line: nat,
    pub column: nat,
    pub message: Seq<char>,
}

/// A record that holds no tuple, with its place: lines and columns count from one, columns in
/// bytes.
#[derive(Debug, Clone, PartialEq, Eq)]
pub struct DelimitedError {
    pub line: usize,
    pub column: usize,
    pub message: String,
}

impl View for DelimitedError {
    type V = DelimitedErrorView;

    open spec fn view(&self) -> DelimitedErrorView {
        DelimitedErrorView {
            line: self.line as nat,
            column: self.column as nat,
            message: self.message@,
        }
    }
}

/// The text of an error: its place and its message.
pub open spec fn delimited_error_text(error: DelimitedErrorView) -> Seq<char> {
    text::decimal(error.line) + ":"@ + text::decimal(error.column) + ": "@ + error.message
}

impl DelimitedError {
    pub fn message(&self) -> (message: String)
        ensures
            message@ == delimited_error_text(self@),
    {
        let mut message = decimal_text(self.line);
        message.append(":");
        let column = decimal_text(self.column);
        message.append(column.as_str());
        message.append(": ");
        message.append(self.message.as_str());
        message
    }

    fn at(line: usize, column: usize, message: &str) -> (error: Self)
        ensures
            error@ == (DelimitedErrorView {
                line: line as nat,
                column: column as nat,
                message: message@,
            }),
    {
        DelimitedError { line, column, message: message.to_owned() }
    }
}

/// Whether a character ends a field. Only an ASCII byte stands for a character.
pub open spec fn is_delimiter(c: char, delimiter: u8) -> bool {
    delimiter < 0x80 && c as u32 == delimiter as u32
}

/// What a quoted field holds whose characters begin at `start`, and where the record goes on after
/// its closing quote. Two quotes in a row stand for one. None if the field is not closed.
pub open spec fn quoted_field(record: Seq<char>, start: int, value: Seq<char>) -> Option<
    (int, Seq<char>),
>
    decreases record.len() - start,
{
    if start >= record.len() {
        None
    } else if record[start] == '"' {
        if start + 1 < record.len() && record[start + 1] == '"' {
            quoted_field(record, start + 2, value.push('"'))
        } else {
            Some((start + 1, value))
        }
    } else {
        quoted_field(record, start + 1, value.push(record[start]))
    }
}

/// Where a bare field ends that begins at `start`.
pub open spec fn field_end(record: Seq<char>, start: int, delimiter: u8) -> int
    decreases record.len() - start,
{
    if start < record.len() && !is_delimiter(record[start], delimiter) {
        field_end(record, start + 1, delimiter)
    } else {
        start
    }
}

/// The value of a bare field: a number where it reads as one, a symbol otherwise.
pub open spec fn bare_value(field: Seq<char>) -> ConstantView {
    match text::parsed_u32(field) {
        Some(number) => ConstantView::U32(number),
        None => ConstantView::Symbol(field),
    }
}

pub open spec fn error_at(line: nat, column: nat, message: Seq<char>) -> DelimitedErrorView {
    DelimitedErrorView { line, column, message }
}

/// One field that begins at `start`: its value and where it ends.
pub open spec fn read_field(record: Seq<char>, start: int, line: nat, delimiter: u8) -> Result<
    (int, ConstantView),
    DelimitedErrorView,
> {
    let column = text::byte_offset(record, start) + 1;
    if start < record.len() && record[start] == '"' {
        match quoted_field(record, start + 1, Seq::empty()) {
            None => Err(error_at(line, column, "unterminated quoted field"@)),
            Some((end, value)) => if end < record.len() && !is_delimiter(record[end], delimiter) {
                Err(
                    error_at(
                        line,
                        text::byte_offset(record, end) + 1,
                        "expected delimiter after quoted field"@,
                    ),
                )
            } else {
                Ok((end, ConstantView::String(value)))
            },
        }
    } else {
        let end = field_end(record, start, delimiter);
        let field = text::trimmed(record.subrange(start, end));
        if field.len() == 0 {
            Err(error_at(line, column, "empty fields are not values"@))
        } else {
            Ok((end, bare_value(field)))
        }
    }
}

/// The values of a record from `start` on, after those already read.
pub open spec fn record_from(
    record: Seq<char>,
    start: int,
    line: nat,
    delimiter: u8,
    values: Seq<ConstantView>,
) -> Result<Seq<ConstantView>, DelimitedErrorView>
    decreases record.len() - start,
{
    match read_field(record, start, line, delimiter) {
        Err(error) => Err(error),
        Ok((end, value)) => if end < start || end >= record.len() {
            Ok(values.push(value))
        } else if end + 1 == record.len() {
            Err(
                error_at(
                    line,
                    text::byte_offset(record, end + 1),
                    "record ends with an empty field"@,
                ),
            )
        } else {
            record_from(record, end + 1, line, delimiter, values.push(value))
        },
    }
}

/// The values of one record.
pub open spec fn record_values(record: Seq<char>, line: nat, delimiter: u8) -> Result<
    Seq<ConstantView>,
    DelimitedErrorView,
> {
    record_from(record, 0, line, delimiter, Seq::empty())
}

/// What one line contributes: nothing where it is blank or the header, else its record.
pub open spec fn line_record(lines: Seq<Seq<char>>, index: int, options: DelimitedOptions) -> Option<
    Result<Seq<ConstantView>, DelimitedErrorView>,
> {
    if (options.has_header && index == 0) || text::trimmed(lines[index]).len() == 0 {
        None
    } else {
        Some(record_values(lines[index], (index + 1) as nat, options.delimiter))
    }
}

/// The records of the first `count` lines, or the first error among them.
pub open spec fn records(lines: Seq<Seq<char>>, count: int, options: DelimitedOptions) -> Result<
    Seq<Seq<ConstantView>>,
    DelimitedErrorView,
>
    decreases count,
{
    if count <= 0 {
        Ok(Seq::empty())
    } else {
        match records(lines, count - 1, options) {
            Err(error) => Err(error),
            Ok(rows) => match line_record(lines, count - 1, options) {
                None => Ok(rows),
                Some(Err(error)) => Err(error),
                Some(Ok(row)) => Ok(rows.push(row)),
            },
        }
    }
}

/// Whether a byte may not separate fields: ASCII white space other than the tab.
pub open spec fn is_blank_delimiter(delimiter: u8) -> bool {
    delimiter == 0x20 || delimiter == 0x0a || delimiter == 0x0c || delimiter == 0x0d
}

/// The tuples that a delimited text holds, in the order of its lines.
pub open spec fn delimited(source: Seq<char>, options: DelimitedOptions) -> Result<
    Seq<Seq<ConstantView>>,
    DelimitedErrorView,
> {
    if is_blank_delimiter(options.delimiter) {
        Err(error_at(0, 0, "delimiter must be a visible ASCII byte or tab"@))
    } else {
        let lines = text::lines(source);
        records(lines, lines.len() as int, options)
    }
}

/// The views of the values of each row.
pub open spec fn row_views(rows: Seq<Vec<InternedValue>>) -> Seq<Seq<ConstantView>> {
    Seq::new(rows.len(), |i: int| ast::views(rows[i]@))
}

/// Whether byte columns of a text, counted from one, are machine numbers.
pub open spec fn fits(text: Seq<char>) -> bool {
    text::byte_offset(text, text.len() as int) < usize::MAX
}

/// Whether there is a line of this number, with columns that are machine numbers.
pub open spec fn has_line(lines: Seq<Vec<char>>, index: int) -> bool {
    0 <= index < lines.len() && fits(lines[index]@)
}

/// Whether what was read from a line is what the line contributes.
pub open spec fn is_line_result(
    result: Option<Result<Vec<InternedValue>, DelimitedError>>,
    expected: Option<Result<Seq<ConstantView>, DelimitedErrorView>>,
) -> bool {
    match (result, expected) {
        (None, None) => true,
        (Some(Ok(values)), Some(Ok(row))) => ast::views(values@) == row,
        (Some(Err(error)), Some(Err(first))) => error@ == first,
        _ => false,
    }
}

/// Whether a result is what the line of this number contributes.
pub open spec fn is_read(
    lines: Seq<Vec<char>>,
    index: usize,
    options: DelimitedOptions,
    result: Option<Result<Vec<InternedValue>, DelimitedError>>,
) -> bool {
    is_line_result(result, line_record(text::line_views(lines), index as int, options))
}

fn delimits(c: char, delimiter: u8) -> (result: bool)
    ensures
        result == is_delimiter(c, delimiter),
{
    delimiter < 0x80 && c as u32 == delimiter as u32
}

proof fn lemma_field_end(record: Seq<char>, start: int, delimiter: u8)
    requires
        0 <= start <= record.len(),
    ensures
        start <= field_end(record, start, delimiter) <= record.len(),
    decreases record.len() - start,
{
    if start < record.len() && !is_delimiter(record[start], delimiter) {
        lemma_field_end(record, start + 1, delimiter);
    }
}

/// Reads a quoted field whose characters begin at `start`.
fn read_quoted(record: &Vec<char>, start: usize) -> (result: Option<
    (usize, String),
>)
    requires
        start <= record@.len(),
    ensures
        match (result, quoted_field(record@, start as int, Seq::empty())) {
            (None, None) => true,
            (Some((end, value)), Some((expected_end, expected))) => {
                &&& end == expected_end
                &&& value@ == expected
                &&& start < end <= record@.len()
            },
            _ => false,
        },
{
    let mut value: Vec<char> = Vec::new();
    let mut i: usize = start;
    while i < record.len()
        invariant
            start <= i <= record@.len(),
            quoted_field(record@, start as int, Seq::empty()) == quoted_field(
                record@,
                i as int,
                value@,
            ),
        decreases record@.len() - i,
    {
        let c = record[i];
        if c == '"' {
            if record.len() - i > 1 && record[i + 1] == '"' {
                value.push('"');
                i += 2;
            } else {
                return Some((i + 1, text_of(value.as_slice())));
            }
        } else {
            value.push(c);
            i += 1;
        }
    }
    None
}

/// The byte offset of a character of a record.
fn byte_position(record: &Vec<char>, index: usize) -> (offset: usize)
    requires
        index <= record@.len(),
        fits(record@),
    ensures
        offset == text::byte_offset(record@, index as int),
        offset < usize::MAX,
{
    let mut offset: usize = 0;
    let mut i: usize = 0;
    while i < index
        invariant
            i <= index <= record@.len(),
            offset == text::byte_offset(record@, i as int),
            fits(record@),
        decreases index - i,
    {
        proof {
            text::lemma_byte_offset_monotonic(record@, i + 1, record@.len() as int);
        }
        offset += char_width(record[i]);
        i += 1;
    }
    proof {
        text::lemma_byte_offset_monotonic(record@, index as int, record@.len() as int);
    }
    offset
}

/// Reads one field that begins at `start`.
fn parse_field(record: &Vec<char>, start: usize, line: usize, delimiter: u8) -> (result: Result<
    (usize, InternedValue),
    DelimitedError,
>)
    requires
        start <= record@.len(),
        fits(record@),
    ensures
        match (result, read_field(record@, start as int, line as nat, delimiter)) {
            (Ok((end, value)), Ok((expected_end, expected))) => {
                &&& end == expected_end
                &&& value@ == expected
                &&& start <= end <= record@.len()
            },
            (Err(error), Err(expected)) => error@ == expected,
            _ => false,
        },
{
    if start < record.len() && record[start] == '"' {
        match read_quoted(record, start + 1) {
            None => {
                let column: usize = byte_position(record, start) + 1;
                Err(DelimitedError::at(line, column, "unterminated quoted field"))
            },
            Some((end, value)) => {
                if end < record.len() && !delimits(record[end], delimiter) {
                    let column: usize = byte_position(record, end) + 1;
                    Err(DelimitedError::at(line, column, "expected delimiter after quoted field"))
                } else {
                    Ok((end, InternedValue::String(value)))
                }
            },
        }
    } else {
        let mut end: usize = start;
        while end < record.len() && !delimits(record[end], delimiter)
            invariant
                start <= end <= record@.len(),
                field_end(record@, start as int, delimiter) == field_end(
                    record@,
                    end as int,
                    delimiter,
                ),
            decreases record@.len() - end,
        {
            end += 1;
        }
        let (first, last) = trim_bounds(record, start, end);
        let ghost field = text::trimmed(record@.subrange(start as int, end as int));
        assert(field == record@.subrange(first as int, last as int));
        if first == last {
            let column: usize = byte_position(record, start) + 1;
            return Err(DelimitedError::at(line, column, "empty fields are not values"));
        }
        let value = match parse_u32_text(record, first, last) {
            Some(number) => InternedValue::U32(number),
            None => InternedValue::Symbol(text_between(record, first, last)),
        };
        Ok((end, value))
    }
}

/// Reads the values of one record.
fn parse_record(record: &Vec<char>, line: usize, delimiter: u8) -> (result: Result<
    Vec<InternedValue>,
    DelimitedError,
>)
    requires
        fits(record@),
    ensures
        match (result, record_values(record@, line as nat, delimiter)) {
            (Ok(values), Ok(expected)) => ast::views(values@) == expected,
            (Err(error), Err(expected)) => error@ == expected,
            _ => false,
        },
{
    let mut values: Vec<InternedValue> = Vec::new();
    let mut start: usize = 0;
    assert(ast::views(values@) =~= Seq::<ConstantView>::empty());
    loop
        invariant
            start <= record@.len(),
            fits(record@),
            record_values(record@, line as nat, delimiter) == record_from(
                record@,
                start as int,
                line as nat,
                delimiter,
                ast::views(values@),
            ),
        decreases record@.len() - start,
    {
        match parse_field(record, start, line, delimiter) {
            Err(error) => {
                return Err(error);
            },
            Ok((end, value)) => {
                proof {
                    ast::lemma_views_push(values@, value);
                }
                values.push(value);
                if end == record.len() {
                    return Ok(values);
                }
                if record.len() - end == 1 {
                    let column: usize = byte_position(record, end + 1);
                    return Err(
                        DelimitedError::at(line, column, "record ends with an empty field"),
                    );
                }
                start = end + 1;
            },
        }
    }
}

/// Reads the record of one line, unless the line holds none.
fn parse_line(lines: &Vec<Vec<char>>, index: usize, options: DelimitedOptions) -> (result: Option<
    Result<Vec<InternedValue>, DelimitedError>,
>)
    requires
        has_line(lines@, index as int),
    ensures
        is_line_result(result, line_record(text::line_views(lines@), index as int, options)),
{
    assert(index < lines.len());
    let record = &lines[index];
    let (first, last) = trim_bounds(record, 0, record.len());
    assert(record@.subrange(0, record@.len() as int) =~= record@);
    assert(text::line_views(lines@)[index as int] == record@);
    if (options.has_header && index == 0) || first == last {
        None
    } else {
        Some(parse_record(record, index + 1, options.delimiter))
    }
}

/// Reads the tuples of a delimited text. Lines are read in parallel; the result is in the order of
/// the lines, and the error is that of the first line that has one.
pub fn parse_delimited_parallel(source: &str, options: DelimitedOptions) -> (result: Result<
    Vec<Vec<InternedValue>>,
    DelimitedError,
>)
    requires
        fits(source@),
    ensures
        match (result, delimited(source@, options)) {
            (Ok(rows), Ok(expected)) => row_views(rows@) == expected,
            (Err(error), Err(expected)) => error@ == expected,
            _ => false,
        },
{
    let delimiter: u8 = options.delimiter;
    if delimiter == 0x20 || delimiter == 0x0a || delimiter == 0x0c || delimiter == 0x0d {
        return Err(DelimitedError::at(0, 0, "delimiter must be a visible ASCII byte or tab"));
    }
    let lines = split_lines(source);
    let read_line = |index: usize| -> (result: Option<Result<Vec<InternedValue>, DelimitedError>>)
        requires
            has_line(lines@, index as int),
        ensures
            is_read(lines@, index, options, result),
    {
        parse_line(&lines, index, options)
    };
    let parsed = par_map(lines.len(), read_line);
    let ghost views = text::line_views(lines@);
    proof {
        assert(views == text::lines(source@));
        assert forall|i: int| 0 <= i < views.len() implies is_line_result(
            #[trigger] parsed@[i],
            line_record(views, i, options),
        ) by {
            assert(call_ensures(read_line, (i as usize,), parsed@[i as usize as int]));
        }
    }
    let mut rows: Vec<Vec<InternedValue>> = Vec::new();
    assert(row_views(rows@) =~= Seq::<Seq<ConstantView>>::empty());
    for item in iter: parsed
        invariant
            views == text::lines(source@),
            views.len() == lines@.len(),
            iter.seq().len() == views.len(),
            !is_blank_delimiter(options.delimiter),
            records(views, iter.index() as int, options) is Ok,
            records(views, iter.index() as int, options)->Ok_0 == row_views(rows@),
            forall|i: int|
                0 <= i < views.len() ==> is_line_result(
                    #[trigger] iter.seq()[i],
                    line_record(views, i, options),
                ),
    {
        match item {
            None => {},
            Some(Ok(values)) => {
                proof {
                    assert(row_views(rows@.push(values)) =~= row_views(rows@).push(
                        ast::views(values@),
                    ));
                }
                rows.push(values);
            },
            Some(Err(error)) => {
                proof {
                    assert(iter.seq()[iter.index() as int] == item);
                    lemma_error_stays(views, iter.index() as int + 1, views.len() as int, options);
                }
                return Err(error);
            },
        }
    }
    Ok(rows)
}

/// An error among the first lines is the error of the whole.
proof fn lemma_error_stays(
    lines: Seq<Seq<char>>,
    low: int,
    high: int,
    options: DelimitedOptions,
)
    requires
        0 <= low <= high,
        records(lines, low, options) is Err,
    ensures
        records(lines, high, options) == records(lines, low, options),
    decreases high - low,
{
    if low < high {
        lemma_error_stays(lines, low, high - 1, options);
    }
}

} // verus!
