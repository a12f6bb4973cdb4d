//! What the records of delimited texts hold.
use vstd::prelude::*;
use vstd::utf8::*;

use crate::ast::ConstantView;
use crate::ingest;
use crate::ingest::{DelimitedErrorView, DelimitedOptions};
use crate::text;
use crate::text_laws;

verus! {

/// A text with every quote written twice.
pub open spec fn doubled(value: Seq<char>) -> Seq<char>
    decreases value.len(),
{
    if value.len() == 0 {
        Seq::empty()
    } else if value[0] == '"' {
        seq!['"', '"'] + doubled(value.drop_first())
    } else {
        seq![value[0]] + doubled(value.drop_first())
    }
}

/// A text as a quoted field: between quotes, with its own quotes doubled.
pub open spec fn as_quoted(value: Seq<char>) -> Seq<char> {
    seq!['"'] + doubled(value) + seq!['"']
}

/// Reading a quoted text from a place on gives what was read before it and the text.
proof fn lemma_quoted_reads(record: Seq<char>, start: int, before: Seq<char>, value: Seq<char>)
    requires
        0 <= start,
        start + doubled(value).len() < record.len(),
        record.subrange(start, start + doubled(value).len()) == doubled(value),
        record[start + doubled(value).len()] == '"',
        start + doubled(value).len() + 1 < record.len() ==> record[start + doubled(value).len() + 1]
            != '"',
    ensures
        ingest::quoted_field(record, start, before) == Some(
            (start + doubled(value).len() + 1, before + value),
        ),
    decreases value.len(),
{
    let all = doubled(value);
    if value.len() > 0 {
        let rest = value.drop_first();
        let n: int = if value[0] == '"' {
            2
        } else {
            1
        };
        assert(all.len() == n + doubled(rest).len());
        assert forall|k: int| 0 <= k < all.len() implies record[start + k] == #[trigger] all[k] by {
            assert(record.subrange(start, start + all.len())[k] == all[k]);
        }
        assert(record[start + 0] == all[0]);
        if n == 2 {
            assert(record[start + 1] == all[1]);
        }
        assert(record.subrange(start + n, start + n + doubled(rest).len()) =~= doubled(rest)) by {
            assert forall|k: int| 0 <= k < doubled(rest).len() implies record[start + n + k]
                == doubled(rest)[k] by {
                assert(all[n + k] == doubled(rest)[k]);
                assert(record[start + (n + k)] == all[n + k]);
            }
        }
        lemma_quoted_reads(record, start + n, before.push(value[0]), rest);
        assert(before.push(value[0]) + rest =~= before + value);
    } else {
        assert(before + value =~= before);
    }
}

/// A quoted text is read back: a record that is one has it as its single value, whatever characters
/// it holds, the delimiter and quotes among them.
pub proof fn law_quoted_text_reads_back(value: Seq<char>, line: nat, delimiter: u8)
    ensures
        ingest::record_values(as_quoted(value), line, delimiter) == Ok::<
            Seq<ConstantView>,
            DelimitedErrorView,
        >(seq![ConstantView::String(value)]),
{
    let record = as_quoted(value);
    let n = doubled(value).len() as int;
    assert(record.subrange(1, 1 + n) =~= doubled(value));
    lemma_quoted_reads(record, 1, Seq::empty(), value);
    assert(Seq::<char>::empty() + value =~= value);
    assert(Seq::<ConstantView>::empty().push(ConstantView::String(value)) =~= seq![
        ConstantView::String(value),
    ]);
}

/// The value of a field without quotes: a number where it reads as one, and else a symbol, without
/// the white space at its ends.
pub open spec fn plain_value(field: Seq<char>) -> ConstantView {
    match text::parsed_u32(text::trimmed(field)) {
        Some(number) => ConstantView::U32(number),
        None => ConstantView::Symbol(text::trimmed(field)),
    }
}

/// Whether characters are a field without quotes that holds something.
pub open spec fn is_plain(field: Seq<char>, delimiter: u8) -> bool {
    &&& field.len() > 0
    &&& field[0] != '"'
    &&& text::trimmed(field).len() > 0
    &&& forall|i: int|
        0 <= i < field.len() ==> !(delimiter < 0x80 && (#[trigger] field[i]) as u32
            == delimiter as u32)
}

proof fn lemma_plain_end(record: Seq<char>, start: int, end: int, delimiter: u8)
    requires
        0 <= start <= end <= record.len(),
        forall|i: int|
            start <= i < end ==> !(delimiter < 0x80 && (#[trigger] record[i]) as u32
                == delimiter as u32),
        end == record.len() || (delimiter < 0x80 && record[end] as u32 == delimiter as u32),
    ensures
        ingest::field_end(record, start, delimiter) == end,
    decreases end - start,
{
    if start < end {
        assert(!ingest::is_delimiter(record[start], delimiter));
        lemma_plain_end(record, start + 1, end, delimiter);
    }
}

/// A record of one field without quotes has its value.
pub proof fn law_plain_field_is_its_value(field: Seq<char>, line: nat, delimiter: u8)
    requires
        is_plain(field, delimiter),
    ensures
        ingest::record_values(field, line, delimiter) == Ok::<
            Seq<ConstantView>,
            DelimitedErrorView,
        >(seq![plain_value(field)]),
{
    let n = field.len() as int;
    lemma_plain_end(field, 0, n, delimiter);
    assert(field.subrange(0, n) =~= field);
    assert(Seq::<ConstantView>::empty().push(plain_value(field)) =~= seq![plain_value(field)]);
}

proof fn lemma_offset_shifted(front: Seq<char>, rest: Seq<char>, i: int)
    requires
        0 <= i <= rest.len(),
    ensures
        text::byte_offset(front + rest, front.len() + i) == text::byte_offset(
            front,
            front.len() as int,
        ) + text::byte_offset(rest, i),
    decreases i,
{
    let n = front.len() as int;
    if i > 0 {
        lemma_offset_shifted(front, rest, i - 1);
        assert((front + rest)[n + i - 1] == rest[i - 1]);
    } else {
        lemma_offset_prefix(front, rest, n);
    }
}

proof fn lemma_offset_prefix(front: Seq<char>, rest: Seq<char>, i: int)
    requires
        0 <= i <= front.len(),
    ensures
        text::byte_offset(front + rest, i) == text::byte_offset(front, i),
    decreases i,
{
    if i > 0 {
        lemma_offset_prefix(front, rest, i - 1);
        assert((front + rest)[i - 1] == front[i - 1]);
    }
}

proof fn lemma_quoted_shifted(front: Seq<char>, rest: Seq<char>, i: int, value: Seq<char>)
    requires
        0 <= i,
    ensures
        ingest::quoted_field(front + rest, front.len() + i, value) == match ingest::quoted_field(
            rest,
            i,
            value,
        ) {
            Some((end, found)) => Some((front.len() + end, found)),
            None => None,
        },
        ingest::quoted_field(rest, i, value) matches Some((end, _)) ==> i < end <= rest.len(),
    decreases rest.len() - i,
{
    let n = front.len() as int;
    if i < rest.len() {
        assert((front + rest)[n + i] == rest[i]);
        if i + 1 < rest.len() {
            assert((front + rest)[n + i + 1] == rest[i + 1]);
        }
        if rest[i] == '"' {
            if i + 1 < rest.len() && rest[i + 1] == '"' {
                lemma_quoted_shifted(front, rest, i + 2, value.push('"'));
            }
        } else {
            lemma_quoted_shifted(front, rest, i + 1, value.push(rest[i]));
        }
    }
}

proof fn lemma_field_shifted(front: Seq<char>, rest: Seq<char>, i: int, delimiter: u8)
    requires
        0 <= i <= rest.len(),
    ensures
        ingest::field_end(front + rest, front.len() + i, delimiter) == front.len()
            + ingest::field_end(rest, i, delimiter),
        i <= ingest::field_end(rest, i, delimiter) <= rest.len(),
    decreases rest.len() - i,
{
    if i < rest.len() {
        assert((front + rest)[front.len() + i] == rest[i]);
        lemma_field_shifted(front, rest, i + 1, delimiter);
    }
}

/// What is read of a record from a place behind some characters on: the same values, and errors as
/// many bytes further on.
proof fn lemma_record_shifted(
    front: Seq<char>,
    rest: Seq<char>,
    i: int,
    line: nat,
    delimiter: u8,
    before: Seq<ConstantView>,
    values: Seq<ConstantView>,
)
    requires
        0 <= i <= rest.len(),
    ensures
        ingest::record_from(front + rest, front.len() + i, line, delimiter, before + values)
            == match ingest::record_from(rest, i, line, delimiter, values) {
            Ok(found) => Ok::<Seq<ConstantView>, DelimitedErrorView>(before + found),
            Err(error) => Err(
                DelimitedErrorView {
                    column: error.column + text::byte_offset(front, front.len() as int),
                    ..error
                },
            ),
        },
    decreases rest.len() - i,
{
    let n = front.len() as int;
    let whole = front + rest;
    lemma_offset_shifted(front, rest, i);
    lemma_field_shifted(front, rest, i, delimiter);
    if i < rest.len() {
        assert(whole[n + i] == rest[i]);
    }
    if i < rest.len() && rest[i] == '"' {
        lemma_quoted_shifted(front, rest, i + 1, Seq::empty());
        if let Some((end, value)) = ingest::quoted_field(rest, i + 1, Seq::empty()) {
            lemma_offset_shifted(front, rest, end);
            if end < rest.len() {
                assert(whole[n + end] == rest[end]);
            }
        }
    } else {
        let end = ingest::field_end(rest, i, delimiter);
        assert(whole.subrange(n + i, n + end) =~= rest.subrange(i, end));
    }
    if let Ok((end, value)) = ingest::read_field(rest, i, line, delimiter) {
        assert((before + values).push(value) =~= before + values.push(value));
        if end < i || end >= rest.len() {
        } else if end + 1 == rest.len() {
            lemma_offset_shifted(front, rest, end + 1);
        } else {
            lemma_record_shifted(front, rest, end + 1, line, delimiter, before, values.push(value));
        }
    }
}

/// What a record gives behind a first field: its value before those of the rest, or the error of the
/// rest, as many bytes further on as the field and its delimiter take.
pub open spec fn follows(
    first: ConstantView,
    field: Seq<char>,
    rest: Result<Seq<ConstantView>, DelimitedErrorView>,
) -> Result<Seq<ConstantView>, DelimitedErrorView> {
    match rest {
        Ok(values) => Ok(seq![first] + values),
        Err(error) => Err(
            DelimitedErrorView { column: error.column + encode_utf8(field).len() + 1, ..error },
        ),
    }
}

proof fn lemma_follows(
    field: Seq<char>,
    d: char,
    rest: Seq<char>,
    line: nat,
    delimiter: u8,
    value: ConstantView,
)
    requires
        delimiter < 0x80,
        d as u32 == delimiter as u32,
        rest.len() > 0,
        ingest::read_field(field + seq![d] + rest, 0, line, delimiter) == Ok::<
            (int, ConstantView),
            DelimitedErrorView,
        >((field.len() as int, value)),
    ensures
        ingest::record_values(field + seq![d] + rest, line, delimiter) == follows(
            value,
            field,
            ingest::record_values(rest, line, delimiter),
        ),
{
    let front = field + seq![d];
    let whole = front + rest;
    let none = Seq::<ConstantView>::empty();
    assert(none.push(value) =~= seq![value] + none);
    lemma_record_shifted(front, rest, 0, line, delimiter, seq![value], none);
    text::lemma_byte_offset_is_encoded_length(field, field.len() as int);
    assert(field.take(field.len() as int) =~= field);
    lemma_offset_prefix(field, seq![d], field.len() as int);
    assert(front[field.len() as int] == d);
    assert(text::byte_offset(front, front.len() as int) == encode_utf8(field).len() + 1);
}

/// A record is its first field and the fields behind the first delimiter.
pub proof fn law_record_is_its_fields(
    field: Seq<char>,
    d: char,
    rest: Seq<char>,
    line: nat,
    delimiter: u8,
)
    requires
        delimiter < 0x80,
        d as u32 == delimiter as u32,
        rest.len() > 0,
        is_plain(field, delimiter),
    ensures
        ingest::record_values(field + seq![d] + rest, line, delimiter) == follows(
            plain_value(field),
            field,
            ingest::record_values(rest, line, delimiter),
        ),
{
    let whole = field + seq![d] + rest;
    let n = field.len() as int;
    assert forall|i: int| 0 <= i < n implies !(delimiter < 0x80 && (#[trigger] whole[i]) as u32
        == delimiter as u32) by {
        assert(whole[i] == field[i]);
    }
    assert(whole[n] == d);
    assert(whole[0] == field[0]);
    lemma_plain_end(whole, 0, n, delimiter);
    assert(whole.subrange(0, n) =~= field);
    lemma_follows(field, d, rest, line, delimiter, plain_value(field));
}

/// A record that starts with a quoted field is that field and those behind the delimiter that
/// follows its closing quote.
pub proof fn law_quoted_field_ends_at_its_quote(
    value: Seq<char>,
    d: char,
    rest: Seq<char>,
    line: nat,
    delimiter: u8,
)
    requires
        delimiter < 0x80,
        d as u32 == delimiter as u32,
        d != '"',
        rest.len() > 0,
    ensures
        ingest::record_values(as_quoted(value) + seq![d] + rest, line, delimiter) == follows(
            ConstantView::String(value),
            as_quoted(value),
            ingest::record_values(rest, line, delimiter),
        ),
{
    let field = as_quoted(value);
    let whole = field + seq![d] + rest;
    let n = doubled(value).len() as int;
    assert(whole.subrange(1, 1 + n) =~= doubled(value));
    assert(whole[n + 1] == '"');
    assert(whole[n + 2] == d);
    lemma_quoted_reads(whole, 1, Seq::empty(), value);
    assert(Seq::<char>::empty() + value =~= value);
    lemma_follows(field, d, rest, line, delimiter, ConstantView::String(value));
}

/// The errors of a record: a blank field, a delimiter that nothing follows, a quote that is not
/// closed, and characters behind a closing quote, each with its place in bytes.
pub proof fn law_record_errors(
    field: Seq<char>,
    value: Seq<char>,
    d: char,
    rest: Seq<char>,
    line: nat,
    delimiter: u8,
)
    requires
        delimiter < 0x80,
        d as u32 == delimiter as u32,
        d != '"',
    ensures
        (forall|i: int|
            0 <= i < field.len() ==> text::is_white(#[trigger] field[i]) && field[i] != d)
            ==> ingest::record_values(field + seq![d] + rest, line, delimiter) == Err::<
            Seq<ConstantView>,
            DelimitedErrorView,
        >(DelimitedErrorView { line, column: 1, message: "empty fields are not values"@ }),
        is_plain(field, delimiter) ==> ingest::record_values(field + seq![d], line, delimiter)
            == Err::<Seq<ConstantView>, DelimitedErrorView>(
            DelimitedErrorView {
                line,
                column: encode_utf8(field).len() + 1,
                message: "record ends with an empty field"@,
            },
        ),
        (forall|i: int| 0 <= i < value.len() ==> #[trigger] value[i] != '"')
            ==> ingest::record_values(seq!['"'] + value, line, delimiter) == Err::<
            Seq<ConstantView>,
            DelimitedErrorView,
        >(DelimitedErrorView { line, column: 1, message: "unterminated quoted field"@ }),
        rest.len() > 0 && rest[0] != d && rest[0] != '"' ==> ingest::record_values(
            as_quoted(value) + rest,
            line,
            delimiter,
        ) == Err::<Seq<ConstantView>, DelimitedErrorView>(
            DelimitedErrorView {
                line,
                column: encode_utf8(as_quoted(value)).len() + 1,
                message: "expected delimiter after quoted field"@,
            },
        ),
{
    let n = field.len() as int;
    let whole = field + seq![d] + rest;
    if forall|i: int| 0 <= i < field.len() ==> text::is_white(#[trigger] field[i]) && field[i] != d {
        assert forall|i: int| 0 <= i < n implies !(delimiter < 0x80 && (#[trigger] whole[i]) as u32
            == delimiter as u32) by {
            assert(whole[i] == field[i]);
            if whole[i] as u32 == d as u32 {
                lemma_same_char(whole[i], d);
            }
        }
        assert(whole[n] == d);
        if n > 0 {
            assert(whole[0] == field[0]);
        }
        lemma_plain_end(whole, 0, n, delimiter);
        assert(whole.subrange(0, n) =~= field);
        text_laws::law_trimmed(field, Seq::empty(), Seq::empty());
        assert(field + Seq::<char>::empty() + Seq::<char>::empty() =~= field);
    }
    if is_plain(field, delimiter) {
        let all = field + seq![d];
        assert forall|i: int| 0 <= i < n implies !(delimiter < 0x80 && (#[trigger] all[i]) as u32
            == delimiter as u32) by {
            assert(all[i] == field[i]);
        }
        assert(all[n] == d);
        assert(all[0] == field[0]);
        lemma_plain_end(all, 0, n, delimiter);
        assert(all.subrange(0, n) =~= field);
        text::lemma_byte_offset_is_encoded_length(field, n);
        assert(field.take(n) =~= field);
        lemma_offset_prefix(field, seq![d], n);
        assert(text::byte_offset(all, n + 1) == encode_utf8(field).len() + 1);
    }
    if forall|i: int| 0 <= i < value.len() ==> #[trigger] value[i] != '"' {
        let all = seq!['"'] + value;
        assert forall|i: int| 1 <= i < all.len() implies #[trigger] all[i] != '"' by {
            assert(all[i] == value[i - 1]);
        }
        lemma_open_field(all, 1, Seq::empty());
    }
    if rest.len() > 0 && rest[0] != d && rest[0] != '"' {
        let quoted = as_quoted(value);
        let all = quoted + rest;
        let m = doubled(value).len() as int;
        assert(all.subrange(1, 1 + m) =~= doubled(value));
        assert(all[m + 1] == '"');
        assert(all[m + 2] == rest[0]);
        lemma_quoted_reads(all, 1, Seq::empty(), value);
        if rest[0] as u32 == d as u32 {
            lemma_same_char(rest[0], d);
        }
        text::lemma_byte_offset_is_encoded_length(quoted, m + 2);
        assert(quoted.take(m + 2) =~= quoted);
        lemma_offset_prefix(quoted, rest, m + 2);
    }
}

proof fn lemma_same_char(a: char, b: char)
    requires
        a as u32 == b as u32,
    ensures
        a == b,
{
}

proof fn lemma_open_field(record: Seq<char>, start: int, value: Seq<char>)
    requires
        0 <= start <= record.len(),
        forall|i: int| start <= i < record.len() ==> #[trigger] record[i] != '"',
    ensures
        ingest::quoted_field(record, start, value) is None,
    decreases record.len() - start,
{
    if start < record.len() {
        assert(record[start] != '"');
        lemma_open_field(record, start + 1, value.push(record[start]));
    }
}

/// Whether a line of a text holds a record: it is not blank, and not the header.
pub open spec fn holds_record(lines: Seq<Seq<char>>, i: int, has_header: bool) -> bool {
    text::trimmed(lines[i]).len() > 0 && !(has_header && i == 0)
}

/// How many of some first lines hold a record.
pub open spec fn records_before(lines: Seq<Seq<char>>, count: int, has_header: bool) -> nat
    decreases count,
{
    if count <= 0 {
        0
    } else {
        records_before(lines, count - 1, has_header) + if holds_record(lines, count - 1, has_header) {
            1nat
        } else {
            0nat
        }
    }
}

proof fn lemma_records(lines: Seq<Seq<char>>, count: int, options: DelimitedOptions)
    requires
        0 <= count <= lines.len(),
    ensures
        match ingest::records(lines, count, options) {
            Ok(rows) => {
                &&& rows.len() == records_before(lines, count, options.has_header)
                &&& forall|i: int|
                    0 <= i < count && #[trigger] holds_record(lines, i, options.has_header) ==> {
                        let at = records_before(lines, i, options.has_header) as int;
                        &&& at < rows.len()
                        &&& ingest::record_values(lines[i], (i + 1) as nat, options.delimiter)
                            == Ok::<Seq<ConstantView>, DelimitedErrorView>(rows[at])
                    }
            },
            Err(error) => exists|i: int|
                0 <= i < count && #[trigger] holds_record(lines, i, options.has_header)
                    && ingest::record_values(lines[i], (i + 1) as nat, options.delimiter) == Err::<
                    Seq<ConstantView>,
                    DelimitedErrorView,
                >(error) && forall|j: int|
                    0 <= j < i && #[trigger] holds_record(lines, j, options.has_header)
                        ==> ingest::record_values(lines[j], (j + 1) as nat, options.delimiter) is Ok,
        },
    decreases count,
{
    if count > 0 {
        lemma_records(lines, count - 1, options);
        let last = count - 1;
        assert(holds_record(lines, last, options.has_header) <==> ingest::line_record(
            lines,
            last,
            options,
        ) is Some);
        if let Ok(rows) = ingest::records(lines, count - 1, options) {
            if let Some(Ok(row)) = ingest::line_record(lines, last, options) {
                let all = rows.push(row);
                assert forall|i: int|
                    0 <= i < count && #[trigger] holds_record(
                        lines,
                        i,
                        options.has_header,
                    ) implies {
                    let at = records_before(lines, i, options.has_header) as int;
                    &&& at < all.len()
                    &&& ingest::record_values(lines[i], (i + 1) as nat, options.delimiter) == Ok::<
                        Seq<ConstantView>,
                        DelimitedErrorView,
                    >(all[at])
                } by {}
            }
            if let Some(Err(error)) = ingest::line_record(lines, last, options) {
                assert forall|j: int|
                    0 <= j < last && #[trigger] holds_record(
                        lines,
                        j,
                        options.has_header,
                    ) implies ingest::record_values(
                    lines[j],
                    (j + 1) as nat,
                    options.delimiter,
                ) is Ok by {}
                assert(holds_record(lines, last, options.has_header));
            }
        }
    }
}

/// A delimited text gives a tuple for each line that holds a record, in the order of the lines, or
/// the error of the first line whose record has one. A delimiter that is white space, but for the
/// tab, is refused.
pub proof fn law_text_is_its_lines(source: Seq<char>, options: DelimitedOptions)
    ensures
        ({
            let lines = text::lines(source);
            let refused = options.delimiter == ' ' as u8 || options.delimiter == '\n' as u8
                || options.delimiter == '\r' as u8 || options.delimiter == '\x0C' as u8;
            match ingest::delimited(source, options) {
                Ok(rows) => {
                    &&& !refused
                    &&& rows.len() == records_before(
                        lines,
                        lines.len() as int,
                        options.has_header,
                    )
                    &&& forall|i: int|
                        0 <= i < lines.len() && #[trigger] holds_record(
                            lines,
                            i,
                            options.has_header,
                        ) ==> {
                            let at = records_before(lines, i, options.has_header) as int;
                            &&& at < rows.len()
                            &&& ingest::record_values(
                                lines[i],
                                (i + 1) as nat,
                                options.delimiter,
                            ) == Ok::<Seq<ConstantView>, DelimitedErrorView>(rows[at])
                        }
                },
                Err(error) => if refused {
                    error == DelimitedErrorView {
                        line: 0,
                        column: 0,
                        message: "delimiter must be a visible ASCII byte or tab"@,
                    }
                } else {
                    exists|i: int|
                        0 <= i < lines.len() && #[trigger] holds_record(
                            lines,
                            i,
                            options.has_header,
                        ) && ingest::record_values(lines[i], (i + 1) as nat, options.delimiter)
                            == Err::<Seq<ConstantView>, DelimitedErrorView>(error) && forall|j: int|
                            0 <= j < i && #[trigger] holds_record(lines, j, options.has_header)
                                ==> ingest::record_values(
                                lines[j],
                                (j + 1) as nat,
                                options.delimiter,
                            ) is Ok
                },
            }
        }),
{
    let lines = text::lines(source);
    lemma_records(lines, lines.len() as int, options);
}

} // verus!
