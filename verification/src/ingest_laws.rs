//! How the tuples of delimited texts come together.
use vstd::prelude::*;

use crate::ast::ConstantView;
use crate::ingest;
use crate::ingest::DelimitedOptions;
use crate::text;

verus! {

/// The number of a line matters to errors only.
proof fn lemma_record_line(
    record: Seq<char>,
    start: int,
    a: nat,
    b: nat,
    delimiter: u8,
    values: Seq<ConstantView>,
)
    ensures
        match ingest::record_from(record, start, a, delimiter, values) {
            Ok(found) => ingest::record_from(record, start, b, delimiter, values) == Ok::<
                Seq<ConstantView>,
                ingest::DelimitedErrorView,
            >(found),
            Err(_) => ingest::record_from(record, start, b, delimiter, values) is Err,
        },
    decreases record.len() - start,
{
    if let Ok((end, value)) = ingest::read_field(record, start, a, delimiter) {
        if end < start || end >= record.len() {
        } else if end + 1 == record.len() {
        } else {
            lemma_record_line(record, end + 1, a, b, delimiter, values.push(value));
        }
    }
}

pub proof fn lemma_end_shifted(front: Seq<char>, rest: Seq<char>, i: int)
    requires
        0 <= i <= rest.len(),
    ensures
        text::line_end(front + rest, front.len() + i) == front.len() + text::line_end(rest, i),
    decreases rest.len() - i,
{
    if i < rest.len() {
        assert((front + rest)[front.len() + i] == rest[i]);
        lemma_end_shifted(front, rest, i + 1);
    }
}

pub proof fn lemma_lines_shifted(front: Seq<char>, rest: Seq<char>, i: int)
    requires
        0 <= i <= rest.len(),
    ensures
        text::lines_from(front + rest, front.len() + i) == text::lines_from(rest, i),
    decreases rest.len() - i,
{
    let whole = front + rest;
    let n = front.len();
    if i < rest.len() {
        lemma_end_shifted(front, rest, i);
        text::lemma_line_end(rest, i);
        let end = text::line_end(rest, i);
        assert(whole.subrange(n + i, n + end) =~= rest.subrange(i, end));
        if i < end {
            assert(whole[n + end - 1] == rest[end - 1]);
            assert(whole.subrange(n + i, n + end - 1) =~= rest.subrange(i, end - 1));
        }
        if end < rest.len() {
            lemma_lines_shifted(front, rest, end + 1);
        } else {
            assert(text::lines_from(whole, n + end) =~= Seq::empty());
            assert(text::lines_from(rest, end) =~= Seq::empty());
        }
    }
}

/// The end of a line within the first of two texts that a line feed separates.
proof fn lemma_end_kept(first: Seq<char>, second: Seq<char>, i: int)
    requires
        0 <= i <= first.len(),
    ensures
        text::line_end(first + seq!['\n'] + second, i) == text::line_end(first, i),
    decreases first.len() - i,
{
    let whole = first + seq!['\n'] + second;
    if i < first.len() {
        assert(whole[i] == first[i]);
        lemma_end_kept(first, second, i + 1);
    } else {
        assert(whole[i] == '\n');
    }
}

/// Whether some lines are these, or are once the carriage return at the end of the last is gone.
spec fn is_shortened(lines: Seq<Seq<char>>, kept: Seq<Seq<char>>) -> bool {
    ||| kept == lines
    ||| {
        &&& lines.len() > 0
        &&& kept.len() == lines.len()
        &&& kept.drop_last() == lines.drop_last()
        &&& lines.last() == kept.last().push('\r')
    }
}

/// The lines of two texts that a line feed separates: those of the first, perhaps a blank one, and
/// those of the second. A carriage return at the end of the first becomes part of its line end.
proof fn lemma_lines_joined(first: Seq<char>, second: Seq<char>, i: int) -> (found: (
    Seq<Seq<char>>,
    Seq<Seq<char>>,
))
    requires
        0 <= i <= first.len(),
    ensures
        is_shortened(text::lines_from(first, i), found.0),
        first.len() == 0 || first.last() != '\r' ==> found.0 == text::lines_from(first, i),
        found.1.len() == 0 || found.1 == seq![Seq::<char>::empty()],
        text::lines_from(first + seq!['\n'] + second, i) == found.0 + found.1 + text::lines_from(
            second,
            0,
        ),
    decreases first.len() - i,
{
    let whole = first + seq!['\n'] + second;
    let front = first + seq!['\n'];
    let lines = text::lines_from(first, i);
    lemma_end_kept(first, second, i);
    text::lemma_line_end(first, i);
    lemma_lines_shifted(front, second, 0);
    let end = text::line_end(first, i);
    if i == first.len() {
        let blank = seq![Seq::<char>::empty()];
        assert(whole.subrange(i, i) =~= Seq::empty());
        assert(lines =~= Seq::empty());
        assert(text::lines_from(whole, i) =~= lines + blank + text::lines_from(second, 0));
        (lines, blank)
    } else if end < first.len() {
        let (rest, blank) = lemma_lines_joined(first, second, end + 1);
        assert(whole.subrange(i, end) =~= first.subrange(i, end));
        if i < end {
            assert(whole[end - 1] == first[end - 1]);
            assert(whole.subrange(i, end - 1) =~= first.subrange(i, end - 1));
        }
        let line = text::line_between(first, i, end);
        let later = text::lines_from(first, end + 1);
        let kept = seq![line] + rest;
        assert(lines == seq![line] + later);
        if rest != later {
            assert(kept.drop_last() =~= seq![line] + rest.drop_last());
            assert(lines.drop_last() =~= seq![line] + later.drop_last());
            assert(kept.last() == rest.last() && lines.last() == later.last());
        }
        assert(text::lines_from(whole, i) =~= kept + blank + text::lines_from(second, 0));
        (kept, blank)
    } else {
        let blank = Seq::<Seq<char>>::empty();
        let kept = seq![text::line_between(whole, i, end)];
        assert(whole.subrange(i, end) =~= first.subrange(i, end));
        assert(whole[end - 1] == first[end - 1]);
        assert(whole.subrange(i, end - 1) =~= first.subrange(i, end - 1));
        assert(text::lines_from(first, end) =~= Seq::empty());
        assert(lines =~= seq![first.subrange(i, end)]);
        if first.last() == '\r' {
            assert(lines.last() =~= kept.last().push('\r'));
            assert(kept.drop_last() =~= lines.drop_last());
        }
        assert(text::lines_from(whole, i) =~= kept + blank + text::lines_from(second, 0));
        (kept, blank)
    }
}

/// White space at the end of a text is no part of it once it is trimmed.
proof fn lemma_trimmed_return(record: Seq<char>)
    ensures
        text::trimmed(record.push('\r')) == text::trimmed(record),
{
    let longer = record.push('\r');
    let n = record.len() as int;
    lemma_skip_return(record, 0);
    text::lemma_skip_white(record, 0, n);
    let start = text::skip_white(record, 0, n);
    if start < n {
        lemma_drop_return(record, start, n);
        text::lemma_drop_white(record, start, n);
        let end = text::drop_white(record, start, n);
        assert(longer.subrange(start, end) =~= record.subrange(start, end));
    } else {
        assert(text::trimmed(longer) =~= Seq::empty());
        assert(text::trimmed(record) =~= Seq::empty());
    }
}

proof fn lemma_skip_return(record: Seq<char>, start: int)
    requires
        0 <= start <= record.len(),
    ensures
        ({
            let own = text::skip_white(record, start, record.len() as int);
            text::skip_white(record.push('\r'), start, record.len() as int + 1) == if own < record.len() {
                own
            } else {
                own + 1
            }
        }),
        text::skip_white(record, start, record.len() as int) <= record.len(),
    decreases record.len() - start,
{
    let longer = record.push('\r');
    let n = record.len() as int;
    if start < n {
        assert(longer[start] == record[start]);
        lemma_skip_return(record, start + 1);
    } else {
        assert(text::is_white(longer[n]));
        assert(text::skip_white(longer, n + 1, n + 1) == n + 1);
    }
}

proof fn lemma_drop_return(record: Seq<char>, start: int, end: int)
    requires
        0 <= start <= end <= record.len(),
    ensures
        text::drop_white(record.push('\r'), start, end) == text::drop_white(record, start, end),
    decreases end - start,
{
    if start < end {
        assert(record.push('\r')[end - 1] == record[end - 1]);
        lemma_drop_return(record, start, end - 1);
    }
}

proof fn lemma_quoted_return(record: Seq<char>, start: int, value: Seq<char>)
    requires
        0 <= start <= record.len(),
    ensures
        ingest::quoted_field(record.push('\r'), start, value) == ingest::quoted_field(
            record,
            start,
            value,
        ),
        ingest::quoted_field(record, start, value) matches Some((end, _)) ==> start < end
            <= record.len(),
    decreases record.len() - start,
{
    let longer = record.push('\r');
    if start < record.len() {
        assert(longer[start] == record[start]);
        if record[start] == '"' {
            if start + 1 < record.len() {
                assert(longer[start + 1] == record[start + 1]);
                if record[start + 1] == '"' {
                    lemma_quoted_return(record, start + 2, value.push('"'));
                }
            }
        } else {
            lemma_quoted_return(record, start + 1, value.push(record[start]));
        }
    } else {
        assert(longer[start] == '\r');
        assert(ingest::quoted_field(longer, start + 1, value.push('\r')) is None);
    }
}

proof fn lemma_field_return(record: Seq<char>, start: int, delimiter: u8)
    requires
        0 <= start <= record.len(),
        !ingest::is_delimiter('\r', delimiter),
    ensures
        ({
            let own = ingest::field_end(record, start, delimiter);
            &&& start <= own <= record.len()
            &&& ingest::field_end(record.push('\r'), start, delimiter) == if own < record.len() {
                own
            } else {
                own + 1
            }
        }),
    decreases record.len() - start,
{
    let longer = record.push('\r');
    if start < record.len() {
        assert(longer[start] == record[start]);
        if !ingest::is_delimiter(record[start], delimiter) {
            lemma_field_return(record, start + 1, delimiter);
        }
    } else {
        assert(longer[start] == '\r');
        assert(ingest::field_end(longer, start + 1, delimiter) == start + 1);
    }
}

/// A record that reads with a carriage return at its end reads the same without it.
proof fn lemma_record_return(
    record: Seq<char>,
    start: int,
    line: nat,
    delimiter: u8,
    values: Seq<ConstantView>,
)
    requires
        0 <= start <= record.len(),
        !ingest::is_delimiter('\r', delimiter),
    ensures
        ingest::record_from(record.push('\r'), start, line, delimiter, values) matches Ok(found)
            ==> ingest::record_from(record, start, line, delimiter, values) == Ok::<
            Seq<ConstantView>,
            ingest::DelimitedErrorView,
        >(found),
    decreases record.len() - start,
{
    let longer = record.push('\r');
    let n = record.len() as int;
    lemma_field_return(record, start, delimiter);
    lemma_return_alone(record, line, delimiter);
    if start < n {
        assert(longer[start] == record[start]);
        if record[start] == '"' {
            lemma_quoted_return(record, start + 1, Seq::empty());
            if let Some((end, value)) = ingest::quoted_field(record, start + 1, Seq::empty()) {
                if end < n {
                    assert(longer[end] == record[end]);
                    if ingest::is_delimiter(record[end], delimiter) {
                        lemma_record_return(
                            record,
                            end + 1,
                            line,
                            delimiter,
                            values.push(ConstantView::String(value)),
                        );
                    }
                } else {
                    assert(longer[end] == '\r');
                }
            }
        } else {
            let end = ingest::field_end(record, start, delimiter);
            if end < n {
                assert(longer.subrange(start, end) =~= record.subrange(start, end));
                let field = text::trimmed(record.subrange(start, end));
                if field.len() > 0 {
                    lemma_record_return(
                        record,
                        end + 1,
                        line,
                        delimiter,
                        values.push(ingest::bare_value(field)),
                    );
                }
            } else {
                let part = record.subrange(start, n);
                assert(longer.subrange(start, n + 1) =~= part.push('\r'));
                lemma_trimmed_return(part);
            }
        }
    }
}

/// A carriage return behind a delimiter is no field.
proof fn lemma_return_alone(record: Seq<char>, line: nat, delimiter: u8)
    requires
        !ingest::is_delimiter('\r', delimiter),
    ensures
        ingest::read_field(record.push('\r'), record.len() as int, line, delimiter) is Err,
{
    let longer = record.push('\r');
    let n = record.len() as int;
    lemma_field_return(record, n, delimiter);
    assert(longer.subrange(n, n + 1) =~= Seq::<char>::empty().push('\r'));
    lemma_trimmed_return(Seq::empty());
    assert(text::trimmed(Seq::<char>::empty()).len() == 0);
}

/// Lines that read with a carriage return at the end of the last read the same without it.
proof fn lemma_records_shortened(
    lines: Seq<Seq<char>>,
    kept: Seq<Seq<char>>,
    options: DelimitedOptions,
)
    requires
        is_shortened(lines, kept),
        !ingest::is_delimiter('\r', options.delimiter),
    ensures
        ingest::records(lines, lines.len() as int, options) matches Ok(found) ==> ingest::records(
            kept,
            kept.len() as int,
            options,
        ) == Ok::<Seq<Seq<ConstantView>>, ingest::DelimitedErrorView>(found),
{
    if kept != lines {
        let front = lines.drop_last();
        let n = front.len() as int;
        assert(lines =~= front + seq![lines.last()]);
        assert(kept =~= front + seq![kept.last()]);
        lemma_records_prefix(front, seq![lines.last()], n, options);
        lemma_records_prefix(front, seq![kept.last()], n, options);
        lemma_trimmed_return(kept.last());
        lemma_record_return(
            kept.last(),
            0,
            (n + 1) as nat,
            options.delimiter,
            Seq::empty(),
        );
    }
}

proof fn lemma_records_prefix(
    a: Seq<Seq<char>>,
    b: Seq<Seq<char>>,
    count: int,
    options: DelimitedOptions,
)
    requires
        0 <= count <= a.len(),
    ensures
        ingest::records(a + b, count, options) == ingest::records(a, count, options),
    decreases count,
{
    if count > 0 {
        lemma_records_prefix(a, b, count - 1, options);
        assert((a + b)[count - 1] == a[count - 1]);
    }
}

/// The records of some lines and of lines behind them.
proof fn lemma_records_joined(
    a: Seq<Seq<char>>,
    b: Seq<Seq<char>>,
    count: int,
    front: DelimitedOptions,
    back: DelimitedOptions,
)
    requires
        0 <= count <= b.len(),
        front.delimiter == back.delimiter,
        !back.has_header,
        front.has_header ==> a.len() > 0,
    ensures
        match (ingest::records(a, a.len() as int, front), ingest::records(b, count, back)) {
            (Ok(x), Ok(y)) => ingest::records(a + b, a.len() + count, front) == Ok::<
                Seq<Seq<ConstantView>>,
                ingest::DelimitedErrorView,
            >(x + y),
            _ => ingest::records(a + b, a.len() + count, front) is Err,
        },
    decreases count,
{
    lemma_records_prefix(a, b, a.len() as int, front);
    if count > 0 {
        lemma_records_joined(a, b, count - 1, front, back);
        let line = b[count - 1];
        assert((a + b)[a.len() + count - 1] == line);
        lemma_record_line(
            line,
            0,
            count as nat,
            (a.len() + count) as nat,
            front.delimiter,
            Seq::empty(),
        );
        if let (Ok(x), Ok(y)) = (
            ingest::records(a, a.len() as int, front),
            ingest::records(b, count - 1, back),
        ) {
            if let Some(Ok(row)) = ingest::line_record(b, count - 1, back) {
                assert((x + y).push(row) =~= x + y.push(row));
            }
        }
    } else {
        if let Ok(x) = ingest::records(a, a.len() as int, front) {
            assert(x + Seq::<Seq<ConstantView>>::empty() =~= x);
        }
    }
}

/// Two texts with a line feed between them hold the tuples of the first and then those of the
/// second, and are refused where the second is. They are refused where the first is, too, but for a
/// first text that ends in a carriage return, which becomes part of a line end.
pub proof fn law_texts_join(first: Seq<char>, second: Seq<char>, options: DelimitedOptions)
    requires
        !options.has_header,
    ensures
        match (ingest::delimited(first, options), ingest::delimited(second, options)) {
            (Ok(a), Ok(b)) => ingest::delimited(first + seq!['\n'] + second, options) == Ok::<
                Seq<Seq<ConstantView>>,
                ingest::DelimitedErrorView,
            >(a + b),
            (_, Err(_)) => ingest::delimited(first + seq!['\n'] + second, options) is Err,
            (Err(_), Ok(_)) => first.len() > 0 && first.last() == '\r' || ingest::delimited(
                first + seq!['\n'] + second,
                options,
            ) is Err,
        },
{
    if !ingest::is_blank_delimiter(options.delimiter) {
        let (kept, blank) = lemma_lines_joined(first, second, 0);
        let a = text::lines(first);
        let b = text::lines(second);
        let none = Seq::<Seq<ConstantView>>::empty();
        assert(ingest::records(blank, blank.len() as int, options) == Ok::<
            Seq<Seq<ConstantView>>,
            ingest::DelimitedErrorView,
        >(none)) by {
            reveal_with_fuel(ingest::records, 2);
            if blank.len() > 0 {
                assert(blank[0] =~= Seq::empty());
                assert(text::trimmed(blank[0]).len() == 0);
            }
        }
        lemma_records_shortened(a, kept, options);
        lemma_records_joined(kept, blank, blank.len() as int, options, options);
        lemma_records_joined(kept + blank, b, b.len() as int, options, options);
        if let Ok(x) = ingest::records(kept, kept.len() as int, options) {
            assert(x + none =~= x);
        }
    }
}

/// The first line of a text with a header is passed over, whatever it holds.
pub proof fn law_header_is_skipped(header: Seq<char>, rest: Seq<char>, delimiter: u8)
    requires
        !header.contains('\n'),
    ensures
        match ingest::delimited(rest, DelimitedOptions { delimiter, has_header: false }) {
            Ok(rows) => ingest::delimited(
                header + seq!['\n'] + rest,
                DelimitedOptions { delimiter, has_header: true },
            ) == Ok::<Seq<Seq<ConstantView>>, ingest::DelimitedErrorView>(rows),
            Err(_) => ingest::delimited(
                header + seq!['\n'] + rest,
                DelimitedOptions { delimiter, has_header: true },
            ) is Err,
        },
{
    let front = DelimitedOptions { delimiter, has_header: true };
    let back = DelimitedOptions { delimiter, has_header: false };
    let whole = header + seq!['\n'] + rest;
    let n = header.len() as int;
    lemma_end_kept(header, rest, 0);
    lemma_no_line_end(header, 0);
    lemma_lines_shifted(header + seq!['\n'], rest, 0);
    let a = seq![text::line_between(whole, 0, n)];
    let b = text::lines(rest);
    assert(text::lines(whole) == a + b);
    reveal_with_fuel(ingest::records, 2);
    assert(ingest::records(a, 1, front) == Ok::<
        Seq<Seq<ConstantView>>,
        ingest::DelimitedErrorView,
    >(Seq::empty()));
    lemma_records_joined(a, b, b.len() as int, front, back);
    if let Ok(rows) = ingest::records(b, b.len() as int, back) {
        assert(Seq::<Seq<ConstantView>>::empty() + rows =~= rows);
    }
}

proof fn lemma_no_line_end(header: Seq<char>, i: int)
    requires
        0 <= i <= header.len(),
        !header.contains('\n'),
    ensures
        text::line_end(header, i) == header.len(),
    decreases header.len() - i,
{
    if i < header.len() {
        assert(header.contains(header[i]));
        lemma_no_line_end(header, i + 1);
    }
}

} // verus!
