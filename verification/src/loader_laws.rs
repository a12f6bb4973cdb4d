//! What the lines of a graph text are.
use vstd::prelude::*;

use crate::loader;
use crate::loader::LoadErrorView;
use crate::pairs::Pair;
use crate::text;
use crate::text_laws;

verus! {

/// Whether characters are white space.
pub open spec fn all_white(blank: Seq<char>) -> bool {
    forall|i: int| 0 <= i < blank.len() ==> text::is_white(#[trigger] blank[i])
}

/// Whether characters are a field: there are some, and none is white space.
pub open spec fn is_field(field: Seq<char>) -> bool {
    field.len() > 0 && forall|i: int|
        0 <= i < field.len() ==> !text::is_white(#[trigger] field[i])
}

/// Whether a line begins like a comment.
pub open spec fn is_comment(line: Seq<char>) -> bool {
    line.len() > 0 && (line[0] == '#' || line[0] == '%')
}

/// A line holds data unless it is blank or begins with `#` or `%` behind white space.
pub proof fn law_line_data(front: Seq<char>, core: Seq<char>, back: Seq<char>)
    requires
        all_white(front),
        all_white(back),
        core.len() > 0 ==> !text::is_white(core[0]) && !text::is_white(core.last()),
    ensures
        loader::line_data(front + core + back) == if core.len() == 0 || is_comment(core) {
            None
        } else {
            Some(core)
        },
{
    text_laws::law_trimmed(front, core, back);
}

proof fn lemma_field_at(data: Seq<char>, start: int, end: int)
    requires
        0 <= start <= end <= data.len(),
        forall|i: int| start <= i < end ==> !text::is_white(#[trigger] data[i]),
        end == data.len() || text::is_white(data[end]),
    ensures
        loader::field_end(data, start) == end,
    decreases end - start,
{
    if start < end {
        assert(!text::is_white(data[start]));
        lemma_field_at(data, start + 1, end);
    }
}

proof fn lemma_blank_at(data: Seq<char>, start: int, end: int)
    requires
        0 <= start <= end <= data.len(),
        forall|i: int| start <= i < end ==> text::is_white(#[trigger] data[i]),
        end == data.len() || !text::is_white(data[end]),
    ensures
        text::skip_white(data, start, data.len() as int) == end,
    decreases end - start,
{
    if start < end {
        assert(text::is_white(data[start]));
        lemma_blank_at(data, start + 1, end);
    }
}

/// The fields behind a first one.
proof fn lemma_first_field(data: Seq<char>, start: int, from: int, to: int)
    requires
        0 <= start <= from < to <= data.len(),
        forall|i: int| start <= i < from ==> text::is_white(#[trigger] data[i]),
        forall|i: int| from <= i < to ==> !text::is_white(#[trigger] data[i]),
        to == data.len() || text::is_white(data[to]),
    ensures
        loader::fields_from(data, start) == seq![data.subrange(from, to)] + loader::fields_from(
            data,
            to,
        ),
{
    lemma_blank_at(data, start, from);
    lemma_field_at(data, from, to);
}

proof fn lemma_two_fields(first: Seq<char>, gap: Seq<char>, second: Seq<char>)
    requires
        is_field(first),
        is_field(second),
        gap.len() > 0,
        all_white(gap),
    ensures
        loader::fields(first + gap + second) == seq![first, second],
{
    let data = first + gap + second;
    let n = first.len() as int;
    let m = n + gap.len();
    assert forall|i: int| 0 <= i < n implies !text::is_white(#[trigger] data[i]) by {
        assert(data[i] == first[i]);
    }
    assert forall|i: int| n <= i < m implies text::is_white(#[trigger] data[i]) by {
        assert(data[i] == gap[i - n]);
    }
    assert forall|i: int| m <= i < data.len() implies !text::is_white(#[trigger] data[i]) by {
        assert(data[i] == second[i - m]);
    }
    lemma_first_field(data, 0, 0, n);
    lemma_first_field(data, n, m, data.len() as int);
    lemma_blank_at(data, data.len() as int, data.len() as int);
    assert(loader::fields_from(data, data.len() as int) =~= Seq::empty());
    assert(data.subrange(0, n) =~= first);
    assert(data.subrange(m, data.len() as int) =~= second);
    assert(loader::fields(data) =~= seq![first, second]);
}

/// A line of two fields is a row: the number of the first field, and then that of the second. A
/// field that is no number is an error in its column.
pub proof fn law_line_is_a_row(
    front: Seq<char>,
    first: Seq<char>,
    gap: Seq<char>,
    second: Seq<char>,
    back: Seq<char>,
    line: nat,
)
    requires
        all_white(front),
        is_field(first),
        !is_comment(first),
        gap.len() > 0,
        all_white(gap),
        is_field(second),
        all_white(back),
    ensures
        ({
            let data = loader::line_data(front + (first + gap + second) + back);
            &&& data == Some(first + gap + second)
            &&& loader::data_row(data->0, line) == match text::parsed_u32(first) {
                None => Err(LoadErrorView::InvalidU32 { line, column: 1, value: first }),
                Some(a) => match text::parsed_u32(second) {
                    None => Err(LoadErrorView::InvalidU32 { line, column: 2, value: second }),
                    Some(b) => Ok::<Pair, LoadErrorView>((a, b)),
                },
            }
        }),
{
    let core = first + gap + second;
    assert(core[0] == first[0]);
    assert(core.last() == second.last());
    assert(!text::is_white(first[0]));
    assert(!text::is_white(second[second.len() - 1]));
    law_line_data(front, core, back);
    lemma_two_fields(first, gap, second);
}

/// Two numbers that are written on a line, with a space between them, are the row of the first and
/// the second.
pub proof fn law_written_row_reads_back(a: u32, b: u32, line: nat)
    ensures
        ({
            let written = text::decimal(a as nat) + seq![' '] + text::decimal(b as nat);
            &&& loader::line_data(written) == Some(written)
            &&& loader::data_row(written, line) == Ok::<Pair, LoadErrorView>((a, b))
        }),
{
    let first = text::decimal(a as nat);
    let second = text::decimal(b as nat);
    let none = Seq::<char>::empty();
    text_laws::law_decimal_reads_back(a as nat);
    text_laws::law_decimal_reads_back(b as nat);
    assert forall|i: int| 0 <= i < first.len() implies !text::is_white(#[trigger] first[i]) by {
        assert('0' <= first[i] <= '9');
    }
    assert forall|i: int| 0 <= i < second.len() implies !text::is_white(#[trigger] second[i]) by {
        assert('0' <= second[i] <= '9');
    }
    assert('0' <= first[0] <= '9');
    law_line_is_a_row(none, first, seq![' '], second, none, line);
    assert(none + (first + seq![' '] + second) + none =~= first + seq![' '] + second);
}

/// A line of one field, or of more than two, is an error.
pub proof fn law_other_field_counts(
    first: Seq<char>,
    gap: Seq<char>,
    second: Seq<char>,
    space: Seq<char>,
    more: Seq<char>,
    line: nat,
)
    requires
        is_field(first),
        is_field(second),
        gap.len() > 0,
        all_white(gap),
        space.len() > 0,
        all_white(space),
        more.len() > 0,
        !text::is_white(more[0]),
    ensures
        loader::data_row(first, line) == Err::<Pair, LoadErrorView>(
            LoadErrorView::InvalidFieldCount { line },
        ),
        loader::data_row(first + gap + second + space + more, line) == Err::<Pair, LoadErrorView>(
            LoadErrorView::InvalidFieldCount { line },
        ),
{
    let n = first.len() as int;
    lemma_first_field(first, 0, 0, n);
    lemma_blank_at(first, n, n);
    assert(loader::fields_from(first, n) =~= Seq::empty());
    assert(loader::fields(first).len() == 1);
    let data = first + gap + second + space + more;
    let m = n + gap.len();
    let p = m + second.len();
    let q = p + space.len();
    assert forall|i: int| 0 <= i < n implies !text::is_white(#[trigger] data[i]) by {
        assert(data[i] == first[i]);
    }
    assert forall|i: int| n <= i < m implies text::is_white(#[trigger] data[i]) by {
        assert(data[i] == gap[i - n]);
    }
    assert forall|i: int| m <= i < p implies !text::is_white(#[trigger] data[i]) by {
        assert(data[i] == second[i - m]);
    }
    assert forall|i: int| p <= i < q implies text::is_white(#[trigger] data[i]) by {
        assert(data[i] == space[i - p]);
    }
    assert(data[q] == more[0]);
    lemma_first_field(data, 0, 0, n);
    lemma_first_field(data, n, m, p);
    lemma_blank_at(data, p, q);
    assert(loader::fields_from(data, p).len() > 0);
    assert(loader::fields(data).len() > 2);
}

/// How many of some first lines hold data.
pub open spec fn data_before(lines: Seq<Seq<char>>, count: int) -> nat
    decreases count,
{
    if count <= 0 {
        0
    } else {
        data_before(lines, count - 1) + if loader::line_data(lines[count - 1]) is Some {
            1nat
        } else {
            0nat
        }
    }
}

proof fn lemma_data_before(lines: Seq<Seq<char>>, count: int, i: int)
    requires
        0 <= i <= count <= lines.len(),
    ensures
        data_before(lines.take(count), i) == data_before(lines, i),
    decreases i,
{
    if i > 0 {
        lemma_data_before(lines, count, i - 1);
        assert(lines.take(count)[i - 1] == lines[i - 1]);
    }
}

/// The rows of a text are those of its lines with data, in order, up to the first that is no row,
/// whose error is that of the text. Lines are numbered from one.
pub proof fn law_text_is_its_rows(lines: Seq<Seq<char>>)
    ensures
        ({
            let (rows, problem) = loader::read_rows(lines);
            match problem {
                None => {
                    &&& rows.len() == data_before(lines, lines.len() as int)
                    &&& loader::data_count(lines) == rows.len()
                    &&& forall|i: int|
                        0 <= i < lines.len() ==> (loader::line_data(
                            #[trigger] lines[i],
                        ) matches Some(data) ==> {
                            let at = data_before(lines, i) as int;
                            at < rows.len() && loader::data_row(data, (i + 1) as nat) == Ok::<
                                Pair,
                                LoadErrorView,
                            >(rows[at])
                        })
                },
                Some(error) => exists|i: int|
                    0 <= i < lines.len() && first_failure(lines, #[trigger] lines[i], i, error),
            }
        }),
    decreases lines.len(),
{
    if lines.len() > 0 {
        let rest = lines.drop_last();
        let n = rest.len() as int;
        law_text_is_its_rows(rest);
        assert(rest =~= lines.take(n));
        assert forall|i: int| 0 <= i <= n implies data_before(rest, i) == #[trigger] data_before(
            lines,
            i,
        ) by {
            lemma_data_before(lines, n, i);
        }
        loader::lemma_row_count(lines);
        assert(data_before(rest, n) == data_before(lines, n));
        assert(lines[n] == lines.last());
        let (rows, problem) = loader::read_rows(lines);
        let (earlier, before) = loader::read_rows(rest);
        if let Some(error) = before {
            let i = choose|i: int|
                0 <= i < rest.len() && first_failure(rest, #[trigger] rest[i], i, error);
            assert(rest[i] == lines[i]);
            assert forall|j: int| 0 <= j < i implies (loader::line_data(
                #[trigger] lines[j],
            ) matches Some(data) ==> loader::data_row(data, (j + 1) as nat) is Ok) by {
                assert(rest[j] == lines[j]);
            }
            assert(first_failure(lines, lines[i], i, error));
        } else {
            assert forall|i: int| 0 <= i < n implies (loader::line_data(
                #[trigger] lines[i],
            ) matches Some(data) ==> {
                let at = data_before(lines, i) as int;
                at < earlier.len() && loader::data_row(data, (i + 1) as nat) == Ok::<
                    Pair,
                    LoadErrorView,
                >(earlier[at])
            }) by {
                assert(rest[i] == lines[i]);
                assert(data_before(rest, i) == data_before(lines, i));
            }
            if let Some(error) = problem {
                assert(first_failure(lines, lines[n], n, error));
            } else {
                assert forall|i: int| 0 <= i < lines.len() implies (loader::line_data(
                    #[trigger] lines[i],
                ) matches Some(data) ==> {
                    let at = data_before(lines, i) as int;
                    at < rows.len() && loader::data_row(data, (i + 1) as nat) == Ok::<
                        Pair,
                        LoadErrorView,
                    >(rows[at])
                }) by {
                    if i < n {
                        assert(lines[i] == rest[i]);
                    } else {
                        assert(data_before(rest, n) == data_before(lines, n));
                    }
                }
            }
        }
    }
}

/// Whether a line is the first with data that is no row.
pub open spec fn first_failure(
    lines: Seq<Seq<char>>,
    line: Seq<char>,
    i: int,
    error: LoadErrorView,
) -> bool {
    &&& loader::line_data(line) matches Some(data)
    &&& loader::data_row(data, (i + 1) as nat) == Err::<Pair, LoadErrorView>(error)
    &&& forall|j: int|
        0 <= j < i ==> (loader::line_data(#[trigger] lines[j]) matches Some(data)
            ==> loader::data_row(data, (j + 1) as nat) is Ok)
}

/// A text with a line that is the first of a file kept elsewhere stands for such a file.
pub proof fn law_pointers(lines: Seq<Seq<char>>)
    ensures
        loader::is_pointer(lines) <==> exists|i: int|
            0 <= i < lines.len() && text::trimmed(#[trigger] lines[i])
                == "version https://git-lfs.github.com/spec/v1"@,
{
    reveal_strlit("version https://git-lfs.github.com/spec/v1");
    if loader::is_pointer(lines) {
        let i = choose|i: int|
            0 <= i < lines.len() && loader::line_data(#[trigger] lines[i]) == Some(
                loader::pointer_line(),
            );
        assert(text::trimmed(lines[i]) == "version https://git-lfs.github.com/spec/v1"@);
    }
    if exists|i: int|
        0 <= i < lines.len() && text::trimmed(#[trigger] lines[i])
            == "version https://git-lfs.github.com/spec/v1"@ {
        let i = choose|i: int|
            0 <= i < lines.len() && text::trimmed(#[trigger] lines[i])
                == "version https://git-lfs.github.com/spec/v1"@;
        assert(loader::line_data(lines[i]) == Some(loader::pointer_line()));
    }
}

/// The first fields of rows go to the first column and the second fields to the second one, row by
/// row, and what the columns have beyond the rows stays.
pub proof fn law_columns(rows: Seq<Pair>, before: Seq<u32>, i: int)
    requires
        0 <= i < before.len(),
    ensures
        loader::written_first(rows, before).len() == before.len(),
        loader::written_second(rows, before).len() == before.len(),
        i < rows.len() ==> loader::written_first(rows, before)[i] == rows[i].0,
        i < rows.len() ==> loader::written_second(rows, before)[i] == rows[i].1,
        i >= rows.len() ==> loader::written_first(rows, before)[i] == before[i],
        i >= rows.len() ==> loader::written_second(rows, before)[i] == before[i],
{
}

/// Rows that are written one to a line are the rows that the lines give, and fill the columns with
/// their first and their second numbers.
pub proof fn law_written_rows_read_back(rows: Seq<Pair>, left: Seq<u32>, right: Seq<u32>)
    requires
        left.len() == rows.len(),
        right.len() == rows.len(),
    ensures
        ({
            let lines = Seq::new(
                rows.len(),
                |i: int|
                    text::decimal(rows[i].0 as nat) + seq![' '] + text::decimal(rows[i].1 as nat),
            );
            let (found, problem) = loader::read_rows(lines);
            &&& problem is None
            &&& found == rows
            &&& loader::data_count(lines) == rows.len()
            &&& forall|i: int|
                0 <= i < rows.len() ==> #[trigger] loader::written_first(found, left)[i]
                    == rows[i].0
            &&& forall|i: int|
                0 <= i < rows.len() ==> #[trigger] loader::written_second(found, right)[i]
                    == rows[i].1
        }),
    decreases rows.len(),
{
    let lines = Seq::new(
        rows.len(),
        |i: int| text::decimal(rows[i].0 as nat) + seq![' '] + text::decimal(rows[i].1 as nat),
    );
    loader::lemma_row_count(lines);
    if rows.len() > 0 {
        let rest = rows.drop_last();
        let earlier = Seq::new(
            rest.len(),
            |i: int| text::decimal(rest[i].0 as nat) + seq![' '] + text::decimal(rest[i].1 as nat),
        );
        assert(earlier =~= lines.drop_last());
        law_written_rows_read_back(rest, left.drop_last(), right.drop_last());
        let (a, b) = rows.last();
        law_written_row_reads_back(a, b, lines.len());
        assert(rest.push(rows.last()) =~= rows);
    } else {
        assert(lines =~= Seq::empty());
        assert(rows =~= Seq::empty());
    }
}

} // verus!
