//! What the tokens of a text are, character by character.
use vstd::prelude::*;
use vstd::utf8::*;

use crate::ast::Span;
use crate::lexer;
use crate::lexer::{DiagnosticView, Mark, TokenKindView, TokenView};
use crate::text;

verus! {

/// Where the characters from one place up to another stand, in bytes.
pub open spec fn bytes_between(text: Seq<char>, start: int, end: int) -> Span {
    Span {
        start: encode_utf8(text.take(start)).len() as usize,
        end: encode_utf8(text.take(end)).len() as usize,
    }
}

/// Whether the text from a place on has one token first, which ends at another place, and what it
/// has from there on.
pub open spec fn has_token(text: Seq<char>, i: int, end: int, kind: TokenKindView) -> bool {
    lexer::lex_from(text, i) == (
        seq![TokenView { kind, span: bytes_between(text, i, end) }] + lexer::lex_from(text, end).0,
        lexer::lex_from(text, end).1,
    )
}

pub open spec fn is_letter(c: char) -> bool {
    ('a' <= c <= 'z') || ('A' <= c <= 'Z') || c == '_'
}

pub open spec fn is_letter_or_digit(c: char) -> bool {
    is_letter(c) || ('0' <= c <= '9')
}

/// Whether a run of letters and digits ends at a place.
pub open spec fn name_stops(text: Seq<char>, start: int, end: int) -> bool {
    &&& 0 <= start <= end <= text.len()
    &&& forall|k: int| start <= k < end ==> is_letter_or_digit(#[trigger] text[k])
    &&& end < text.len() ==> !is_letter_or_digit(text[end])
}

/// Whether a run of digits ends at a place.
pub open spec fn digits_stop(text: Seq<char>, start: int, end: int) -> bool {
    &&& 0 <= start <= end <= text.len()
    &&& forall|k: int| start <= k < end ==> '0' <= #[trigger] text[k] <= '9'
    &&& end < text.len() ==> !('0' <= text[end] <= '9')
}

/// Whether a line ends at a place.
pub open spec fn line_stops(text: Seq<char>, start: int, end: int) -> bool {
    &&& 0 <= start <= end <= text.len()
    &&& forall|k: int| start <= k < end ==> #[trigger] text[k] != '\n'
    &&& end < text.len() ==> text[end] == '\n'
}

proof fn lemma_span(text: Seq<char>, start: int, end: int)
    requires
        0 <= start <= text.len(),
        0 <= end <= text.len(),
    ensures
        lexer::span_of(text, start, end) == bytes_between(text, start, end),
{
    text::lemma_byte_offset_is_encoded_length(text, start);
    text::lemma_byte_offset_is_encoded_length(text, end);
}

proof fn lemma_name_stops(text: Seq<char>, start: int, end: int)
    requires
        name_stops(text, start, end),
    ensures
        lexer::name_end(text, start) == end,
    decreases end - start,
{
    if start < end {
        assert(is_letter_or_digit(text[start]));
        lemma_name_stops(text, start + 1, end);
    }
}

proof fn lemma_digits_stop(text: Seq<char>, start: int, end: int)
    requires
        digits_stop(text, start, end),
    ensures
        lexer::digits_end(text, start) == end,
    decreases end - start,
{
    if start < end {
        assert('0' <= text[start] <= '9');
        lemma_digits_stop(text, start + 1, end);
    }
}

proof fn lemma_line_stops(text: Seq<char>, start: int, end: int)
    requires
        line_stops(text, start, end),
    ensures
        lexer::line_end(text, start) == end,
    decreases end - start,
{
    if start < end {
        assert(text[start] != '\n');
        lemma_line_stops(text, start + 1, end);
    }
}

/// A text has no tokens behind its end.
pub proof fn law_end_of_text(text: Seq<char>)
    ensures
        lexer::lex_from(text, text.len() as int).0.len() == 0,
        lexer::lex_from(text, text.len() as int).1.len() == 0,
{
}

/// White space is passed over.
pub proof fn law_space_is_skipped(text: Seq<char>, i: int)
    requires
        0 <= i < text.len(),
        text[i] == ' ' || text[i] == '\t' || text[i] == '\n' || text[i] == '\r' || text[i]
            == '\x0C',
    ensures
        lexer::lex_from(text, i) == lexer::lex_from(text, i + 1),
{
    let rest = lexer::lex_from(text, i + 1);
    assert(Seq::<TokenView>::empty() + rest.0 =~= rest.0);
    assert(Seq::<DiagnosticView>::empty() + rest.1 =~= rest.1);
}

/// A comment is passed over, up to the end of its line.
pub proof fn law_comment_is_skipped(text: Seq<char>, i: int, end: int)
    requires
        i < end,
        line_stops(text, i, end),
        text[i] == '#' || text[i] == '%' || (text[i] == '/' && i + 1 < text.len() && text[i + 1]
            == '/'),
    ensures
        lexer::lex_from(text, i) == lexer::lex_from(text, end),
{
    let rest = lexer::lex_from(text, end);
    assert(Seq::<TokenView>::empty() + rest.0 =~= rest.0);
    assert(Seq::<DiagnosticView>::empty() + rest.1 =~= rest.1);
    if text[i] == '/' {
        if end == i + 1 {
            assert(text[end] == '\n');
        }
        lemma_line_stops(text, i + 2, end);
    } else {
        lemma_line_stops(text, i + 1, end);
    }
}

/// Punctuation is what it looks like.
pub proof fn law_marks(text: Seq<char>, i: int)
    requires
        0 <= i < text.len(),
    ensures
        text[i] == '(' ==> has_token(text, i, i + 1, TokenKindView::Mark(Mark::LeftParen)),
        text[i] == ')' ==> has_token(text, i, i + 1, TokenKindView::Mark(Mark::RightParen)),
        text[i] == ',' ==> has_token(text, i, i + 1, TokenKindView::Mark(Mark::Comma)),
        text[i] == '.' ==> has_token(text, i, i + 1, TokenKindView::Mark(Mark::Dot)),
        text[i] == '!' ==> has_token(text, i, i + 1, TokenKindView::Mark(Mark::Bang)),
        text[i] == ':' && i + 1 < text.len() && text[i + 1] == '-' ==> has_token(
            text,
            i,
            i + 2,
            TokenKindView::Mark(Mark::ColonDash),
        ),
        text[i] == ':' && !(i + 1 < text.len() && text[i + 1] == '-') ==> has_token(
            text,
            i,
            i + 1,
            TokenKindView::Mark(Mark::Colon),
        ),
{
    lemma_span(text, i, i + 1);
    let rest = lexer::lex_from(text, i + 1);
    assert(Seq::<DiagnosticView>::empty() + rest.1 =~= rest.1);
    if i + 1 < text.len() {
        lemma_span(text, i, i + 2);
        let rest = lexer::lex_from(text, i + 2);
        assert(Seq::<DiagnosticView>::empty() + rest.1 =~= rest.1);
    }
}

/// A run of letters and digits that starts with a letter is a name, of exactly these characters.
pub proof fn law_names(text: Seq<char>, i: int, end: int)
    requires
        0 <= i < text.len(),
        is_letter(text[i]),
        name_stops(text, i, end),
    ensures
        has_token(text, i, end, TokenKindView::Ident(text.subrange(i, end))),
{
    assert(i < end);
    lemma_name_stops(text, i + 1, end);
    lemma_span(text, i, end);
    let rest = lexer::lex_from(text, end);
    assert(Seq::<DiagnosticView>::empty() + rest.1 =~= rest.1);
}

/// An apostrophe and a run of letters and digits is a symbol, of exactly these characters.
pub proof fn law_symbols(text: Seq<char>, i: int, end: int)
    requires
        0 <= i < text.len(),
        text[i] == '\'',
        name_stops(text, i + 1, end),
    ensures
        if end > i + 1 {
            has_token(text, i, end, TokenKindView::Symbol(text.subrange(i + 1, end)))
        } else {
            lexer::lex_from(text, i) == (
                lexer::lex_from(text, end).0,
                seq![
                    DiagnosticView {
                        message: "expected a symbol name after apostrophe"@,
                        span: bytes_between(text, i, end),
                    },
                ] + lexer::lex_from(text, end).1,
            )
        },
{
    lemma_name_stops(text, i + 1, end);
    lemma_span(text, i, end);
    let rest = lexer::lex_from(text, end);
    assert(Seq::<DiagnosticView>::empty() + rest.1 =~= rest.1);
    assert(Seq::<TokenView>::empty() + rest.0 =~= rest.0);
}

/// A run of digits is the number that it denotes, or a problem where that is too large.
pub proof fn law_numbers(text: Seq<char>, i: int, end: int)
    requires
        i < end,
        digits_stop(text, i, end),
    ensures
        match text::parsed_u32(text.subrange(i, end)) {
            Some(value) => has_token(text, i, end, TokenKindView::Number(value)),
            None => lexer::lex_from(text, i) == (
                seq![
                    TokenView {
                        kind: TokenKindView::Invalid,
                        span: bytes_between(text, i, end),
                    },
                ] + lexer::lex_from(text, end).0,
                seq![
                    DiagnosticView {
                        message: "integer literal does not fit in u32"@,
                        span: bytes_between(text, i, end),
                    },
                ] + lexer::lex_from(text, end).1,
            ),
        },
{
    assert('0' <= text[i] <= '9');
    lemma_digits_stop(text, i + 1, end);
    lemma_span(text, i, end);
    let rest = lexer::lex_from(text, end);
    assert(Seq::<DiagnosticView>::empty() + rest.1 =~= rest.1);
}

/// Whether some characters between quotes write one character: the character itself, or a backslash
/// and the letter that stands for it.
pub open spec fn writes(piece: Seq<char>, c: char) -> bool {
    ||| piece == seq![c] && c != '"' && c != '\\'
    ||| piece == seq!['\\', 'n'] && c == '\n'
    ||| piece == seq!['\\', 'r'] && c == '\r'
    ||| piece == seq!['\\', 't'] && c == '\t'
    ||| piece == seq!['\\', '"'] && c == '"'
    ||| piece == seq!['\\', '\\'] && c == '\\'
}

/// Pieces, one after the other.
pub open spec fn concat(pieces: Seq<Seq<char>>) -> Seq<char>
    decreases pieces.len(),
{
    if pieces.len() == 0 {
        Seq::empty()
    } else {
        pieces[0] + concat(pieces.drop_first())
    }
}

proof fn lemma_string_read(
    text: Seq<char>,
    i: int,
    before: Seq<char>,
    pieces: Seq<Seq<char>>,
    value: Seq<char>,
)
    requires
        0 <= i,
        pieces.len() == value.len(),
        forall|k: int| 0 <= k < value.len() ==> writes(#[trigger] pieces[k], value[k]),
        i + concat(pieces).len() < text.len(),
        text.subrange(i, i + concat(pieces).len()) == concat(pieces),
        text[i + concat(pieces).len()] == '"',
    ensures
        ({
            let tail = lexer::string_tail(text, i, before);
            &&& tail.closed
            &&& tail.value == before + value
            &&& tail.end == i + concat(pieces).len() + 1
            &&& tail.problems.len() == 0
        }),
    decreases pieces.len(),
{
    let all = concat(pieces);
    if pieces.len() > 0 {
        let rest = pieces.drop_first();
        let more = value.drop_first();
        let piece = pieces[0];
        assert(writes(piece, value[0]));
        assert forall|k: int| 0 <= k < more.len() implies writes(#[trigger] rest[k], more[k]) by {
            assert(writes(pieces[k + 1], value[k + 1]));
        }
        let n = piece.len() as int;
        assert(all == piece + concat(rest));
        assert(all.len() == n + concat(rest).len());
        assert forall|k: int| 0 <= k < n implies text[i + k] == piece[k] by {
            assert(text.subrange(i, i + all.len())[k] == all[k]);
        }
        assert(text.subrange(i + n, i + n + concat(rest).len()) =~= concat(rest)) by {
            assert forall|k: int| 0 <= k < concat(rest).len() implies text[i + n + k] == concat(
                rest,
            )[k] by {
                assert(text.subrange(i, i + all.len())[n + k] == all[n + k]);
            }
        }
        assert(text[i] == piece[0]);
        if n == 2 {
            assert(text[i + 1] == piece[1]);
        }
        lemma_string_read(text, i + n, before.push(value[0]), rest, more);
        assert(before.push(value[0]) + more =~= before + value);
    } else {
        assert(before + value =~= before);
    }
}

/// A string literal denotes the characters that are written between its quotes, each as it is or
/// with its escape.
pub proof fn law_strings(text: Seq<char>, i: int, pieces: Seq<Seq<char>>, value: Seq<char>)
    requires
        0 <= i,
        pieces.len() == value.len(),
        forall|k: int| 0 <= k < value.len() ==> writes(#[trigger] pieces[k], value[k]),
        i + concat(pieces).len() + 1 < text.len(),
        text[i] == '"',
        text.subrange(i + 1, i + 1 + concat(pieces).len()) == concat(pieces),
        text[i + 1 + concat(pieces).len()] == '"',
    ensures
        has_token(text, i, i + concat(pieces).len() + 2, TokenKindView::String(value)),
{
    let end = i + concat(pieces).len() + 2;
    lemma_string_read(text, i + 1, Seq::empty(), pieces, value);
    assert(Seq::<char>::empty() + value =~= value);
    lemma_span(text, i, end);
    let rest = lexer::lex_from(text, end);
    let tail = lexer::string_tail(text, i + 1, Seq::empty());
    assert(tail.problems =~= Seq::<DiagnosticView>::empty());
    assert(Seq::<DiagnosticView>::empty() + rest.1 =~= rest.1);
}

/// A string literal without quotes or backslashes inside denotes exactly the characters between its
/// quotes.
pub proof fn law_plain_strings(value: Seq<char>)
    requires
        forall|k: int|
            0 <= k < value.len() ==> (#[trigger] value[k]) != '"' && value[k] != '\\',
    ensures
        ({
            let text = seq!['"'] + value + seq!['"'];
            lexer::lex_from(text, 0) == (
                seq![
                    TokenView {
                        kind: TokenKindView::String(value),
                        span: bytes_between(text, 0, text.len() as int),
                    },
                ],
                Seq::<DiagnosticView>::empty(),
            )
        }),
{
    let text = seq!['"'] + value + seq!['"'];
    let pieces = Seq::new(value.len(), |k: int| seq![value[k]]);
    lemma_singles(value, pieces);
    assert(text.subrange(1, 1 + value.len() as int) =~= value);
    law_strings(text, 0, pieces, value);
    law_end_of_text(text);
    assert(lexer::lex_from(text, 0).0 =~= seq![
        TokenView {
            kind: TokenKindView::String(value),
            span: bytes_between(text, 0, text.len() as int),
        },
    ]);
    assert(lexer::lex_from(text, 0).1 =~= Seq::<DiagnosticView>::empty());
}

proof fn lemma_singles(value: Seq<char>, pieces: Seq<Seq<char>>)
    requires
        pieces.len() == value.len(),
        forall|k: int| 0 <= k < value.len() ==> #[trigger] pieces[k] == seq![value[k]],
    ensures
        concat(pieces) == value,
    decreases value.len(),
{
    if value.len() > 0 {
        let rest = value.drop_first();
        assert forall|k: int| 0 <= k < rest.len() implies #[trigger] pieces.drop_first()[k]
            == seq![rest[k]] by {
            assert(pieces[k + 1] == seq![value[k + 1]]);
        }
        lemma_singles(rest, pieces.drop_first());
        assert(pieces[0] == seq![value[0]]);
        assert(seq![value[0]] + rest =~= value);
    } else {
        assert(concat(pieces) =~= value);
    }
}

/// Whether a piece is a backslash and a character that no escape has.
pub open spec fn is_unsupported(piece: Seq<char>) -> bool {
    &&& piece.len() == 2
    &&& piece[0] == '\\'
    &&& piece[1] != 'n' && piece[1] != 'r' && piece[1] != 't' && piece[1] != '"' && piece[1] != '\\'
}

/// The problems of pieces that start at a place: one for each unsupported escape, where it stands.
pub open spec fn complaints(text: Seq<char>, i: int, pieces: Seq<Seq<char>>) -> Seq<DiagnosticView>
    decreases pieces.len(),
{
    if pieces.len() == 0 {
        Seq::empty()
    } else {
        let rest = complaints(text, i + pieces[0].len(), pieces.drop_first());
        if is_unsupported(pieces[0]) {
            seq![
                DiagnosticView {
                    message: "unsupported string escape"@,
                    span: bytes_between(text, i, i + 2),
                },
            ] + rest
        } else {
            rest
        }
    }
}

proof fn lemma_pieces_read(
    text: Seq<char>,
    i: int,
    before: Seq<char>,
    pieces: Seq<Seq<char>>,
    value: Seq<char>,
)
    requires
        0 <= i,
        pieces.len() == value.len(),
        forall|k: int|
            0 <= k < value.len() ==> writes(#[trigger] pieces[k], value[k]) || (is_unsupported(
                pieces[k],
            ) && pieces[k][1] == value[k]),
        i + concat(pieces).len() <= text.len(),
        text.subrange(i, i + concat(pieces).len()) == concat(pieces),
    ensures
        ({
            let tail = lexer::string_tail(text, i, before);
            let rest = lexer::string_tail(text, i + concat(pieces).len(), before + value);
            &&& tail.closed == rest.closed
            &&& tail.value == rest.value
            &&& tail.end == rest.end
            &&& tail.problems == complaints(text, i, pieces) + rest.problems
        }),
    decreases pieces.len(),
{
    let all = concat(pieces);
    let last = lexer::string_tail(text, i + all.len(), before + value);
    if pieces.len() > 0 {
        let rest = pieces.drop_first();
        let more = value.drop_first();
        let piece = pieces[0];
        let n = piece.len() as int;
        assert forall|k: int| 0 <= k < more.len() implies writes(#[trigger] rest[k], more[k]) || (
        is_unsupported(rest[k]) && rest[k][1] == more[k]) by {
            assert(rest[k] == pieces[k + 1] && more[k] == value[k + 1]);
        }
        assert(writes(piece, value[0]) || (is_unsupported(piece) && piece[1] == value[0]));
        assert(all == piece + concat(rest));
        assert(all.len() == n + concat(rest).len());
        assert forall|k: int| 0 <= k < n implies text[i + k] == piece[k] by {
            assert(text.subrange(i, i + all.len())[k] == all[k]);
        }
        assert(text.subrange(i + n, i + n + concat(rest).len()) =~= concat(rest)) by {
            assert forall|k: int| 0 <= k < concat(rest).len() implies text[i + n + k] == concat(
                rest,
            )[k] by {
                assert(text.subrange(i, i + all.len())[n + k] == all[n + k]);
            }
        }
        assert(text[i] == piece[0]);
        if n == 2 {
            assert(text[i + 1] == piece[1]);
            lemma_span(text, i, i + 2);
        }
        lemma_pieces_read(text, i + n, before.push(value[0]), rest, more);
        assert(before.push(value[0]) + more =~= before + value);
        assert(complaints(text, i, pieces) + last.problems =~= if is_unsupported(piece) {
            seq![
                DiagnosticView {
                    message: "unsupported string escape"@,
                    span: bytes_between(text, i, i + 2),
                },
            ] + (complaints(text, i + n, rest) + last.problems)
        } else {
            complaints(text, i + n, rest) + last.problems
        });
    } else {
        assert(before + value =~= before);
        assert(complaints(text, i, pieces) + last.problems =~= last.problems);
    }
}

/// A string literal denotes its characters, those behind an unsupported backslash as well. Each
/// unsupported escape is one problem, and the text goes on after the closing quote.
pub proof fn law_closed_strings(text: Seq<char>, i: int, pieces: Seq<Seq<char>>, value: Seq<char>)
    requires
        0 <= i,
        pieces.len() == value.len(),
        forall|k: int|
            0 <= k < value.len() ==> writes(#[trigger] pieces[k], value[k]) || (is_unsupported(
                pieces[k],
            ) && pieces[k][1] == value[k]),
        i + concat(pieces).len() + 1 < text.len(),
        text[i] == '"',
        text.subrange(i + 1, i + 1 + concat(pieces).len()) == concat(pieces),
        text[i + 1 + concat(pieces).len()] == '"',
    ensures
        ({
            let end = i + concat(pieces).len() + 2;
            lexer::lex_from(text, i) == (
                seq![
                    TokenView {
                        kind: TokenKindView::String(value),
                        span: bytes_between(text, i, end),
                    },
                ] + lexer::lex_from(text, end).0,
                complaints(text, i + 1, pieces) + lexer::lex_from(text, end).1,
            )
        }),
{
    let end = i + concat(pieces).len() + 2;
    lemma_pieces_read(text, i + 1, Seq::empty(), pieces, value);
    assert(Seq::<char>::empty() + value =~= value);
    lemma_span(text, i, end);
    let tail = lexer::string_tail(text, i + 1, Seq::empty());
    assert(tail.problems =~= complaints(text, i + 1, pieces));
}

/// A string literal that the text ends in, whatever is written in it, is no token. The problem of
/// the missing quote comes after those of its escapes.
pub proof fn law_unclosed_strings(
    text: Seq<char>,
    i: int,
    pieces: Seq<Seq<char>>,
    value: Seq<char>,
)
    requires
        0 <= i < text.len(),
        pieces.len() == value.len(),
        forall|k: int|
            0 <= k < value.len() ==> writes(#[trigger] pieces[k], value[k]) || (is_unsupported(
                pieces[k],
            ) && pieces[k][1] == value[k]),
        text[i] == '"',
        i + 1 + concat(pieces).len() <= text.len() <= i + 2 + concat(pieces).len(),
        text.subrange(i + 1, i + 1 + concat(pieces).len()) == concat(pieces),
        text.len() == i + 2 + concat(pieces).len() ==> text[text.len() - 1] == '\\',
    ensures
        lexer::lex_from(text, i) == (
            Seq::<TokenView>::empty(),
            complaints(text, i + 1, pieces) + seq![
                DiagnosticView {
                    message: "unterminated string literal"@,
                    span: bytes_between(text, i, text.len() as int),
                },
            ],
        ),
{
    lemma_pieces_read(text, i + 1, Seq::empty(), pieces, value);
    lemma_span(text, i, text.len() as int);
    law_end_of_text(text);
    let tail = lexer::string_tail(text, i + 1, Seq::empty());
    let found = DiagnosticView {
        message: "unterminated string literal"@,
        span: bytes_between(text, i, text.len() as int),
    };
    assert(tail.problems =~= complaints(text, i + 1, pieces));
    assert(tail.end == text.len());
    assert(lexer::lex_from(text, i).0 =~= Seq::<TokenView>::empty());
    assert(lexer::lex_from(text, i).1 =~= complaints(text, i + 1, pieces) + seq![found]);
}

/// A string literal that the text ends in is a problem, and no token.
pub proof fn law_open_strings(text: Seq<char>, i: int)
    requires
        0 <= i < text.len(),
        text[i] == '"',
        forall|k: int| i < k < text.len() ==> (#[trigger] text[k]) != '"' && text[k] != '\\',
    ensures
        lexer::lex_from(text, i) == (
            Seq::<TokenView>::empty(),
            seq![
                DiagnosticView {
                    message: "unterminated string literal"@,
                    span: bytes_between(text, i, text.len() as int),
                },
            ],
        ),
{
    lemma_open_tail(text, i + 1, Seq::empty());
    lemma_span(text, i, text.len() as int);
    law_end_of_text(text);
    let tail = lexer::string_tail(text, i + 1, Seq::empty());
    let found = DiagnosticView {
        message: "unterminated string literal"@,
        span: bytes_between(text, i, text.len() as int),
    };
    assert(tail.problems.push(found) =~= seq![found]);
    assert(lexer::lex_from(text, i).0 =~= Seq::<TokenView>::empty());
    assert(lexer::lex_from(text, i).1 =~= seq![found]);
}

proof fn lemma_open_tail(text: Seq<char>, i: int, before: Seq<char>)
    requires
        0 <= i <= text.len(),
        forall|k: int| i <= k < text.len() ==> (#[trigger] text[k]) != '"' && text[k] != '\\',
    ensures
        ({
            let tail = lexer::string_tail(text, i, before);
            &&& !tail.closed
            &&& tail.end == text.len()
            &&& tail.problems.len() == 0
        }),
    decreases text.len() - i,
{
    if i < text.len() {
        assert(text[i] != '"');
        lemma_open_tail(text, i + 1, before.push(text[i]));
    }
}

/// A backslash before another character than those of the escapes is a problem. The character stays.
pub proof fn law_unsupported_escapes(
    text: Seq<char>,
    i: int,
    front: Seq<char>,
    c: char,
    back: Seq<char>,
)
    requires
        0 <= i,
        text[i] == '"',
        forall|k: int| 0 <= k < front.len() ==> (#[trigger] front[k]) != '"' && front[k] != '\\',
        forall|k: int| 0 <= k < back.len() ==> (#[trigger] back[k]) != '"' && back[k] != '\\',
        c != 'n' && c != 'r' && c != 't' && c != '"' && c != '\\',
        i + front.len() + back.len() + 3 < text.len(),
        text.subrange(i + 1, i + 4 + front.len() + back.len()) == front + seq!['\\', c] + back
            + seq!['"'],
    ensures
        ({
            let end = i + front.len() + back.len() + 4;
            let place = i + 1 + front.len();
            lexer::lex_from(text, i) == (
                seq![
                    TokenView {
                        kind: TokenKindView::String(front + seq![c] + back),
                        span: bytes_between(text, i, end),
                    },
                ] + lexer::lex_from(text, end).0,
                seq![
                    DiagnosticView {
                        message: "unsupported string escape"@,
                        span: bytes_between(text, place, place + 2),
                    },
                ] + lexer::lex_from(text, end).1,
            )
        }),
{
    let end = i + front.len() + back.len() + 4;
    let place = i + 1 + front.len();
    let all = front + seq!['\\', c] + back + seq!['"'];
    let n = front.len() as int;
    let m = back.len() as int;
    assert forall|k: int| 0 <= k < all.len() implies text[i + 1 + k] == #[trigger] all[k] by {
        assert(text.subrange(i + 1, end)[k] == all[k]);
    }
    assert forall|k: int| 0 <= k < front.len() implies text[i + 1 + k] == #[trigger] front[k] by {
        assert(all[k] == front[k]);
    }
    assert(all[n] == '\\');
    assert(text[i + 1 + n] == all[n]);
    assert(all[n + 1] == c);
    assert(text[i + 1 + (n + 1)] == all[n + 1]);
    assert(text[place] == '\\' && text[place + 1] == c);
    lemma_plain_tail(text, i + 1, Seq::empty(), front);
    assert(Seq::<char>::empty() + front =~= front);
    let pieces = Seq::new(back.len(), |k: int| seq![back[k]]);
    lemma_singles(back, pieces);
    assert(text.subrange(place + 2, place + 2 + m) =~= back) by {
        assert forall|k: int| 0 <= k < m implies text[place + 2 + k] == back[k] by {
            assert(all[n + 2 + k] == back[k]);
            assert(text[i + 1 + (n + 2 + k)] == all[n + 2 + k]);
        }
    }
    assert(all[n + 2 + m] == '"');
    assert(text[i + 1 + (n + 2 + m)] == '"');
    lemma_string_read(text, place + 2, front.push(c), pieces, back);
    assert(front.push(c) + back =~= front + seq![c] + back);
    lemma_span(text, i, end);
    lemma_span(text, place, place + 2);
    let tail = lexer::string_tail(text, i + 1, Seq::empty());
    let rest = lexer::string_tail(text, place + 2, front.push(c));
    assert(tail == lexer::string_tail(text, place, front));
    let found = DiagnosticView {
        message: "unsupported string escape"@,
        span: bytes_between(text, place, place + 2),
    };
    assert(seq![found] + rest.problems =~= seq![found]);
}

/// Characters without quotes and backslashes are read as they are.
proof fn lemma_plain_tail(text: Seq<char>, i: int, before: Seq<char>, front: Seq<char>)
    requires
        0 <= i,
        i + front.len() <= text.len(),
        forall|k: int| 0 <= k < front.len() ==> text[i + k] == #[trigger] front[k],
        forall|k: int| 0 <= k < front.len() ==> (#[trigger] front[k]) != '"' && front[k] != '\\',
    ensures
        lexer::string_tail(text, i, before) == lexer::string_tail(
            text,
            i + front.len(),
            before + front,
        ),
    decreases front.len(),
{
    if front.len() > 0 {
        let rest = front.drop_first();
        assert(text[i + 0] == front[0]);
        assert forall|k: int| 0 <= k < rest.len() implies text[i + 1 + k] == #[trigger] rest[k] by {
            assert(text[i + (k + 1)] == front[k + 1]);
        }
        lemma_plain_tail(text, i + 1, before.push(front[0]), rest);
        assert(before.push(front[0]) + rest =~= before + front);
    } else {
        assert(before + front =~= before);
    }
}

/// Any other character is a problem of its own.
pub proof fn law_other_characters(text: Seq<char>, i: int)
    requires
        0 <= i < text.len(),
        !is_letter_or_digit(text[i]),
        text[i] != ' ' && text[i] != '\t' && text[i] != '\n' && text[i] != '\r' && text[i]
            != '\x0C',
        text[i] != '#' && text[i] != '%' && text[i] != '(' && text[i] != ')' && text[i] != ','
            && text[i] != '.' && text[i] != '!' && text[i] != ':' && text[i] != '\'' && text[i]
            != '"',
        text[i] != '/' || !(i + 1 < text.len() && text[i + 1] == '/'),
    ensures
        lexer::lex_from(text, i) == (
            seq![
                TokenView { kind: TokenKindView::Invalid, span: bytes_between(text, i, i + 1) },
            ] + lexer::lex_from(text, i + 1).0,
            seq![
                DiagnosticView {
                    message: "unexpected character "@ + text::quoted(seq![text[i]]),
                    span: bytes_between(text, i, i + 1),
                },
            ] + lexer::lex_from(text, i + 1).1,
        ),
{
    lemma_span(text, i, i + 1);
}

proof fn lemma_offset_of_front(front: Seq<char>, back: Seq<char>, count: int)
    requires
        0 <= count <= front.len(),
    ensures
        text::byte_offset(front + back, count) == text::byte_offset(front, count),
    decreases count,
{
    if count > 0 {
        lemma_offset_of_front(front, back, count - 1);
        assert((front + back)[count - 1] == front[count - 1]);
    }
}

proof fn lemma_offset_of_back(front: Seq<char>, back: Seq<char>, count: int)
    requires
        0 <= count <= back.len(),
    ensures
        text::byte_offset(front + back, front.len() + count) == text::byte_offset(
            front + back,
            front.len() as int,
        ) + text::byte_offset(back, count),
    decreases count,
{
    if count > 0 {
        lemma_offset_of_back(front, back, count - 1);
        assert((front + back)[front.len() + count - 1] == back[count - 1]);
    }
}

proof fn lemma_chars_before(text: Seq<char>, offset: nat, from: nat, count: nat)
    requires
        from <= count <= text.len(),
        text::byte_offset(text, count as int) <= offset,
        count < text.len() ==> text::byte_offset(text, count as int + 1) > offset,
    ensures
        lexer::chars_before(text, offset, from) == count,
    decreases count - from,
{
    if from < count {
        text::lemma_byte_offset_monotonic(text, from as int + 1, count as int);
        lemma_chars_before(text, offset, from + 1, count);
    }
}

/// How many line feeds a text has.
pub open spec fn feeds(text: Seq<char>) -> nat {
    text.filter(|c: char| c == '\n').len()
}

proof fn lemma_line_feeds(front: Seq<char>, back: Seq<char>, count: int)
    requires
        0 <= count <= front.len(),
    ensures
        lexer::line_feeds(front + back, count) == feeds(front.take(count)),
    decreases count,
{
    let is_feed = |c: char| c == '\n';
    reveal(Seq::filter);
    if count > 0 {
        lemma_line_feeds(front, back, count - 1);
        let taken = front.take(count);
        assert(taken.drop_last() =~= front.take(count - 1));
        assert(taken.last() == (front + back)[count - 1]);
        assert(is_feed(taken.last()) == (taken.last() == '\n'));
    } else {
        assert(front.take(0) =~= Seq::empty());
    }
}

proof fn lemma_line_start(front: Seq<char>, line: Seq<char>, back: Seq<char>, count: int)
    requires
        front.len() == 0 || front.last() == '\n',
        forall|i: int| 0 <= i < line.len() ==> #[trigger] line[i] != '\n',
        0 <= count <= line.len(),
    ensures
        lexer::line_start(front + line + back, front.len() + count) == front.len(),
    decreases count,
{
    let all = front + line + back;
    if count > 0 {
        lemma_line_start(front, line, back, count - 1);
        assert(all[front.len() + count - 1] == line[count - 1]);
    } else if front.len() > 0 {
        assert(all[front.len() - 1] == front.last());
    }
}

/// A problem that starts behind some lines and a part of the next one stands in the line after as
/// many lines as there are line feeds, in the column after as many bytes as the part has.
pub proof fn law_places(front: Seq<char>, line: Seq<char>, back: Seq<char>)
    requires
        front.len() == 0 || front.last() == '\n',
        forall|i: int| 0 <= i < line.len() ==> #[trigger] line[i] != '\n',
    ensures
        ({
            let all = front + line + back;
            let count = lexer::chars_before(all, encode_utf8(front + line).len(), 0) as int;
            &&& count == front.len() + line.len()
            &&& lexer::line_feeds(all, count) == feeds(front)
            &&& text::byte_offset(all, count) - text::byte_offset(
                all,
                lexer::line_start(all, count),
            ) == encode_utf8(line).len()
        }),
{
    let all = front + line + back;
    let both = front + line;
    let n = both.len() as int;
    text::lemma_byte_offset_is_encoded_length(both, n);
    assert(both.take(n) =~= both);
    lemma_offset_of_front(both, back, n);
    lemma_chars_before(all, encode_utf8(both).len(), 0, n as nat);
    lemma_line_feeds(both, back, n);
    lemma_line_start(front, line, back, line.len() as int);
    lemma_feeds_of_line(front, line, line.len() as int);
    assert(front + line.take(line.len() as int) =~= both);
    text::lemma_byte_offset_is_encoded_length(front, front.len() as int);
    assert(front.take(front.len() as int) =~= front);
    lemma_offset_of_front(front, line + back, front.len() as int);
    assert(front + (line + back) =~= all);
    lemma_offset_of_back(front, line, line.len() as int);
    lemma_offset_of_front(front, line, front.len() as int);
    text::lemma_byte_offset_is_encoded_length(line, line.len() as int);
    assert(line.take(line.len() as int) =~= line);
}

proof fn lemma_feeds_of_line(front: Seq<char>, line: Seq<char>, count: int)
    requires
        forall|i: int| 0 <= i < line.len() ==> #[trigger] line[i] != '\n',
        0 <= count <= line.len(),
    ensures
        feeds(front + line.take(count)) == feeds(front),
    decreases count,
{
    reveal(Seq::filter);
    let is_feed = |c: char| c == '\n';
    if count > 0 {
        lemma_feeds_of_line(front, line, count - 1);
        let all = front + line.take(count);
        assert(all.drop_last() =~= front + line.take(count - 1));
        assert(all.last() == line[count - 1]);
        assert(!is_feed(all.last()));
    } else {
        assert(front + line.take(0) =~= front);
    }
}

} // verus!
