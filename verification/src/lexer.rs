//! Tokens of the source language.
use vstd::prelude::*;
use vstd::string::*;

use crate::ast;
use crate::ast::Span;
use crate::text;
use crate::text::{char_width, chars_of, parse_u32_text, quote, text_between, text_of};

verus! {

/// A problem in a source text, seen as plain data.
#[verifier::ext_equal]
pub struct DiagnosticView {
    pub message: Seq<char>,
    pub span: Span,
}

/// A problem in a source text.
#[derive(Debug, Clone, PartialEq, Eq)]
pub struct Diagnostic {
    pub message: String,
    pub span: Span,
}

impl View for Diagnostic {
    type V = DiagnosticView;

    open spec fn view(&self) -> DiagnosticView {
        DiagnosticView { message: self.message@, span: self.span }
    }
}

/// The number of leading characters that end at or before a byte offset.
pub open spec fn chars_before(text: Seq<char>, offset: nat, count: nat) -> nat
    decreases text.len() - count,
{
    if count < text.len() && text::byte_offset(text, count as int + 1) <= offset {
        chars_before(text, offset, count + 1)
    } else {
        count
    }
}

/// The number of line feeds among the first characters.
pub open spec fn line_feeds(text: Seq<char>, count: int) -> nat
    decreases count,
{
    if count <= 0 {
        0
    } else {
        line_feeds(text, count - 1) + if text[count - 1] == '\n' {
            1nat
        } else {
            0nat
        }
    }
}

/// The position after the last line feed among the first characters.
pub open spec fn line_start(text: Seq<char>, count: int) -> int
    decreases count,
{
    if count <= 0 {
        0
    } else if text[count - 1] == '\n' {
        count
    } else {
        line_start(text, count - 1)
    }
}

impl Diagnostic {
    /// The line, from one, and the byte column in it, from one, at which the problem starts.
    pub fn line_column(&self, source: &str) -> (place: (usize, usize))
        requires
            text::byte_offset(source@, source@.len() as int) < usize::MAX,
        ensures
            ({
                let count = chars_before(source@, self.span.start as nat, 0) as int;
                &&& place.0 == line_feeds(source@, count) + 1
                &&& place.1 == text::byte_offset(source@, count) - text::byte_offset(
                    source@,
                    line_start(source@, count),
                ) + 1
            }),
    {
        let chars = chars_of(source);
        let ghost text = source@;
        let mut line: usize = 1;
        let mut column: usize = 1;
        let mut offset: usize = 0;
        let mut i: usize = 0;
        while i < chars.len()
            invariant_except_break
                chars_before(text, self.span.start as nat, i as nat) == chars_before(
                    text,
                    self.span.start as nat,
                    0,
                ),
            invariant
                i <= chars@.len(),
                chars@ == text,
                text::byte_offset(text, text.len() as int) < usize::MAX,
                offset == text::byte_offset(text, i as int),
                line == line_feeds(text, i as int) + 1,
                line <= i + 1,
                0 <= line_start(text, i as int) <= i,
                column == text::byte_offset(text, i as int) - text::byte_offset(
                    text,
                    line_start(text, i as int),
                ) + 1,
            ensures
                i == chars_before(text, self.span.start as nat, 0),
            decreases chars@.len() - i,
        {
            let c = chars[i];
            let size: usize = char_width(c);
            proof {
                text::lemma_byte_offset_monotonic(text, 0, i + 1);
                text::lemma_byte_offset_monotonic(text, i + 1, text.len() as int);
                assert(text::byte_offset(text, i + 1) == offset + text::width(c));
            }
            if offset + size > self.span.start {
                break;
            }
            offset = offset + size;
            if c == '\n' {
                line = line + 1;
                column = 1;
            } else {
                proof {
                    text::lemma_byte_offset_monotonic(text, 0, line_start(text, i as int));
                }
                column = column + size;
            }
            i += 1;
        }
        (line, column)
    }
}

/// Punctuation.
#[derive(Debug, Clone, Copy, PartialEq, Eq, Structural)]
pub enum Mark {
    LeftParen,
    RightParen,
    Comma,
    Dot,
    Colon,
    ColonDash,
    Bang,
}

/// What a token is, seen as plain data.
pub enum TokenKindView {
    Ident(Seq<char>),
    Symbol(Seq<char>),
    String(Seq<char>),
    Number(u32),
    Mark(Mark),
    Invalid,
}

#[derive(Debug, Clone, PartialEq, Eq)]
pub enum TokenKind {
    Ident(String),
    Symbol(String),
    String(String),
    Number(u32),
    Mark(Mark),
    Invalid,
}

impl View for TokenKind {
    type V = TokenKindView;

    open spec fn view(&self) -> TokenKindView {
        match self {
            TokenKind::Ident(name) => TokenKindView::Ident(name@),
            TokenKind::Symbol(name) => TokenKindView::Symbol(name@),
            TokenKind::String(value) => TokenKindView::String(value@),
            TokenKind::Number(value) => TokenKindView::Number(*value),
            TokenKind::Mark(mark) => TokenKindView::Mark(*mark),
            TokenKind::Invalid => TokenKindView::Invalid,
        }
    }
}

/// A token, seen as plain data.
#[verifier::ext_equal]
pub struct TokenView {
    pub kind: TokenKindView,
    pub span: Span,
}

#[derive(Debug, Clone, PartialEq, Eq)]
pub struct Token {
    pub kind: TokenKind,
    pub span: Span,
}

impl View for Token {
    type V = TokenView;

    open spec fn view(&self) -> TokenView {
        TokenView { kind: self.kind@, span: self.span }
    }
}

/// Space, tab, line feed, form feed, or carriage return.
pub open spec fn is_space(c: char) -> bool {
    c == ' ' || c == '\t' || c == '\n' || c == '\x0C' || c == '\r'
}

pub open spec fn is_name_start(c: char) -> bool {
    ('a' <= c <= 'z') || ('A' <= c <= 'Z') || c == '_'
}

pub open spec fn is_name_part(c: char) -> bool {
    is_name_start(c) || ('0' <= c <= '9')
}

/// The end of the run of name characters that starts at a position.
pub open spec fn name_end(text: Seq<char>, i: int) -> int
    decreases text.len() - i,
{
    if 0 <= i < text.len() && is_name_part(text[i]) {
        name_end(text, i + 1)
    } else {
        i
    }
}

/// The end of the run of digits that starts at a position.
pub open spec fn digits_end(text: Seq<char>, i: int) -> int
    decreases text.len() - i,
{
    if 0 <= i < text.len() && '0' <= text[i] <= '9' {
        digits_end(text, i + 1)
    } else {
        i
    }
}

/// The position of the next line feed, or the end of the text.
pub open spec fn line_end(text: Seq<char>, i: int) -> int
    decreases text.len() - i,
{
    if 0 <= i < text.len() && text[i] != '\n' {
        line_end(text, i + 1)
    } else {
        i
    }
}

/// The span of the characters from one position up to another.
pub open spec fn span_of(text: Seq<char>, start: int, end: int) -> Span {
    Span { start: text::byte_offset(text, start) as usize, end: text::byte_offset(text, end) as usize }
}

pub open spec fn problem(message: Seq<char>, span: Span) -> DiagnosticView {
    DiagnosticView { message, span }
}

/// The character that a backslash and another character denote, if they denote one.
pub open spec fn escape(c: char) -> Option<char> {
    if c == 'n' {
        Some('\n')
    } else if c == 'r' {
        Some('\r')
    } else if c == 't' {
        Some('\t')
    } else if c == '"' {
        Some('"')
    } else if c == '\\' {
        Some('\\')
    } else {
        None
    }
}

/// The rest of a string literal.
#[verifier::ext_equal]
pub struct StringTail {
    pub end: int,
    pub value: Seq<char>,
    pub closed: bool,
    pub problems: Seq<DiagnosticView>,
}

/// Reads a string literal up to its closing quote, after the characters `value`.
pub open spec fn string_tail(text: Seq<char>, i: int, value: Seq<char>) -> StringTail
    decreases text.len() - i,
{
    if !(0 <= i < text.len()) {
        StringTail { end: i, value, closed: false, problems: Seq::empty() }
    } else if text[i] == '"' {
        StringTail { end: i + 1, value, closed: true, problems: Seq::empty() }
    } else if text[i] == '\\' {
        if i + 1 >= text.len() {
            StringTail { end: i + 1, value, closed: false, problems: Seq::empty() }
        } else {
            match escape(text[i + 1]) {
                Some(c) => string_tail(text, i + 2, value.push(c)),
                None => {
                    let rest = string_tail(text, i + 2, value.push(text[i + 1]));
                    StringTail {
                        problems: seq![
                            problem("unsupported string escape"@, span_of(text, i, i + 2)),
                        ] + rest.problems,
                        ..rest
                    }
                },
            }
        }
    } else {
        string_tail(text, i + 1, value.push(text[i]))
    }
}

/// What the text at one position gives: the position after it, tokens, and problems.
#[verifier::ext_equal]
pub struct LexStep {
    pub next: int,
    pub tokens: Seq<TokenView>,
    pub problems: Seq<DiagnosticView>,
}

pub open spec fn skip_to(next: int) -> LexStep {
    LexStep { next, tokens: Seq::empty(), problems: Seq::empty() }
}

pub open spec fn token_to(text: Seq<char>, i: int, next: int, kind: TokenKindView) -> LexStep {
    LexStep {
        next,
        tokens: seq![TokenView { kind, span: span_of(text, i, next) }],
        problems: Seq::empty(),
    }
}

/// The punctuation of one character.
pub open spec fn mark_of(c: char) -> Option<Mark> {
    if c == '(' {
        Some(Mark::LeftParen)
    } else if c == ')' {
        Some(Mark::RightParen)
    } else if c == ',' {
        Some(Mark::Comma)
    } else if c == '.' {
        Some(Mark::Dot)
    } else if c == '!' {
        Some(Mark::Bang)
    } else {
        None
    }
}

/// Reads what starts at a position: white space, a comment, or a token.
pub open spec fn lex_step(text: Seq<char>, i: int) -> LexStep {
    let c = text[i];
    let follows = |d: char| i + 1 < text.len() && text[i + 1] == d;
    if is_space(c) {
        skip_to(i + 1)
    } else if c == '#' || c == '%' {
        skip_to(line_end(text, i + 1))
    } else if c == '/' && follows('/') {
        skip_to(line_end(text, i + 2))
    } else if mark_of(c) is Some {
        token_to(text, i, i + 1, TokenKindView::Mark(mark_of(c)->0))
    } else if c == ':' && follows('-') {
        token_to(text, i, i + 2, TokenKindView::Mark(Mark::ColonDash))
    } else if c == ':' {
        token_to(text, i, i + 1, TokenKindView::Mark(Mark::Colon))
    } else if c == '\'' {
        let end = name_end(text, i + 1);
        if end == i + 1 {
            LexStep {
                next: end,
                tokens: Seq::empty(),
                problems: seq![
                    problem("expected a symbol name after apostrophe"@, span_of(text, i, end)),
                ],
            }
        } else {
            token_to(text, i, end, TokenKindView::Symbol(text.subrange(i + 1, end)))
        }
    } else if c == '"' {
        let tail = string_tail(text, i + 1, Seq::empty());
        if tail.closed {
            LexStep {
                next: tail.end,
                tokens: seq![
                    TokenView {
                        kind: TokenKindView::String(tail.value),
                        span: span_of(text, i, tail.end),
                    },
                ],
                problems: tail.problems,
            }
        } else {
            LexStep {
                next: tail.end,
                tokens: Seq::empty(),
                problems: tail.problems.push(
                    problem("unterminated string literal"@, span_of(text, i, tail.end)),
                ),
            }
        }
    } else if '0' <= c <= '9' {
        let end = digits_end(text, i + 1);
        match text::parsed_u32(text.subrange(i, end)) {
            Some(value) => token_to(text, i, end, TokenKindView::Number(value)),
            None => LexStep {
                problems: seq![
                    problem("integer literal does not fit in u32"@, span_of(text, i, end)),
                ],
                ..token_to(text, i, end, TokenKindView::Invalid)
            },
        }
    } else if is_name_start(c) {
        let end = name_end(text, i + 1);
        token_to(text, i, end, TokenKindView::Ident(text.subrange(i, end)))
    } else {
        LexStep {
            problems: seq![
                problem(
                    "unexpected character "@ + text::quoted(seq![c]),
                    span_of(text, i, i + 1),
                ),
            ],
            ..token_to(text, i, i + 1, TokenKindView::Invalid)
        }
    }
}

/// All tokens and problems from a position on.
pub open spec fn lex_from(text: Seq<char>, i: int) -> (Seq<TokenView>, Seq<DiagnosticView>)
    decreases text.len() - i,
{
    if 0 <= i < text.len() {
        let step = lex_step(text, i);
        if i < step.next <= text.len() {
            let rest = lex_from(text, step.next);
            (step.tokens + rest.0, step.problems + rest.1)
        } else {
            (step.tokens, step.problems)
        }
    } else {
        (Seq::empty(), Seq::empty())
    }
}

proof fn lemma_name_end(text: Seq<char>, i: int)
    requires
        0 <= i <= text.len(),
    ensures
        i <= name_end(text, i) <= text.len(),
    decreases text.len() - i,
{
    if i < text.len() && is_name_part(text[i]) {
        lemma_name_end(text, i + 1);
    }
}

proof fn lemma_digits_end(text: Seq<char>, i: int)
    requires
        0 <= i <= text.len(),
    ensures
        i <= digits_end(text, i) <= text.len(),
    decreases text.len() - i,
{
    if i < text.len() && '0' <= text[i] <= '9' {
        lemma_digits_end(text, i + 1);
    }
}

proof fn lemma_line_end(text: Seq<char>, i: int)
    requires
        0 <= i <= text.len(),
    ensures
        i <= line_end(text, i) <= text.len(),
    decreases text.len() - i,
{
    if i < text.len() && text[i] != '\n' {
        lemma_line_end(text, i + 1);
    }
}

fn scan_name(chars: &Vec<char>, start: usize) -> (end: usize)
    requires
        start <= chars@.len(),
    ensures
        end == name_end(chars@, start as int),
        start <= end <= chars@.len(),
{
    let mut i: usize = start;
    while i < chars.len() && name_part(chars[i])
        invariant
            start <= i <= chars@.len(),
            name_end(chars@, i as int) == name_end(chars@, start as int),
        decreases chars@.len() - i,
    {
        i += 1;
    }
    i
}

fn scan_digits(chars: &Vec<char>, start: usize) -> (end: usize)
    requires
        start <= chars@.len(),
    ensures
        end == digits_end(chars@, start as int),
        start <= end <= chars@.len(),
{
    let mut i: usize = start;
    while i < chars.len() && '0' <= chars[i] && chars[i] <= '9'
        invariant
            start <= i <= chars@.len(),
            digits_end(chars@, i as int) == digits_end(chars@, start as int),
        decreases chars@.len() - i,
    {
        i += 1;
    }
    i
}

fn scan_line(chars: &Vec<char>, start: usize) -> (end: usize)
    requires
        start <= chars@.len(),
    ensures
        end == line_end(chars@, start as int),
        start <= end <= chars@.len(),
{
    let mut i: usize = start;
    while i < chars.len() && chars[i] != '\n'
        invariant
            start <= i <= chars@.len(),
            line_end(chars@, i as int) == line_end(chars@, start as int),
        decreases chars@.len() - i,
    {
        i += 1;
    }
    i
}

fn name_start(c: char) -> (r: bool)
    ensures
        r == is_name_start(c),
{
    ('a' <= c && c <= 'z') || ('A' <= c && c <= 'Z') || c == '_'
}

fn name_part(c: char) -> (r: bool)
    ensures
        r == is_name_part(c),
{
    name_start(c) || ('0' <= c && c <= '9')
}

fn space(c: char) -> (r: bool)
    ensures
        r == is_space(c),
{
    c == ' ' || c == '\t' || c == '\n' || c == '\x0C' || c == '\r'
}

fn mark(c: char) -> (r: Option<Mark>)
    ensures
        r == mark_of(c),
{
    if c == '(' {
        Some(Mark::LeftParen)
    } else if c == ')' {
        Some(Mark::RightParen)
    } else if c == ',' {
        Some(Mark::Comma)
    } else if c == '.' {
        Some(Mark::Dot)
    } else if c == '!' {
        Some(Mark::Bang)
    } else {
        None
    }
}

fn unescape(c: char) -> (r: Option<char>)
    ensures
        r == escape(c),
{
    if c == 'n' {
        Some('\n')
    } else if c == 'r' {
        Some('\r')
    } else if c == 't' {
        Some('\t')
    } else if c == '"' {
        Some('"')
    } else if c == '\\' {
        Some('\\')
    } else {
        None
    }
}

/// The number of bytes of some characters.
fn measure(chars: &Vec<char>, start: usize, end: usize, offset: usize) -> (r: usize)
    requires
        start <= end <= chars@.len(),
        offset == text::byte_offset(chars@, start as int),
        text::byte_offset(chars@, chars@.len() as int) <= usize::MAX,
    ensures
        r == text::byte_offset(chars@, end as int),
{
    let mut i: usize = start;
    let mut r: usize = offset;
    while i < end
        invariant
            start <= i <= end <= chars@.len(),
            r == text::byte_offset(chars@, i as int),
            text::byte_offset(chars@, chars@.len() as int) <= usize::MAX,
        decreases end - i,
    {
        proof {
            text::lemma_byte_offset_monotonic(chars@, i + 1, chars@.len() as int);
        }
        r = r + char_width(chars[i]);
        i += 1;
    }
    r
}

/// Reads a string literal after its opening quote.
fn lex_string(
    chars: &Vec<char>,
    start: usize,
    start_offset: usize,
    diagnostics: &mut Vec<Diagnostic>,
) -> (r: (usize, usize, String, bool))
    requires
        start <= chars@.len(),
        start_offset == text::byte_offset(chars@, start as int),
        text::byte_offset(chars@, chars@.len() as int) <= usize::MAX,
    ensures
        ({
            let tail = string_tail(chars@, start as int, Seq::empty());
            &&& r.0 == tail.end
            &&& start <= r.0 <= chars@.len()
            &&& r.1 == text::byte_offset(chars@, tail.end)
            &&& r.2@ == tail.value
            &&& r.3 == tail.closed
            &&& ast::views(final(diagnostics)@) == ast::views(old(diagnostics)@) + tail.problems
        }),
{
    let ghost text = chars@;
    let ghost tail = string_tail(text, start as int, Seq::empty());
    let ghost before = ast::views(diagnostics@);
    let mut value: Vec<char> = Vec::new();
    let mut i: usize = start;
    let mut offset: usize = start_offset;
    assert(before + Seq::<DiagnosticView>::empty() =~= before);
    while i < chars.len()
        invariant
            start <= i <= chars@.len(),
            text == chars@,
            offset == text::byte_offset(text, i as int),
            text::byte_offset(text, text.len() as int) <= usize::MAX,
            ({
                let rest = string_tail(text, i as int, value@);
                &&& rest.end == tail.end
                &&& rest.value == tail.value
                &&& rest.closed == tail.closed
                &&& before + tail.problems == ast::views(diagnostics@) + rest.problems
            }),
            tail == string_tail(text, start as int, Seq::empty()),
            before == ast::views(old(diagnostics)@),
        decreases chars@.len() - i,
    {
        let c = chars[i];
        let size: usize = char_width(c);
        proof {
            text::lemma_byte_offset_monotonic(text, i + 1, text.len() as int);
        }
        if c == '"' {
            assert(ast::views(diagnostics@) + Seq::<DiagnosticView>::empty() =~= ast::views(diagnostics@));
            return (i + 1, offset + size, text_of(value.as_slice()), true);
        }
        if c == '\\' {
            if i + 1 >= chars.len() {
                assert(ast::views(diagnostics@) + Seq::<DiagnosticView>::empty() =~= ast::views(
                    diagnostics@,
                ));
                return (i + 1, offset + size, text_of(value.as_slice()), false);
            }
            let escaped = chars[i + 1];
            let escaped_size: usize = char_width(escaped);
            proof {
                text::lemma_byte_offset_monotonic(text, i + 2, text.len() as int);
                assert(text::byte_offset(text, i + 2) == text::byte_offset(text, i + 1) + text::width(escaped));
            }
            let next_offset: usize = offset + size + escaped_size;
            match unescape(escaped) {
                Some(meant) => {
                    value.push(meant);
                },
                None => {
                    let ghost rest = string_tail(text, i + 2, value@.push(escaped));
                    let ghost current = ast::views(diagnostics@);
                    let diagnostic = Diagnostic {
                        message: "unsupported string escape".to_owned(),
                        span: Span::new(offset, next_offset),
                    };
                    let ghost added = diagnostic@;
                    diagnostics.push(diagnostic);
                    proof {
                        assert(added == problem(
                            "unsupported string escape"@,
                            span_of(text, i as int, i + 2),
                        ));
                        assert(ast::views(diagnostics@) =~= current.push(added));
                        assert(current + (seq![added] + rest.problems) =~= current.push(added)
                            + rest.problems);
                    }
                    value.push(escaped);
                },
            }
            offset = next_offset;
            i = i + 2;
        } else {
            value.push(c);
            offset = offset + size;
            i = i + 1;
        }
    }
    assert(ast::views(diagnostics@) + Seq::<DiagnosticView>::empty() =~= ast::views(diagnostics@));
    (i, offset, text_of(value.as_slice()), false)
}

/// Splits a source text into tokens, reporting what is none.
pub fn lex(source: &str) -> (r: (Vec<Token>, Vec<Diagnostic>))
    ensures
        ast::views(r.0@) == lex_from(source@, 0).0,
        ast::views(r.1@) == lex_from(source@, 0).1,
{
    let chars = chars_of(source);
    let ghost text = source@;
    let mut tokens: Vec<Token> = Vec::new();
    let mut diagnostics: Vec<Diagnostic> = Vec::new();
    let mut position: usize = 0;
    let mut offset: usize = 0;
    proof {
        assert(ast::views(tokens@) =~= Seq::<TokenView>::empty());
        assert(ast::views(diagnostics@) =~= Seq::<DiagnosticView>::empty());
        assert(Seq::<TokenView>::empty() + lex_from(text, 0).0 =~= lex_from(text, 0).0);
        assert(Seq::<DiagnosticView>::empty() + lex_from(text, 0).1 =~= lex_from(text, 0).1);
    }
    while position < chars.len()
        invariant
            position <= chars@.len(),
            chars@ == text,
            text == source@,
            text::byte_offset(text, text.len() as int) <= usize::MAX,
            offset == text::byte_offset(text, position as int),
            ast::views(tokens@) + lex_from(text, position as int).0 == lex_from(text, 0).0,
            ast::views(diagnostics@) + lex_from(text, position as int).1 == lex_from(text, 0).1,
        decreases chars@.len() - position,
    {
        let ghost old_tokens = ast::views(tokens@);
        let ghost old_diagnostics = ast::views(diagnostics@);
        let ghost old_position = position as int;
        let ghost step = lex_step(text, old_position);
        lex_one(&chars, &mut position, &mut offset, &mut tokens, &mut diagnostics);
        proof {
            let rest = lex_from(text, step.next);
            assert(old_tokens + (step.tokens + rest.0) =~= (old_tokens + step.tokens) + rest.0);
            assert(old_diagnostics + (step.problems + rest.1) =~= (old_diagnostics
                + step.problems) + rest.1);
        }
    }
    proof {
        assert(ast::views(tokens@) + Seq::<TokenView>::empty() =~= ast::views(tokens@));
        assert(ast::views(diagnostics@) + Seq::<DiagnosticView>::empty() =~= ast::views(diagnostics@));
    }
    (tokens, diagnostics)
}

/// Adds a token.
fn push_token(tokens: &mut Vec<Token>, kind: TokenKind, start: usize, end: usize)
    ensures
        ast::views(final(tokens)@) == ast::views(old(tokens)@) + seq![
            TokenView { kind: kind@, span: Span { start, end } },
        ],
{
    let ghost before = ast::views(tokens@);
    let ghost view = TokenView { kind: kind@, span: Span { start, end } };
    tokens.push(Token { kind, span: Span::new(start, end) });
    assert(ast::views(tokens@) =~= before + seq![view]);
}

/// Adds a problem.
fn push_problem(diagnostics: &mut Vec<Diagnostic>, message: String, start: usize, end: usize)
    ensures
        ast::views(final(diagnostics)@) == ast::views(old(diagnostics)@) + seq![
            problem(message@, Span { start, end }),
        ],
{
    let ghost before = ast::views(diagnostics@);
    let ghost view = problem(message@, Span { start, end });
    diagnostics.push(Diagnostic { message, span: Span::new(start, end) });
    assert(ast::views(diagnostics@) =~= before + seq![view]);
}

/// Reads what starts at the current position.
fn lex_one(
    chars: &Vec<char>,
    position: &mut usize,
    offset: &mut usize,
    tokens: &mut Vec<Token>,
    diagnostics: &mut Vec<Diagnostic>,
)
    requires
        *old(position) < chars@.len(),
        text::byte_offset(chars@, chars@.len() as int) <= usize::MAX,
        *old(offset) == text::byte_offset(chars@, *old(position) as int),
    ensures
        ({
            let step = lex_step(chars@, *old(position) as int);
            &&& *final(position) == step.next
            &&& *old(position) < *final(position) <= chars@.len()
            &&& *final(offset) == text::byte_offset(chars@, step.next)
            &&& ast::views(final(tokens)@) == ast::views(old(tokens)@) + step.tokens
            &&& ast::views(final(diagnostics)@) == ast::views(old(diagnostics)@) + step.problems
        }),
{
    let ghost text = chars@;
    let start: usize = *position;
    let start_offset: usize = *offset;
    let ghost i = start as int;
    let ghost step = lex_step(text, i);
    let c = chars[start];
    let ghost old_tokens = ast::views(tokens@);
    let ghost old_diagnostics = ast::views(diagnostics@);
    assert(old_tokens + Seq::<TokenView>::empty() =~= old_tokens);
    assert(old_diagnostics + Seq::<DiagnosticView>::empty() =~= old_diagnostics);
    let follows_slash = chars.len() - start > 1 && chars[start + 1] == '/';
    let follows_dash = chars.len() - start > 1 && chars[start + 1] == '-';
    if space(c) {
        let next: usize = start + 1;
        *offset = measure(chars, start, next, start_offset);
        *position = next;
    } else if c == '#' || c == '%' {
        let next: usize = scan_line(chars, start + 1);
        *offset = measure(chars, start, next, start_offset);
        *position = next;
    } else if c == '/' && follows_slash {
        let next: usize = scan_line(chars, start + 2);
        *offset = measure(chars, start, next, start_offset);
        *position = next;
    } else if let Some(found) = mark(c) {
        let next: usize = start + 1;
        let next_offset: usize = measure(chars, start, next, start_offset);
        push_token(tokens, TokenKind::Mark(found), start_offset, next_offset);
        *offset = next_offset;
        *position = next;
    } else if c == ':' && follows_dash {
        let next: usize = start + 2;
        let next_offset: usize = measure(chars, start, next, start_offset);
        push_token(tokens, TokenKind::Mark(Mark::ColonDash), start_offset, next_offset);
        *offset = next_offset;
        *position = next;
    } else if c == ':' {
        let next: usize = start + 1;
        let next_offset: usize = measure(chars, start, next, start_offset);
        push_token(tokens, TokenKind::Mark(Mark::Colon), start_offset, next_offset);
        *offset = next_offset;
        *position = next;
    } else if c == '\'' {
        let next: usize = scan_name(chars, start + 1);
        let next_offset: usize = measure(chars, start, next, start_offset);
        if next == start + 1 {
            push_problem(
                diagnostics,
                "expected a symbol name after apostrophe".to_owned(),
                start_offset,
                next_offset,
            );
        } else {
            push_token(
                tokens,
                TokenKind::Symbol(text_between(chars, start + 1, next)),
                start_offset,
                next_offset,
            );
        }
        *offset = next_offset;
        *position = next;
    } else if c == '"' {
        let first_offset: usize = measure(chars, start, start + 1, start_offset);
        let (next, next_offset, value, closed) = lex_string(
            chars,
            start + 1,
            first_offset,
            diagnostics,
        );
        if closed {
            push_token(tokens, TokenKind::String(value), start_offset, next_offset);
        } else {
            let ghost tail = string_tail(text, i + 1, Seq::empty());
            push_problem(
                diagnostics,
                "unterminated string literal".to_owned(),
                start_offset,
                next_offset,
            );
            assert((old_diagnostics + tail.problems) + seq![
                problem("unterminated string literal"@, span_of(text, i, tail.end)),
            ] =~= old_diagnostics + step.problems);
        }
        *offset = next_offset;
        *position = next;
    } else if '0' <= c && c <= '9' {
        let next: usize = scan_digits(chars, start + 1);
        let next_offset: usize = measure(chars, start, next, start_offset);
        match parse_u32_text(chars, start, next) {
            Some(value) => {
                push_token(tokens, TokenKind::Number(value), start_offset, next_offset);
            },
            None => {
                push_problem(
                    diagnostics,
                    "integer literal does not fit in u32".to_owned(),
                    start_offset,
                    next_offset,
                );
                push_token(tokens, TokenKind::Invalid, start_offset, next_offset);
            },
        }
        *offset = next_offset;
        *position = next;
    } else if name_start(c) {
        let next: usize = scan_name(chars, start + 1);
        let next_offset: usize = measure(chars, start, next, start_offset);
        push_token(
            tokens,
            TokenKind::Ident(text_between(chars, start, next)),
            start_offset,
            next_offset,
        );
        *offset = next_offset;
        *position = next;
    } else {
        let next: usize = start + 1;
        let next_offset: usize = measure(chars, start, next, start_offset);
        let shown = text_between(chars, start, next);
        assert(shown@ =~= seq![c]);
        let mut message = "unexpected character ".to_owned();
        message.append(quote(shown.as_str()).as_str());
        push_problem(diagnostics, message, start_offset, next_offset);
        push_token(tokens, TokenKind::Invalid, start_offset, next_offset);
        *offset = next_offset;
        *position = next;
    }
}

/// Whether a span covers part of a text.
pub open spec fn lies_in(text: Seq<char>, span: Span) -> bool {
    span.start < span.end <= text::byte_offset(text, text.len() as int)
}

proof fn lemma_span_lies(text: Seq<char>, start: int, end: int)
    requires
        0 <= start < end <= text.len(),
        text::byte_offset(text, text.len() as int) <= usize::MAX,
    ensures
        lies_in(text, span_of(text, start, end)),
        span_of(text, start, end).start == text::byte_offset(text, start),
        span_of(text, start, end).end == text::byte_offset(text, end),
{
    text::lemma_byte_offset_monotonic(text, start, end);
    text::lemma_byte_offset_monotonic(text, end, text.len() as int);
}

proof fn lemma_string_tail_lies(text: Seq<char>, i: int, value: Seq<char>)
    requires
        0 <= i <= text.len(),
        text::byte_offset(text, text.len() as int) <= usize::MAX,
    ensures
        i <= string_tail(text, i, value).end <= text.len(),
        forall|k: int|
            0 <= k < string_tail(text, i, value).problems.len() ==> lies_in(
                text,
                (#[trigger] string_tail(text, i, value).problems[k]).span,
            ),
    decreases text.len() - i,
{
    if i < text.len() && text[i] != '"' {
        if text[i] == '\\' {
            if i + 1 < text.len() {
                match escape(text[i + 1]) {
                    Some(c) => lemma_string_tail_lies(text, i + 2, value.push(c)),
                    None => {
                        lemma_string_tail_lies(text, i + 2, value.push(text[i + 1]));
                        lemma_span_lies(text, i, i + 2);
                    },
                }
            }
        } else {
            lemma_string_tail_lies(text, i + 1, value.push(text[i]));
        }
    }
}

/// What starts at a position ends after it, and within the text.
proof fn lemma_step_lies(text: Seq<char>, i: int)
    requires
        0 <= i < text.len(),
        text::byte_offset(text, text.len() as int) <= usize::MAX,
    ensures
        i < lex_step(text, i).next <= text.len(),
        lex_step(text, i).tokens.len() <= 1,
        forall|k: int|
            0 <= k < lex_step(text, i).tokens.len() ==> (#[trigger] lex_step(
                text,
                i,
            ).tokens[k]).span == span_of(text, i, lex_step(text, i).next),
        forall|k: int|
            0 <= k < lex_step(text, i).problems.len() ==> lies_in(
                text,
                (#[trigger] lex_step(text, i).problems[k]).span,
            ),
{
    lemma_name_end(text, i + 1);
    lemma_digits_end(text, i + 1);
    lemma_line_end(text, i + 1);
    if i + 1 < text.len() {
        lemma_line_end(text, i + 2);
    }
    lemma_string_tail_lies(text, i + 1, Seq::empty());
    lemma_span_lies(text, i, i + 1);
    lemma_span_lies(text, i, name_end(text, i + 1));
    lemma_span_lies(text, i, digits_end(text, i + 1));
    lemma_span_lies(text, i, string_tail(text, i + 1, Seq::empty()).end);
}

proof fn lemma_lex_lies(text: Seq<char>, i: int)
    requires
        0 <= i <= text.len(),
        text::byte_offset(text, text.len() as int) <= usize::MAX,
    ensures
        forall|k: int|
            0 <= k < lex_from(text, i).0.len() ==> lies_in(
                text,
                (#[trigger] lex_from(text, i).0[k]).span,
            ) && text::byte_offset(text, i) <= lex_from(text, i).0[k].span.start,
        forall|k: int, l: int|
            0 <= k < l < lex_from(text, i).0.len() ==> (#[trigger] lex_from(text, i).0[k]).span.end
                <= (#[trigger] lex_from(text, i).0[l]).span.start,
        forall|k: int|
            0 <= k < lex_from(text, i).1.len() ==> lies_in(
                text,
                (#[trigger] lex_from(text, i).1[k]).span,
            ),
    decreases text.len() - i,
{
    if i < text.len() {
        let step = lex_step(text, i);
        lemma_step_lies(text, i);
        lemma_lex_lies(text, step.next);
        lemma_span_lies(text, i, step.next);
        let rest = lex_from(text, step.next);
        let all = lex_from(text, i);
        let own = step.tokens.len() as int;
        assert forall|k: int| 0 <= k < all.0.len() implies lies_in(
            text,
            (#[trigger] all.0[k]).span,
        ) && text::byte_offset(text, i) <= all.0[k].span.start && (k < own ==> all.0[k].span.end
            == text::byte_offset(text, step.next)) && (k >= own ==> text::byte_offset(
            text,
            step.next,
        ) <= all.0[k].span.start) by {
            if k < own {
                assert(all.0[k] == step.tokens[k]);
            } else {
                assert(all.0[k] == rest.0[k - own]);
                text::lemma_byte_offset_monotonic(text, i, step.next);
            }
        }
        assert forall|k: int, l: int| 0 <= k < l < all.0.len() implies (
        #[trigger] all.0[k]).span.end <= (#[trigger] all.0[l]).span.start by {
            if k >= own {
                assert(all.0[k] == rest.0[k - own]);
                assert(all.0[l] == rest.0[l - own]);
            }
        }
        assert forall|k: int| 0 <= k < all.1.len() implies lies_in(
            text,
            (#[trigger] all.1[k]).span,
        ) by {
            if k < step.problems.len() {
                assert(all.1[k] == step.problems[k]);
            } else {
                assert(all.1[k] == rest.1[k - step.problems.len()]);
            }
        }
    }
}

/// The tokens of a text stand in it one after the other, and every problem lies in it.
pub proof fn law_tokens_stand_in_order(text: Seq<char>)
    requires
        text::byte_offset(text, text.len() as int) <= usize::MAX,
    ensures
        forall|k: int|
            0 <= k < lex_from(text, 0).0.len() ==> lies_in(
                text,
                (#[trigger] lex_from(text, 0).0[k]).span,
            ),
        forall|k: int, l: int|
            0 <= k < l < lex_from(text, 0).0.len() ==> (#[trigger] lex_from(text, 0).0[k]).span.end
                <= (#[trigger] lex_from(text, 0).0[l]).span.start,
        forall|k: int|
            0 <= k < lex_from(text, 0).1.len() ==> lies_in(
                text,
                (#[trigger] lex_from(text, 0).1[k]).span,
            ),
{
    lemma_lex_lies(text, 0);
}

} // verus!
